//! Expression generators and tree walkers for the recursion experiments.
//!
//! Every draw comes from one xorshift stream, so a sweep is reproduced by its seed. A generated expression is the
//! text of a tree; the contracts say which tree a seed gives.
use vstd::prelude::*;
use crate::probe_laws::{
    family_has_its_depth, generated_within_bounds, nesting_keeps_the_value, usual_operators_pad, within,
};
use crate::recursion_dl::{applied, apply, height, quotient, ranged, Node, Outcome};
use crate::text::{chars_of, int_text, is_digit, push_i64, string_of};

verus! {

/// The successor of a state of the xorshift stream.
pub open spec fn shuffled(x: u64) -> u64 {
    let a = x ^ (x << 13);
    let b = a ^ (a >> 7);
    b ^ (b << 17)
}

/// Draws the next number of the stream.
pub fn xorshift(r: &mut u64) -> (v: u64)
    ensures
        *final(r) == shuffled(*old(r)),
        v == *final(r),
{
    *r = *r ^ (*r << 13);
    *r = *r ^ (*r >> 7);
    *r = *r ^ (*r << 17);
    *r
}

/// A number from 0 to `maxv` made of a draw.
pub open spec fn leaf_value(draw: u64, maxv: i64) -> i64 {
    (draw as int % (maxv + 1)) as i64
}

pub fn draw_leaf(maxv: i64, r: &mut u64) -> (v: i64)
    requires
        0 <= maxv,
    ensures
        *final(r) == shuffled(*old(r)),
        v == leaf_value(*final(r), maxv),
        0 <= v <= maxv,
{
    let d: u64 = xorshift(r);
    (d % (maxv as u64 + 1)) as i64
}

/// An expression as text: a numeral, or operator and operands between brackets.
pub open spec fn expr_text(n: Node) -> Seq<char>
    decreases n,
{
    match n {
        Node::Leaf(v) => int_text(v as int),
        Node::Op(op, a, b, _, _) => seq!['(', op, ' '] + expr_text(*a) + seq![' '] + expr_text(*b) + seq![')'],
    }
}

/// A generated operator node; it stands in no token stream.
pub open spec fn op_node(op: char, a: Node, b: Node) -> Node {
    Node::Op(op, Box::new(a), Box::new(b), 0, 0)
}

/// What an operator makes of two numbers in an experiment: a difference must not be negative, a quotient must be
/// exact, and division and remainder need a divisor.
pub open spec fn meaning(op: char, x: i64, y: i64) -> Option<int> {
    if op == '+' {
        Some(x + y)
    } else if op == '-' {
        if x >= y { Some(x - y) } else { None }
    } else if op == '*' {
        Some(x * y)
    } else if op == '/' {
        if y != 0 && x as int % y as int == 0 { Some(x as int / y as int) } else { None }
    } else if op == '<' {
        Some(if x <= y { x as int } else { y as int })
    } else if op == '>' {
        Some(if x >= y { x as int } else { y as int })
    } else if op == '&' {
        Some((x & y) as int)
    } else if op == '|' {
        Some((x | y) as int)
    } else if op == '^' {
        Some((x ^ y) as int)
    } else if op == '%' {
        if y != 0 { Some(x as int % y as int) } else { None }
    } else {
        None
    }
}

/// The result of an operator on two numbers, when it has one from 0 to `maxv`.
pub fn bounded_result(op: char, x: i64, y: i64, maxv: i64) -> (r: Option<i64>)
    requires
        0 <= x,
        0 <= y,
    ensures
        match r {
            Some(v) => meaning(op, x, y) == Some(v as int) && 0 <= v <= maxv,
            None => match meaning(op, x, y) {
                Some(v) => !(0 <= v <= maxv),
                None => true,
            },
        },
{
    let v: Option<i64> = if op == '+' {
        x.checked_add(y)
    } else if op == '-' {
        if x >= y { Some(x - y) } else { None }
    } else if op == '*' {
        x.checked_mul(y)
    } else if op == '/' {
        if y != 0 && x as u64 % y as u64 == 0 { Some((x as u64 / y as u64) as i64) } else { None }
    } else if op == '<' {
        Some(if x <= y { x } else { y })
    } else if op == '>' {
        Some(if x >= y { x } else { y })
    } else if op == '&' {
        Some(x & y)
    } else if op == '|' {
        Some(x | y)
    } else if op == '^' {
        Some(x ^ y)
    } else if op == '%' {
        if y != 0 { Some((x as u64 % y as u64) as i64) } else { None }
    } else {
        None
    };
    match v {
        Some(v) => if 0 <= v && v <= maxv { Some(v) } else { None },
        None => None,
    }
}

/// The value of a generated tree.
pub open spec fn gen_value(n: Node) -> i64
    decreases n,
{
    match n {
        Node::Leaf(v) => v,
        Node::Op(op, a, b, _, _) => match meaning(op, gen_value(*a), gen_value(*b)) {
            Some(v) => v as i64,
            None => 0,
        },
    }
}

/// The result of an operator on two trees is a number from 0 to `maxv`.
pub open spec fn fits(op: char, a: Node, b: Node, maxv: i64) -> bool {
    meaning(op, gen_value(a), gen_value(b)) matches Some(v) && 0 <= v <= maxv
}

/// The depths of the two operands: one of them is the full remaining depth, a bit says which.
pub open spec fn operand_depths(depth: nat, draw: u64, bit: u64) -> (nat, nat) {
    let other = (draw as int % depth as int) as nat;
    if bit & 1 == 1 {
        (other, (depth - 1) as nat)
    } else {
        ((depth - 1) as nat, other)
    }
}

/// The tree that a seed gives for a depth and an operator set, and the state of the stream behind it.
pub open spec fn family_tree(depth: nat, ops: Seq<char>, maxv: i64, seed: u64) -> (Node, u64)
    decreases depth, 401nat,
{
    if depth == 0 || ops.len() == 0 {
        (Node::Leaf(leaf_value(shuffled(seed), maxv)), shuffled(seed))
    } else {
        family_try(depth, ops, maxv, seed, 400)
    }
}

/// An operator leaves a number as it is, with a second operand within bounds.
pub open spec fn pads(op: char, v: i64, y: i64, maxv: i64) -> bool {
    0 <= y <= maxv && meaning(op, v, y) == Some(v as int)
}

/// The second operand with which an operator leaves a number as it is: nothing, one, the number itself, or the bound.
pub open spec fn neutral(op: char, v: i64, maxv: i64) -> Option<i64> {
    if pads(op, v, 0, maxv) {
        Some(0)
    } else if pads(op, v, 1, maxv) {
        Some(1)
    } else if pads(op, v, v, maxv) {
        Some(v)
    } else if pads(op, v, maxv, maxv) {
        Some(maxv)
    } else {
        None
    }
}

/// The first operator, from `i` on, that leaves a number as it is, with its second operand.
pub open spec fn padding_from(ops: Seq<char>, v: i64, maxv: i64, i: int) -> Option<(char, i64)>
    decreases ops.len() - i,
{
    if i < 0 || i >= ops.len() {
        None
    } else {
        match neutral(ops[i], v, maxv) {
            Some(y) => Some((ops[i], y)),
            None => padding_from(ops, v, maxv, i + 1),
        }
    }
}

/// A number behind `depth` operators that leave it as it is.
pub open spec fn padded(depth: nat, op: char, y: i64, v: i64) -> Node
    decreases depth,
{
    if depth == 0 {
        Node::Leaf(v)
    } else {
        op_node(op, padded((depth - 1) as nat, op, y, v), Node::Leaf(y))
    }
}

/// A number nested to a depth, where an operator leaves it as it is; else the number alone.
pub open spec fn nested(depth: nat, ops: Seq<char>, v: i64, maxv: i64) -> Node {
    match padding_from(ops, v, maxv, 0) {
        Some((op, y)) => padded(depth, op, y, v),
        None => Node::Leaf(v),
    }
}

/// The tree of the first of `tries` attempts that has a value within bounds, or else a number, nested to the depth.
pub open spec fn family_try(depth: nat, ops: Seq<char>, maxv: i64, seed: u64, tries: nat) -> (Node, u64)
    decreases depth, tries,
{
    if tries == 0 || depth == 0 || ops.len() == 0 {
        (nested(depth, ops, leaf_value(shuffled(seed), maxv), maxv), shuffled(seed))
    } else {
        let s1 = shuffled(seed);
        let s2 = shuffled(s1);
        let s3 = shuffled(s2);
        let op = ops[s1 as int % ops.len() as int];
        let (dl, dr) = operand_depths(depth, s2, s3);
        if dl < depth && dr < depth {
            let (left, s4) = family_tree(dl, ops, maxv, s3);
            let (right, s5) = family_tree(dr, ops, maxv, s4);
            if fits(op, left, right, maxv) {
                (op_node(op, left, right), s5)
            } else {
                family_try(depth, ops, maxv, s5, (tries - 1) as nat)
            }
        } else {
            (Node::Leaf(0), seed)
        }
    }
}

/// Appends an operator expression whose operands are given as text.
fn op_expr(op: char, left: &str, right: &str) -> (s: String)
    ensures
        s@ == seq!['(', op, ' '] + left@ + seq![' '] + right@ + seq![')'],
{
    let mut s = String::new();
    s.push('(');
    s.push(op);
    s.push(' ');
    s.append(left);
    s.push(' ');
    s.append(right);
    s.push(')');
    assert(s@ =~= seq!['(', op, ' '] + left@ + seq![' '] + right@ + seq![')']);
    s
}

fn numeral(v: i64) -> (s: String)
    ensures
        s@ == int_text(v as int),
{
    let mut s = String::new();
    push_i64(&mut s, v);
    assert(s@ =~= int_text(v as int));
    s
}

/// Draws the depths of two operands.
fn draw_depths(depth: usize, r: &mut u64) -> (d: (usize, usize))
    requires
        depth > 0,
    ensures
        *final(r) == shuffled(shuffled(*old(r))),
        operand_depths(depth as nat, shuffled(*old(r)), *final(r)) == (d.0 as nat, d.1 as nat),
        d.0 < depth,
        d.1 < depth,
{
    let other: usize = (xorshift(r) % depth as u64) as usize;
    if xorshift(r) & 1 == 1 {
        (other, depth - 1)
    } else {
        (depth - 1, other)
    }
}

fn padding_operand(op: char, v: i64, maxv: i64) -> (r: Option<i64>)
    requires
        0 <= v <= maxv,
    ensures
        r == neutral(op, v, maxv),
{
    if stays(op, v, 0, maxv) {
        Some(0)
    } else if maxv >= 1 && stays(op, v, 1, maxv) {
        Some(1)
    } else if stays(op, v, v, maxv) {
        Some(v)
    } else if stays(op, v, maxv, maxv) {
        Some(maxv)
    } else {
        None
    }
}

fn stays(op: char, v: i64, y: i64, maxv: i64) -> (r: bool)
    requires
        0 <= v <= maxv,
        0 <= y <= maxv,
    ensures
        r == pads(op, v, y, maxv),
{
    match bounded_result(op, v, y, maxv) {
        Some(u) => u == v,
        None => false,
    }
}

fn nest(depth: usize, ops: &[char], v: i64, maxv: i64) -> (s: String)
    requires
        0 <= v <= maxv,
    ensures
        s@ == expr_text(nested(depth as nat, ops@, v, maxv)),
{
    let mut s = numeral(v);
    let mut i: usize = 0;
    while i < ops.len()
        invariant
            i <= ops@.len(),
            0 <= v <= maxv,
            s@ == int_text(v as int),
            padding_from(ops@, v, maxv, 0) == padding_from(ops@, v, maxv, i as int),
        decreases ops@.len() - i,
    {
        let op = ops[i];
        if let Some(y) = padding_operand(op, v, maxv) {
            let second = numeral(y);
            for k in 0..depth
                invariant
                    s@ == expr_text(padded(k as nat, op, y, v)),
                    second@ == int_text(y as int),
            {
                s = op_expr(op, s.as_str(), second.as_str());
                assert(expr_text(Node::Leaf(y)) == int_text(y as int));
            }
            return s;
        }
        i += 1;
    }
    s
}

/// A random expression over the operators `ops`, nested `depth` deep where an operator can pad it to that depth and at
/// most so deep elsewhere, with every partial result from 0 to `maxv`: its text and its value.
pub fn gen_family(depth: usize, ops: &[char], maxv: i64, r: &mut u64) -> (e: (String, i64))
    requires
        0 <= maxv,
    ensures
        ({
            let (tree, after) = family_tree(depth as nat, ops@, maxv, *old(r));
            e.0@ == expr_text(tree) && e.1 == gen_value(tree) && *final(r) == after
        }),
        0 <= e.1 <= maxv,
    decreases depth,
{
    if depth == 0 || ops.len() == 0 {
        let v = draw_leaf(maxv, r);
        return (numeral(v), v);
    }
    let ghost seed = *r;
    let mut tries: usize = 400;
    while tries > 0
        invariant
            0 <= maxv,
            depth > 0,
            ops@.len() > 0,
            tries <= 400,
            family_tree(depth as nat, ops@, maxv, seed) == family_try(depth as nat, ops@, maxv, *r, tries as nat),
            *old(r) == seed,
        decreases tries,
    {
        let k: usize = (xorshift(r) % ops.len() as u64) as usize;
        let op = ops[k];
        let (dl, dr) = draw_depths(depth, r);
        let (ls, lv) = gen_family(dl, ops, maxv, r);
        let (rs, rv) = gen_family(dr, ops, maxv, r);
        if let Some(v) = bounded_result(op, lv, rv, maxv) {
            return (op_expr(op, ls.as_str(), rs.as_str()), v);
        }
        tries -= 1;
    }
    let v = draw_leaf(maxv, r);
    proof {
        nesting_keeps_the_value(depth as nat, ops@, v, maxv);
    }
    (nest(depth, ops, v, maxv), v)
}

/// A random arithmetic expression, of sums, differences and products, nested exactly `depth` deep, with every
/// partial result from 0 to `maxv`: its text and its value.
pub fn gen_arith(depth: usize, maxv: i64, r: &mut u64) -> (e: (String, i64))
    requires
        0 <= maxv,
    ensures
        ({
            let (tree, after) = family_tree(depth as nat, seq!['+', '-', '*'], maxv, *old(r));
            &&& e.0@ == expr_text(tree) && e.1 == gen_value(tree) && *final(r) == after
            &&& height(tree) == depth
            &&& within(tree, maxv)
        }),
        0 <= e.1 <= maxv,
{
    let ops: [char; 3] = ['+', '-', '*'];
    assert(ops@ =~= seq!['+', '-', '*']);
    proof {
        usual_operators_pad('+', maxv);
        assert(ops@[0] == '+');
        family_has_its_depth(depth as nat, ops@, maxv, *r);
        generated_within_bounds(depth as nat, ops@, maxv, *r);
    }
    gen_family(depth, &ops, maxv, r)
}

/// The operator nodes of a tree, in pre-order.
pub open spec fn ops_of<'a>(n: &'a Node) -> Seq<&'a Node>
    decreases *n,
{
    match *n {
        Node::Leaf(_) => Seq::empty(),
        Node::Op(_, a, b, _, _) => seq![n] + ops_of(&*a) + ops_of(&*b),
    }
}

/// Collects every operator node, in pre-order.
pub fn collect_ops<'a>(n: &'a Node, out: &mut Vec<&'a Node>)
    ensures
        final(out)@ == old(out)@ + ops_of(n),
    decreases *n,
{
    match n {
        Node::Leaf(_) => {
            assert(out@ =~= old(out)@ + ops_of(n));
        },
        Node::Op(_, a, b, _, _) => {
            out.push(n);
            collect_ops(a, out);
            collect_ops(b, out);
            assert(out@ =~= old(out)@ + ops_of(n));
        },
    }
}

/// The leaf values of a tree, from left to right.
pub open spec fn leaves_of(n: Node) -> Seq<i64>
    decreases n,
{
    match n {
        Node::Leaf(v) => seq![v],
        Node::Op(_, a, b, _, _) => leaves_of(*a) + leaves_of(*b),
    }
}

/// Collects the leaf values, the operands of the expression.
pub fn collect_leaves(n: &Node, out: &mut Vec<i64>)
    ensures
        final(out)@ == old(out)@ + leaves_of(*n),
    decreases *n,
{
    match n {
        Node::Leaf(v) => {
            out.push(*v);
            assert(out@ =~= old(out)@ + leaves_of(*n));
        },
        Node::Op(_, a, b, _, _) => {
            collect_leaves(a, out);
            collect_leaves(b, out);
            assert(out@ =~= old(out)@ + leaves_of(*n));
        },
    }
}

/// The ten operators of the experiments: the arithmetic ones, minimum and maximum, the bitwise ones, and the
/// remainder, which has the sign of the dividend.
pub open spec fn applied_any(op: char, x: i64, y: i64) -> Outcome {
    if op == '<' {
        Outcome::Value(if x <= y { x } else { y })
    } else if op == '>' {
        Outcome::Value(if x >= y { x } else { y })
    } else if op == '&' {
        Outcome::Value(x & y)
    } else if op == '|' {
        Outcome::Value(x | y)
    } else if op == '^' {
        Outcome::Value(x ^ y)
    } else if op == '%' {
        if y == 0 {
            Outcome::Undefined
        } else if x == i64::MIN && y == -1 {
            Outcome::OutOfRange
        } else {
            ranged(x - y * quotient(x as int, y as int))
        }
    } else {
        applied(op, x, y)
    }
}

/// The true value of a tree; both operands are evaluated, the left one first.
pub open spec fn true_value(n: Node) -> Outcome
    decreases n,
{
    match n {
        Node::Leaf(v) => Outcome::Value(v),
        Node::Op(op, a, b, _, _) => match true_value(*a) {
            Outcome::Value(x) => match true_value(*b) {
                Outcome::Value(y) => applied_any(op, x, y),
                o => o,
            },
            o => o,
        },
    }
}

proof fn remainder_by_quotient(x: int, d: int)
    requires
        x >= 0,
        d > 0,
    ensures
        x - d * (x / d) == x % d,
        x - (-d) * (-(x / d)) == x % d,
        -x - d * (-(x / d)) == -(x % d),
        -x - (-d) * (x / d) == -(x % d),
        0 <= x % d < d,
{
    vstd::arithmetic::div_mod::lemma_fundamental_div_mod(x, d);
    assert((-d) * (-(x / d)) == d * (x / d)) by (nonlinear_arith);
    assert(d * (-(x / d)) == -(d * (x / d))) by (nonlinear_arith);
    assert((-d) * (x / d) == -(d * (x / d))) by (nonlinear_arith);
}

fn apply_any(op: char, x: i64, y: i64) -> (r: Outcome)
    ensures
        r == applied_any(op, x, y),
{
    if op == '<' {
        Outcome::Value(if x <= y { x } else { y })
    } else if op == '>' {
        Outcome::Value(if x >= y { x } else { y })
    } else if op == '&' {
        Outcome::Value(x & y)
    } else if op == '|' {
        Outcome::Value(x | y)
    } else if op == '^' {
        Outcome::Value(x ^ y)
    } else if op == '%' {
        if y == 0 {
            return Outcome::Undefined;
        }
        proof {
            remainder_by_quotient(if x >= 0 { x as int } else { -x }, if y > 0 { y as int } else { -y });
        }
        match x.checked_rem(y) {
            Some(v) => Outcome::Value(v),
            None => Outcome::OutOfRange,
        }
    } else {
        apply(op, x, y)
    }
}

/// The true value of every tree: a number, nothing, or a partial result out of the 64-bit range.
pub fn try_true_eval(n: &Node) -> (r: Outcome)
    ensures
        r == true_value(*n),
    decreases *n,
{
    match n {
        Node::Leaf(v) => Outcome::Value(*v),
        Node::Op(op, a, b, _, _) => match try_true_eval(a) {
            Outcome::Value(x) => match try_true_eval(b) {
                Outcome::Value(y) => apply_any(*op, x, y),
                o => o,
            },
            o => o,
        },
    }
}

/// The true value of a tree whose partial results stay in the 64-bit range, if it has one.
pub fn true_eval(n: &Node) -> (r: Option<i64>)
    requires
        !(true_value(*n) is OutOfRange),
    ensures
        match r {
            Some(v) => true_value(*n) == Outcome::Value(v),
            None => true_value(*n) is Undefined,
        },
{
    match try_true_eval(n) {
        Outcome::Value(v) => Some(v),
        _ => None,
    }
}

/// The operators that the two-level expressions know.
pub open spec fn plain_op(op: char) -> bool {
    op == '+' || op == '*' || op == '-' || op == '<' || op == '>' || op == '&' || op == '|' || op == '^'
}

/// The two-level tree of the first of `tries` attempts that works, and the state of the stream behind it. An attempt
/// draws the root operator, the two inner operators and the four operands; the inner results must lie from 0 to
/// `maxv`, and the root must have a result.
pub open spec fn two_level_tree(ops: Seq<char>, maxv: i64, seed: u64, tries: nat) -> (Option<Node>, u64)
    decreases tries,
{
    if tries == 0 {
        (None, seed)
    } else {
        let s1 = shuffled(seed);
        let s2 = shuffled(s1);
        let s3 = shuffled(s2);
        let s4 = shuffled(s3);
        let s5 = shuffled(s4);
        let s6 = shuffled(s5);
        let s7 = shuffled(s6);
        let rop = ops[s1 as int % ops.len() as int];
        let lop = ops[s2 as int % ops.len() as int];
        let rop2 = ops[s3 as int % ops.len() as int];
        let a = Node::Leaf(leaf_value(s4, maxv));
        let b = Node::Leaf(leaf_value(s5, maxv));
        let c = Node::Leaf(leaf_value(s6, maxv));
        let d = Node::Leaf(leaf_value(s7, maxv));
        let left = op_node(lop, a, b);
        let right = op_node(rop2, c, d);
        if plain_op(lop) && fits(lop, a, b, maxv) && plain_op(rop2) && fits(rop2, c, d, maxv) && plain_op(rop)
            && meaning(rop, gen_value(left), gen_value(right)) is Some {
            (Some(op_node(rop, left, right)), s7)
        } else {
            two_level_tree(ops, maxv, s7, (tries - 1) as nat)
        }
    }
}

fn plain(op: char) -> (r: bool)
    ensures
        r == plain_op(op),
{
    op == '+' || op == '*' || op == '-' || op == '<' || op == '>' || op == '&' || op == '|' || op == '^'
}

fn draw_op(ops: &[char], r: &mut u64) -> (op: char)
    requires
        ops@.len() > 0,
    ensures
        *final(r) == shuffled(*old(r)),
        op == ops@[*final(r) as int % ops@.len() as int],
{
    let k: usize = (xorshift(r) % ops.len() as u64) as usize;
    ops[k]
}

/// A random expression `(op (op a b) (op c d))`, whose two operands are operator expressions themselves.
pub fn gen_depth2(ops: &[char], maxv: i64, r: &mut u64) -> (e: Option<String>)
    requires
        0 <= maxv,
        ops@.len() > 0,
    ensures
        ({
            let (tree, after) = two_level_tree(ops@, maxv, *old(r), 500);
            *final(r) == after && match e {
                Some(t) => tree matches Some(n) && t@ == expr_text(n),
                None => tree is None,
            }
        }),
{
    let mut tries: usize = 500;
    let ghost seed = *r;
    while tries > 0
        invariant
            0 <= maxv,
            ops@.len() > 0,
            tries <= 500,
            *old(r) == seed,
            two_level_tree(ops@, maxv, seed, 500) == two_level_tree(ops@, maxv, *r, tries as nat),
        decreases tries,
    {
        let rop = draw_op(ops, r);
        let lop = draw_op(ops, r);
        let rop2 = draw_op(ops, r);
        let a = draw_leaf(maxv, r);
        let b = draw_leaf(maxv, r);
        let c = draw_leaf(maxv, r);
        let d = draw_leaf(maxv, r);
        tries -= 1;
        if !plain(lop) || !plain(rop2) || !plain(rop) {
            continue;
        }
        let lv: i64 = match bounded_result(lop, a, b, maxv) {
            Some(v) => v,
            None => {
                continue;
            },
        };
        let rv: i64 = match bounded_result(rop2, c, d, maxv) {
            Some(v) => v,
            None => {
                continue;
            },
        };
        if rop == '-' && lv < rv {
            continue;
        }
        let left = op_expr(lop, numeral(a).as_str(), numeral(b).as_str());
        let right = op_expr(rop2, numeral(c).as_str(), numeral(d).as_str());
        proof {
            reveal_with_fuel(expr_text, 3);
            reveal_with_fuel(gen_value, 3);
        }
        return Some(op_expr(rop, left.as_str(), right.as_str()));
    }
    None
}

/// The tree over the one symbol `sym`, meant as the operator `op`, that a seed gives; none when 400 attempts at one
/// node all leave the bounds.
pub open spec fn single_tree(depth: nat, sym: char, op: char, maxv: i64, seed: u64) -> (Option<(Node, i64)>, u64)
    decreases depth, 401nat,
{
    if depth == 0 {
        let v = leaf_value(shuffled(seed), maxv);
        (Some((Node::Leaf(v), v)), shuffled(seed))
    } else {
        single_try(depth, sym, op, maxv, seed, 400)
    }
}

pub open spec fn single_try(depth: nat, sym: char, op: char, maxv: i64, seed: u64, tries: nat) -> (
    Option<(Node, i64)>,
    u64,
)
    decreases depth, tries,
{
    if tries == 0 || depth == 0 {
        (None, seed)
    } else {
        let s1 = shuffled(seed);
        let s2 = shuffled(s1);
        let (dl, dr) = operand_depths(depth, s1, s2);
        if dl < depth && dr < depth {
            match single_tree(dl, sym, op, maxv, s2) {
                (None, s3) => (None, s3),
                (Some((left, lv)), s3) => match single_tree(dr, sym, op, maxv, s3) {
                    (None, s4) => (None, s4),
                    (Some((right, rv)), s4) => match meaning(op, lv, rv) {
                        Some(v) => if 0 <= v <= maxv {
                            (Some((op_node(sym, left, right), v as i64)), s4)
                        } else {
                            single_try(depth, sym, op, maxv, s4, (tries - 1) as nat)
                        },
                        None => single_try(depth, sym, op, maxv, s4, (tries - 1) as nat),
                    },
                },
            }
        } else {
            (None, seed)
        }
    }
}

/// A random expression over the single symbol `op`, which means what the operator `opf` means, with every partial
/// result from 0 to `maxv`: its text and its value.
pub fn gen_op(depth: usize, op: char, opf: char, maxv: i64, r: &mut u64) -> (e: Option<(String, i64)>)
    requires
        0 <= maxv,
    ensures
        ({
            let (tree, after) = single_tree(depth as nat, op, opf, maxv, *old(r));
            *final(r) == after && match e {
                Some((t, v)) => tree matches Some((n, w)) && t@ == expr_text(n) && v == w && 0 <= v <= maxv,
                None => tree is None,
            }
        }),
    decreases depth,
{
    if depth == 0 {
        let v = draw_leaf(maxv, r);
        return Some((numeral(v), v));
    }
    let ghost seed = *r;
    let mut tries: usize = 400;
    while tries > 0
        invariant
            0 <= maxv,
            depth > 0,
            tries <= 400,
            *old(r) == seed,
            single_tree(depth as nat, op, opf, maxv, seed) == single_try(
                depth as nat,
                op,
                opf,
                maxv,
                *r,
                tries as nat,
            ),
        decreases tries,
    {
        let (dl, dr) = draw_depths(depth, r);
        let left = gen_op(dl, op, opf, maxv, r);
        match left {
            None => {
                return None;
            },
            Some((ls, lv)) => {
                let right = gen_op(dr, op, opf, maxv, r);
                match right {
                    None => {
                        return None;
                    },
                    Some((rs, rv)) => {
                        if let Some(v) = bounded_result(opf, lv, rv, maxv) {
                            return Some((op_expr(op, ls.as_str(), rs.as_str()), v));
                        }
                    },
                }
            },
        }
        tries -= 1;
    }
    None
}

/// The characters that are atoms of their own.
pub open spec fn is_mark(c: char) -> bool {
    c == '(' || c == ')' || c == '+' || c == '-' || c == '*' || c == '/' || c == '&' || c == '|' || c == '^' || c == '<'
        || c == '>' || c == '%'
}

/// The further symbols that stand for operators taught in context.
pub open spec fn is_taught_mark(c: char) -> bool {
    c == '@' || c == '#' || c == '~'
}

/// The atoms of a text from its start, with `num` pending: runs of digits, and the marks; the rest separates.
#[verifier::opaque]
pub open spec fn lexed(s: Seq<char>, num: Seq<char>, taught: bool) -> Seq<Seq<char>>
    decreases s.len(),
{
    let flushed = if num.len() > 0 { seq![num] } else { Seq::empty() };
    if s.len() == 0 {
        flushed
    } else if is_digit(s[0]) {
        lexed(s.skip(1), num.push(s[0]), taught)
    } else if is_mark(s[0]) || (taught && is_taught_mark(s[0])) {
        flushed + seq![seq![s[0]]] + lexed(s.skip(1), Seq::empty(), taught)
    } else {
        flushed + lexed(s.skip(1), Seq::empty(), taught)
    }
}

/// The atoms of one piece, all at its position.
pub open spec fn piece_atoms(piece: Seq<char>, pos: usize, taught: bool) -> Seq<(Seq<char>, usize)> {
    lexed(piece, Seq::empty(), taught).map_values(|a: Seq<char>| (a, pos))
}

/// The atoms of the pieces, each at the position of its piece.
pub open spec fn atoms_of(pieces: Seq<String>, taught: bool) -> Seq<(Seq<char>, usize)>
    decreases pieces.len(),
{
    if pieces.len() == 0 {
        Seq::empty()
    } else {
        atoms_of(pieces.drop_last(), taught) + piece_atoms(pieces.last()@, (pieces.len() - 1) as usize, taught)
    }
}

/// Atoms by what they spell.
pub open spec fn atom_view(atoms: Seq<(String, usize)>) -> Seq<(Seq<char>, usize)> {
    atoms.map_values(|a: (String, usize)| (a.0@, a.1))
}

/// Appends an atom.
fn push_atom(out: &mut Vec<(String, usize)>, atom: &[char], pos: usize)
    ensures
        atom_view(final(out)@) == atom_view(old(out)@).push((atom@, pos)),
{
    out.push((string_of(atom), pos));
    assert(atom_view(out@) =~= atom_view(old(out)@).push((atom@, pos)));
}

/// Appends the atoms of one piece.
fn atomize_piece(piece: &str, pos: usize, taught: bool, out: &mut Vec<(String, usize)>)
    ensures
        atom_view(final(out)@) == atom_view(old(out)@) + piece_atoms(piece@, pos, taught),
{
    let b = chars_of(piece);
    let ghost tag = |a: Seq<char>| (a, pos);
    let ghost all = lexed(b@, Seq::empty(), taught).map_values(tag);
    let mut num: Vec<char> = Vec::new();
    let mut i: usize = 0;
    assert(b@.skip(0) =~= b@);
    assert(atom_view(out@) + all =~= atom_view(old(out)@) + all);
    while i < b.len()
        invariant
            i <= b@.len(),
            tag == (|a: Seq<char>| (a, pos)),
            atom_view(out@) + lexed(b@.skip(i as int), num@, taught).map_values(tag) == atom_view(old(out)@) + all,
        decreases b.len() - i,
    {
        reveal(lexed);
        let c = b[i];
        let ghost s = b@.skip(i as int);
        let ghost before = atom_view(out@);
        let ghost rest = lexed(s.skip(1), Seq::empty(), taught).map_values(tag);
        assert(s.skip(1) =~= b@.skip(i + 1));
        if '0' <= c && c <= '9' {
            num.push(c);
        } else {
            let ghost pending = num@;
            if num.len() > 0 {
                push_atom(out, num.as_slice(), pos);
                num.clear();
            }
            if c == '(' || c == ')' || c == '+' || c == '-' || c == '*' || c == '/' || c == '&' || c == '|' || c == '^'
                || c == '<' || c == '>' || c == '%' || (taught && (c == '@' || c == '#' || c == '~')) {
                let mark: Vec<char> = vec![c];
                assert(mark@ =~= seq![c]);
                push_atom(out, mark.as_slice(), pos);
            }
            assert(num@ =~= Seq::empty());
            assert(atom_view(out@) + rest =~= before + lexed(s, pending, taught).map_values(tag));
        }
        i += 1;
    }
    reveal(lexed);
    assert(b@.skip(i as int) =~= Seq::empty());
    let ghost before = atom_view(out@);
    let ghost last = lexed(Seq::empty(), num@, taught).map_values(tag);
    if num.len() > 0 {
        push_atom(out, num.as_slice(), pos);
    }
    assert(atom_view(out@) =~= before + last);
}

/// Splits decoded tokens into atoms, each with the index of the token that it stands in.
pub fn atomize(pieces: &[String], taught: bool) -> (r: Vec<(String, usize)>)
    ensures
        atom_view(r@) == atoms_of(pieces@, taught),
{
    let mut out: Vec<(String, usize)> = Vec::new();
    assert(atom_view(out@) =~= atoms_of(pieces@.take(0), taught));
    for i in 0..pieces.len()
        invariant
            atom_view(out@) == atoms_of(pieces@.take(i as int), taught),
    {
        assert(pieces@.take(i + 1).drop_last() =~= pieces@.take(i as int));
        atomize_piece(pieces[i].as_str(), i, taught, &mut out);
    }
    assert(pieces@.take(pieces.len() as int) =~= pieces@);
    out
}

/// Splits decoded tokens into numerals, brackets and operators, each with the index of its token.
pub fn atomize_ids(pieces: &[String]) -> (r: Vec<(String, usize)>)
    ensures
        atom_view(r@) == atoms_of(pieces@, false),
{
    atomize(pieces, false)
}

/// A digit made of a draw.
pub open spec fn digit_of(draw: u64) -> i64 {
    (draw as int % 10) as i64
}

fn draw_digit(r: &mut u64) -> (v: i64)
    ensures
        *final(r) == shuffled(*old(r)),
        v == digit_of(*final(r)),
        0 <= v <= 9,
{
    (xorshift(r) % 10) as i64
}

/// The root operator that a draw picks: sum or difference.
pub open spec fn root_op(draw: u64) -> char {
    if draw & 1 == 0 { '+' } else { '-' }
}

pub open spec fn root_result(rop: char, lv: int, rv: int) -> int {
    if rop == '+' { lv + rv } else { lv - rv }
}

pub open spec fn is_single_digit(v: int) -> bool {
    0 <= v <= 9
}

/// A sum of two digits with the value `lv`, split by a draw.
pub open spec fn split_sum(lv: i64, draw: u64) -> Node {
    let a = leaf_value(draw, lv);
    op_node('+', Node::Leaf(a), Node::Leaf((lv - a) as i64))
}

/// The pair that the first of `tries` attempts gives: two trees with the same root and right operand, whose left
/// operands are sums of different values, with single-digit answers; then the answers and the left values.
pub open spec fn patch_pair(seed: u64, tries: nat) -> (Option<(Node, Node, i64, i64, i64, i64)>, u64)
    decreases tries,
{
    if tries == 0 {
        (None, seed)
    } else {
        let s1 = shuffled(seed);
        let s2 = shuffled(s1);
        let s3 = shuffled(s2);
        let s4 = shuffled(s3);
        let rop = root_op(s1);
        let rop2 = if s2 as int % 2 == 0 { '+' } else { '*' };
        let c = digit_of(s3);
        let d = digit_of(s4);
        let rv = if rop2 == '+' { c + d } else { c * d };
        if !is_single_digit(rv) {
            patch_pair(s4, (tries - 1) as nat)
        } else {
            let s5 = shuffled(s4);
            let s6 = shuffled(s5);
            let la = digit_of(s5);
            let lb = digit_of(s6);
            let va = root_result(rop, la as int, rv);
            let vb = root_result(rop, lb as int, rv);
            if la == lb || !is_single_digit(va) || !is_single_digit(vb) {
                patch_pair(s6, (tries - 1) as nat)
            } else {
                let s7 = shuffled(s6);
                let s8 = shuffled(s7);
                let right = op_node(rop2, Node::Leaf(c), Node::Leaf(d));
                (
                    Some(
                        (
                            op_node(rop, split_sum(la, s7), right),
                            op_node(rop, split_sum(lb, s8), right),
                            va as i64,
                            vb as i64,
                            la,
                            lb,
                        ),
                    ),
                    s8,
                )
            }
        }
    }
}

fn draw_split(lv: i64, r: &mut u64) -> (s: String)
    requires
        0 <= lv <= 9,
    ensures
        *final(r) == shuffled(*old(r)),
        s@ == expr_text(split_sum(lv, *final(r))),
{
    let a = draw_leaf(lv, r);
    proof {
        reveal_with_fuel(expr_text, 2);
    }
    op_expr('+', numeral(a).as_str(), numeral(lv - a).as_str())
}

/// Draws a root operator.
fn draw_root(r: &mut u64) -> (op: char)
    ensures
        *final(r) == shuffled(*old(r)),
        op == root_op(*final(r)),
{
    if xorshift(r) & 1 == 0 { '+' } else { '-' }
}

/// The single-digit result of a root operator, if it has one.
fn root_digit(rop: char, lv: i64, rv: i64) -> (a: Option<i64>)
    requires
        0 <= lv <= 9,
        0 <= rv <= 9,
    ensures
        match a {
            Some(v) => v == root_result(rop, lv as int, rv as int) && is_single_digit(v as int),
            None => !is_single_digit(root_result(rop, lv as int, rv as int)),
        },
{
    let v: i64 = if rop == '+' { lv + rv } else { lv - rv };
    if 0 <= v && v <= 9 { Some(v) } else { None }
}

/// A matched pair of two-level expressions that differ only in their left operand, for the interchange test: both
/// texts, both answers, both left values.
pub fn gen_patch_pair(r: &mut u64) -> (e: Option<(String, String, i64, i64, i64, i64)>)
    ensures
        ({
            let (pair, after) = patch_pair(*old(r), 3000);
            *final(r) == after && match e {
                Some((ta, tb, va, vb, la, lb)) => pair matches Some((na, nb, wa, wb, ma, mb)) && ta@ == expr_text(na)
                    && tb@ == expr_text(nb) && va == wa && vb == wb && la == ma && lb == mb,
                None => pair is None,
            }
        }),
{
    let ghost seed = *r;
    let mut tries: usize = 3000;
    while tries > 0
        invariant
            tries <= 3000,
            *old(r) == seed,
            patch_pair(seed, 3000) == patch_pair(*r, tries as nat),
        decreases tries,
    {
        let rop = draw_root(r);
        let rop2 = if xorshift(r) % 2 == 0 { '+' } else { '*' };
        let c = draw_digit(r);
        let d = draw_digit(r);
        tries -= 1;
        assert(c * d <= 81) by (nonlinear_arith)
            requires
                0 <= c <= 9,
                0 <= d <= 9,
        ;
        assert(c * d >= 0) by (nonlinear_arith)
            requires
                0 <= c <= 9,
                0 <= d <= 9,
        ;
        let rv: i64 = if rop2 == '+' { c + d } else { c * d };
        if rv > 9 {
            continue;
        }
        let la = draw_digit(r);
        let lb = draw_digit(r);
        if la == lb {
            continue;
        }
        let va: i64 = match root_digit(rop, la, rv) {
            Some(v) => v,
            None => {
                continue;
            },
        };
        let vb: i64 = match root_digit(rop, lb, rv) {
            Some(v) => v,
            None => {
                continue;
            },
        };
        let lsa = draw_split(la, r);
        let lsb = draw_split(lb, r);
        let right = op_expr(rop2, numeral(c).as_str(), numeral(d).as_str());
        proof {
            reveal_with_fuel(expr_text, 3);
        }
        return Some(
            (
                op_expr(rop, lsa.as_str(), right.as_str()),
                op_expr(rop, lsb.as_str(), right.as_str()),
                va,
                vb,
                la,
                lb,
            ),
        );
    }
    None
}

/// A number split into `k` parts by draws: each but the last takes a share of what remains.
pub open spec fn shares(rem: i64, k: nat, seed: u64) -> (Seq<i64>, u64)
    decreases k,
{
    if k == 0 {
        (Seq::empty(), seed)
    } else if k == 1 {
        (seq![rem], seed)
    } else {
        let s = shuffled(seed);
        let v = leaf_value(s, rem);
        let (rest, after) = shares((rem - v) as i64, (k - 1) as nat, s);
        (seq![v] + rest, after)
    }
}

/// A left-nested chain of sums.
pub open spec fn sum_chain(leaves: Seq<i64>) -> Node
    decreases leaves.len(),
{
    if leaves.len() <= 1 {
        Node::Leaf(leaves[0])
    } else {
        op_node('+', sum_chain(leaves.drop_last()), Node::Leaf(leaves.last()))
    }
}

/// The pair that the first of `tries` attempts gives when the right operand is a chain of `hold` sums: the two trees
/// and their single-digit answers.
pub open spec fn hold_pair(hold: nat, seed: u64, tries: nat) -> (Option<(Node, Node, i64, i64)>, u64)
    decreases tries,
{
    if tries == 0 {
        (None, seed)
    } else {
        let s1 = shuffled(seed);
        let s2 = shuffled(s1);
        let rop = root_op(s1);
        let rv = digit_of(s2);
        let (leaves, s3) = shares(rv, hold + 1, s2);
        let s4 = shuffled(s3);
        let s5 = shuffled(s4);
        let la = digit_of(s4);
        let lb = digit_of(s5);
        let va = root_result(rop, la as int, rv as int);
        let vb = root_result(rop, lb as int, rv as int);
        if la == lb || !is_single_digit(va) || !is_single_digit(vb) {
            hold_pair(hold, s5, (tries - 1) as nat)
        } else {
            let s6 = shuffled(s5);
            let s7 = shuffled(s6);
            let right = sum_chain(leaves);
            (
                Some(
                    (
                        op_node(rop, split_sum(la, s6), right),
                        op_node(rop, split_sum(lb, s7), right),
                        va as i64,
                        vb as i64,
                    ),
                ),
                s7,
            )
        }
    }
}

/// Draws the shares of a number and writes the chain of their sums.
fn draw_chain(rv: i64, k: usize, r: &mut u64) -> (s: String)
    requires
        0 <= rv <= 9,
        k >= 1,
    ensures
        ({
            let (leaves, after) = shares(rv, k as nat, *old(r));
            s@ == expr_text(sum_chain(leaves)) && *final(r) == after
        }),
{
    let ghost seed = *r;
    let mut rem: i64 = rv;
    let mut text = String::new();
    let mut i: usize = 0;
    let ghost done = Seq::<i64>::empty();
    assert(shares(rv, k as nat, seed).0 =~= done + shares(rem, (k - i) as nat, *r).0);
    while i < k
        invariant
            0 <= rem <= 9,
            k >= 1,
            i <= k,
            done.len() == i,
            i < k ==> shares(rv, k as nat, seed).0 == done + shares(rem, (k - i) as nat, *r).0 && shares(
                rv,
                k as nat,
                seed,
            ).1 == shares(rem, (k - i) as nat, *r).1,
            i == k ==> shares(rv, k as nat, seed) == (done, *r),
            i > 0 ==> text@ == expr_text(sum_chain(done)),
            *old(r) == seed,
        decreases k - i,
    {
        let ghost before = done;
        proof {
            reveal_with_fuel(expr_text, 2);
        }
        let v: i64 = if i == k - 1 { rem } else { draw_leaf(rem, r) };
        rem = rem - v;
        proof {
            done = done.push(v);
            assert(done.drop_last() =~= before);
            assert(before + seq![v] =~= done);
            if i < k - 1 {
                let rest = shares(rem, (k - i - 1) as nat, *r).0;
                assert(before + (seq![v] + rest) =~= done + rest);
            }
        }
        if i == 0 {
            text = numeral(v);
        } else {
            text = op_expr('+', text.as_str(), numeral(v).as_str());
        }
        i += 1;
    }
    text
}

/// A matched pair like the two-level one, with a right operand that is `hold` sums deep, so that the left value is
/// carried further before the root consumes it. A chain needs at least one sum.
pub fn gen_hold_pair(hold: usize, r: &mut u64) -> (e: Option<(String, String, i64, i64)>)
    requires
        hold < usize::MAX,
    ensures
        hold == 0 ==> e is None && *final(r) == *old(r),
        hold > 0 ==> ({
            let (pair, after) = hold_pair(hold as nat, *old(r), 4000);
            *final(r) == after && match e {
                Some((ta, tb, va, vb)) => pair matches Some((na, nb, wa, wb)) && ta@ == expr_text(na) && tb@
                    == expr_text(nb) && va == wa && vb == wb,
                None => pair is None,
            }
        }),
{
    if hold < 1 {
        return None;
    }
    let ghost seed = *r;
    let mut tries: usize = 4000;
    while tries > 0
        invariant
            0 < hold < usize::MAX,
            tries <= 4000,
            *old(r) == seed,
            hold_pair(hold as nat, seed, 4000) == hold_pair(hold as nat, *r, tries as nat),
        decreases tries,
    {
        let rop = draw_root(r);
        let rv = draw_digit(r);
        let chain = draw_chain(rv, hold + 1, r);
        let la = draw_digit(r);
        let lb = draw_digit(r);
        tries -= 1;
        if la == lb {
            continue;
        }
        let va: i64 = match root_digit(rop, la, rv) {
            Some(v) => v,
            None => {
                continue;
            },
        };
        let vb: i64 = match root_digit(rop, lb, rv) {
            Some(v) => v,
            None => {
                continue;
            },
        };
        let lsa = draw_split(la, r);
        let lsb = draw_split(lb, r);
        return Some((op_expr(rop, lsa.as_str(), chain.as_str()), op_expr(rop, lsb.as_str(), chain.as_str()), va, vb));
    }
    None
}

/// The letters that variables are named by.
pub open spec fn letters() -> Seq<char> {
    seq!['a', 'b', 'c', 'd', 'e', 'f', 'g', 'h']
}

pub open spec fn swapped(s: Seq<char>, i: int, j: int) -> Seq<char> {
    s.update(i, s[j]).update(j, s[i])
}

/// A shuffle: from position `i` down, each position is swapped with a drawn one not behind it.
pub open spec fn shuffle_from(s: Seq<char>, i: int, seed: u64) -> (Seq<char>, u64)
    decreases i,
{
    if i <= 0 {
        (s, seed)
    } else {
        let d = shuffled(seed);
        shuffle_from(swapped(s, i, d as int % (i + 1)), i - 1, d)
    }
}

/// Digits drawn until there are `n` different ones, in at most `tries` draws.
pub open spec fn distinct_digits(vals: Seq<i64>, n: nat, seed: u64, tries: nat) -> (Seq<i64>, u64)
    decreases tries,
{
    if vals.len() >= n || tries == 0 {
        (vals, seed)
    } else {
        let d = shuffled(seed);
        let v = digit_of(d);
        distinct_digits(
            if vals.contains(v) { vals } else { vals.push(v) },
            n,
            d,
            (tries - 1) as nat,
        )
    }
}

/// The first digit, in at most `tries` draws, that is none of the given ones.
pub open spec fn other_digit(vals: Seq<i64>, seed: u64, tries: nat) -> (Option<i64>, u64)
    decreases tries,
{
    if tries == 0 {
        (None, seed)
    } else {
        let d = shuffled(seed);
        let v = digit_of(d);
        if !vals.contains(v) {
            (Some(v), d)
        } else {
            other_digit(vals, d, (tries - 1) as nat)
        }
    }
}

/// Variables bound to values: `a=3 b=7`.
pub open spec fn bindings_text(vars: Seq<char>, vals: Seq<i64>) -> Seq<char>
    decreases vars.len(),
{
    if vars.len() == 0 {
        Seq::empty()
    } else {
        let here = seq![vars.last(), '='] + int_text(vals[vars.len() - 1] as int);
        if vars.len() == 1 {
            here
        } else {
            bindings_text(vars.drop_last(), vals) + seq![' '] + here
        }
    }
}

/// A query for the first variable behind its bindings: `a=3 b=7 a=`.
pub open spec fn query_text(vars: Seq<char>, vals: Seq<i64>) -> Seq<char> {
    bindings_text(vars, vals) + seq![' ', vars[0], '=']
}

/// How many variables are bound: at least two, and no more than there are letters.
pub open spec fn clamped(nvars: nat) -> nat {
    if nvars < 2 {
        2
    } else if nvars > 8 {
        8
    } else {
        nvars
    }
}

/// The pair that the first of `tries` attempts gives: the variables, their values, and the other value for the
/// queried one.
pub open spec fn bind_pair(nv: nat, seed: u64, tries: nat) -> (Option<(Seq<char>, Seq<i64>, i64)>, u64)
    decreases tries,
{
    if tries == 0 {
        (None, seed)
    } else {
        let (order, s1) = shuffle_from(letters(), 7, seed);
        let (vals, s2) = distinct_digits(Seq::empty(), nv, s1, 200);
        if vals.len() < nv {
            bind_pair(nv, s2, (tries - 1) as nat)
        } else {
            match other_digit(vals, s2, 10) {
                (Some(vb), s3) => (Some((order.take(nv as int), vals, vb)), s3),
                (None, s3) => bind_pair(nv, s3, (tries - 1) as nat),
            }
        }
    }
}

fn shuffle_letters(r: &mut u64) -> (v: Vec<char>)
    ensures
        v@.len() == 8,
        (v@, *final(r)) == shuffle_from(letters(), 7, *old(r)),
{
    let mut v: Vec<char> = vec!['a', 'b', 'c', 'd', 'e', 'f', 'g', 'h'];
    assert(v@ =~= letters());
    let ghost seed = *r;
    let mut i: usize = 7;
    while i > 0
        invariant
            i <= 7,
            v@.len() == 8,
            *old(r) == seed,
            shuffle_from(letters(), 7, seed) == shuffle_from(v@, i as int, *r),
        decreases i,
    {
        let j: usize = (xorshift(r) % (i as u64 + 1)) as usize;
        let a = v[i];
        let b = v[j];
        v.set(i, b);
        v.set(j, a);
        i -= 1;
    }
    v
}

fn has_value(vals: &[i64], v: i64) -> (r: bool)
    ensures
        r == vals@.contains(v),
{
    for i in 0..vals.len()
        invariant
            forall|k: int| 0 <= k < i ==> vals@[k] != v,
    {
        if vals[i] == v {
            return true;
        }
    }
    false
}

fn draw_distinct(n: usize, r: &mut u64) -> (vals: Vec<i64>)
    ensures
        (vals@, *final(r)) == distinct_digits(Seq::empty(), n as nat, *old(r), 200),
        vals@.len() <= n,
{
    let mut vals: Vec<i64> = Vec::new();
    let ghost seed = *r;
    let mut tries: usize = 200;
    while vals.len() < n && tries > 0
        invariant
            tries <= 200,
            vals@.len() <= n,
            *old(r) == seed,
            distinct_digits(Seq::empty(), n as nat, seed, 200) == distinct_digits(vals@, n as nat, *r, tries as nat),
        decreases tries,
    {
        let v = draw_digit(r);
        if !has_value(vals.as_slice(), v) {
            vals.push(v);
        }
        tries -= 1;
    }
    vals
}

fn draw_other(vals: &[i64], r: &mut u64) -> (v: Option<i64>)
    ensures
        (v, *final(r)) == other_digit(vals@, *old(r), 10),
{
    let ghost seed = *r;
    let mut tries: usize = 10;
    while tries > 0
        invariant
            tries <= 10,
            *old(r) == seed,
            other_digit(vals@, seed, 10) == other_digit(vals@, *r, tries as nat),
        decreases tries,
    {
        let v = draw_digit(r);
        if !has_value(vals, v) {
            return Some(v);
        }
        tries -= 1;
    }
    None
}

/// Writes a query, with the value `first` for the first variable.
fn write_query(vars: &[char], vals: &[i64], first: i64) -> (s: String)
    requires
        vars@.len() >= 1,
        vals@.len() == vars@.len(),
    ensures
        s@ == query_text(vars@, vals@.update(0, first)),
{
    let ghost all = vals@.update(0, first);
    let mut s = String::new();
    assert(s@ =~= bindings_text(vars@.take(0), all));
    for i in 0..vars.len()
        invariant
            vars@.len() >= 1,
            vals@.len() == vars@.len(),
            all == vals@.update(0, first),
            s@ == bindings_text(vars@.take(i as int), all),
    {
        assert(vars@.take(i + 1).drop_last() =~= vars@.take(i as int));
        assert(vars@.take(i + 1).last() == vars@[i as int]);
        if i > 0 {
            s.push(' ');
        }
        s.push(vars[i]);
        s.push('=');
        push_i64(&mut s, if i == 0 { first } else { vals[i] });
        assert(s@ =~= bindings_text(vars@.take(i + 1), all));
    }
    assert(vars@.take(vars.len() as int) =~= vars@);
    s.push(' ');
    s.push(vars[0]);
    s.push('=');
    assert(s@ =~= query_text(vars@, all));
    s
}

/// A matched pair of variable-binding queries that differ only in the value of the queried variable: both texts and
/// both values.
pub fn gen_bind_pair(nvars: usize, r: &mut u64) -> (e: Option<(String, String, i64, i64)>)
    ensures
        ({
            let (pair, after) = bind_pair(clamped(nvars as nat), *old(r), 2000);
            *final(r) == after && match e {
                Some((ta, tb, va, vb)) => pair matches Some((vars, vals, other)) && ta@ == query_text(vars, vals)
                    && tb@ == query_text(vars, vals.update(0, other)) && va == vals[0] && vb == other,
                None => pair is None,
            }
        }),
{
    let nv: usize = if nvars < 2 { 2 } else if nvars > 8 { 8 } else { nvars };
    let ghost seed = *r;
    let mut tries: usize = 2000;
    while tries > 0
        invariant
            2 <= nv <= 8,
            nv == clamped(nvars as nat),
            tries <= 2000,
            *old(r) == seed,
            bind_pair(nv as nat, seed, 2000) == bind_pair(nv as nat, *r, tries as nat),
        decreases tries,
    {
        let order = shuffle_letters(r);
        let vars = vstd::slice::slice_subrange(order.as_slice(), 0, nv);
        assert(vars@ =~= order@.take(nv as int));
        let vals = draw_distinct(nv, r);
        tries -= 1;
        if vals.len() < nv {
            continue;
        }
        match draw_other(vals.as_slice(), r) {
            None => {},
            Some(vb) => {
                let va = vals[0];
                assert(vals@.update(0, va) =~= vals@);
                let ta = write_query(vars, vals.as_slice(), va);
                let tb = write_query(vars, vals.as_slice(), vb);
                return Some((ta, tb, va, vb));
            },
        }
    }
    None
}

} // verus!
