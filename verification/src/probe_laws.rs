//! What holds of every generated expression, whatever the seed.
use vstd::prelude::*;
use crate::recursion_dl::{height, quotient, target_from, Node, Outcome};
use crate::recursion_laws::{atom_count, last_written_is_the_target, written};
use crate::recursion_probe::{
    applied_any, atom_view, atoms_of, bind_pair, digit_of, distinct_digits, expr_text, family_tree,
    family_try, fits, gen_value, hold_pair, is_mark, is_single_digit, is_taught_mark, leaf_value, letters, nested, neutral, padded, padding_from, pads,
    lexed, meaning, op_node, other_digit, patch_pair, piece_atoms, shares, shuffle_from, shuffled,
    single_tree, single_try, split_sum, sum_chain, swapped, true_value, two_level_tree,
};
use crate::text::{all_digits, dec, digits_value, i64_value, int_text, is_digit, unsigned_part};

verus! {

/// The stream never gets stuck at zero: from a state other than zero, no state of it is zero.
pub proof fn stream_stays_alive(x: u64)
    requires
        x != 0,
    ensures
        shuffled(x) != 0,
{
    let a = x ^ (x << 13);
    let b = a ^ (a >> 7);
    assert(x != 0 ==> x ^ (x << 13) != 0) by (bit_vector);
    assert(a != 0 ==> a ^ (a >> 7) != 0) by (bit_vector);
    assert(b != 0 ==> b ^ (b << 17) != 0) by (bit_vector);
}

/// No two states have the same successor, so a seed is found again from any state of its stream.
pub proof fn stream_is_injective(x: u64, y: u64)
    requires
        shuffled(x) == shuffled(y),
    ensures
        x == y,
{
    let a = x ^ (x << 13);
    let b = a ^ (a >> 7);
    let c = y ^ (y << 13);
    let d = c ^ (c >> 7);
    assert(b ^ (b << 17) == d ^ (d << 17) ==> b == d) by (bit_vector);
    assert(a ^ (a >> 7) == c ^ (c >> 7) ==> a == c) by (bit_vector);
    assert(x ^ (x << 13) == y ^ (y << 13) ==> x == y) by (bit_vector);
}

/// Every partial result of the tree is a number from 0 to `maxv`.
pub open spec fn within(n: Node, maxv: i64) -> bool
    decreases n,
{
    match n {
        Node::Leaf(v) => 0 <= v <= maxv,
        Node::Op(op, a, b, _, _) => within(*a, maxv) && within(*b, maxv) && fits(op, *a, *b, maxv),
    }
}

proof fn leaf_within(draw: u64, maxv: i64)
    requires
        0 <= maxv,
    ensures
        0 <= leaf_value(draw, maxv) <= maxv,
{
}

/// A generated expression is nested at most as deep as asked, with all partial results within the bounds.
pub proof fn generated_within_bounds(depth: nat, ops: Seq<char>, maxv: i64, seed: u64)
    requires
        0 <= maxv,
    ensures
        within(family_tree(depth, ops, maxv, seed).0, maxv),
        height(family_tree(depth, ops, maxv, seed).0) <= depth,
    decreases depth, 401nat,
{
    if depth == 0 || ops.len() == 0 {
        leaf_within(shuffled(seed), maxv);
    } else {
        attempts_within_bounds(depth, ops, maxv, seed, 400);
    }
}

proof fn attempts_within_bounds(depth: nat, ops: Seq<char>, maxv: i64, seed: u64, tries: nat)
    requires
        0 <= maxv,
        tries <= 400,
    ensures
        within(family_try(depth, ops, maxv, seed, tries).0, maxv),
        height(family_try(depth, ops, maxv, seed, tries).0) <= depth,
    decreases depth, tries,
{
    if tries == 0 || depth == 0 || ops.len() == 0 {
        leaf_within(shuffled(seed), maxv);
        nesting_keeps_the_value(depth, ops, leaf_value(shuffled(seed), maxv), maxv);
    } else {
        let s2 = shuffled(shuffled(seed));
        let s3 = shuffled(s2);
        let op = ops[shuffled(seed) as int % ops.len() as int];
        let (dl, dr) = crate::recursion_probe::operand_depths(depth, s2, s3);
        if dl < depth && dr < depth {
            let (left, s4) = family_tree(dl, ops, maxv, s3);
            let (right, s5) = family_tree(dr, ops, maxv, s4);
            generated_within_bounds(dl, ops, maxv, s3);
            generated_within_bounds(dr, ops, maxv, s4);
            attempts_within_bounds(depth, ops, maxv, s5, (tries - 1) as nat);
        }
    }
}

pub(crate) proof fn padding_is_neutral(ops: Seq<char>, v: i64, maxv: i64, i: int)
    requires
        0 <= i,
    ensures
        padding_from(ops, v, maxv, i) matches Some((op, y)) ==> pads(op, v, y, maxv) && ops.contains(op),
        forall|k: int| i <= k < ops.len() && neutral(#[trigger] ops[k], v, maxv) is Some ==> padding_from(
            ops,
            v,
            maxv,
            i,
        ) is Some,
    decreases ops.len() - i,
{
    if i < ops.len() {
        padding_is_neutral(ops, v, maxv, i + 1);
    }
}

proof fn padding_keeps_the_value(depth: nat, op: char, y: i64, v: i64, maxv: i64)
    requires
        0 <= v <= maxv,
        pads(op, v, y, maxv),
    ensures
        height(padded(depth, op, y, v)) == depth,
        within(padded(depth, op, y, v), maxv),
        gen_value(padded(depth, op, y, v)) == v,
    decreases depth,
{
    if depth > 0 {
        padding_keeps_the_value((depth - 1) as nat, op, y, v, maxv);
        let n = padded((depth - 1) as nat, op, y, v);
        assert(gen_value(Node::Leaf(y)) == y && height(Node::Leaf(y)) == 0 && within(Node::Leaf(y), maxv));
        assert(padded(depth, op, y, v) == op_node(op, n, Node::Leaf(y)));
        assert(fits(op, n, Node::Leaf(y), maxv));
    }
}

/// A nested number keeps its value, and has the depth where an operator leaves it as it is.
pub(crate) proof fn nesting_keeps_the_value(depth: nat, ops: Seq<char>, v: i64, maxv: i64)
    requires
        0 <= v <= maxv,
    ensures
        height(nested(depth, ops, v, maxv)) <= depth,
        padding_from(ops, v, maxv, 0) is Some ==> height(nested(depth, ops, v, maxv)) == depth,
        within(nested(depth, ops, v, maxv), maxv),
        gen_value(nested(depth, ops, v, maxv)) == v,
{
    padding_is_neutral(ops, v, maxv, 0);
    if let Some((op, y)) = padding_from(ops, v, maxv, 0) {
        padding_keeps_the_value(depth, op, y, v, maxv);
    }
}

/// An operator can pad every number within the bounds.
pub open spec fn always_pads(op: char, maxv: i64) -> bool {
    forall|v: i64| 0 <= v <= maxv ==> #[trigger] neutral(op, v, maxv) is Some
}

/// The operators of the experiments can pad every number, but for division where one is out of bounds, and the
/// remainder.
pub proof fn usual_operators_pad(op: char, maxv: i64)
    requires
        op == '+' || op == '-' || op == '*' || op == '<' || op == '>' || op == '&' || op == '|' || op == '^' || (op
            == '/' && maxv >= 1),
    ensures
        always_pads(op, maxv),
{
    assert forall|v: i64| 0 <= v <= maxv implies #[trigger] neutral(op, v, maxv) is Some by {
        if op == '&' {
            assert(v & v == v) by (bit_vector);
            assert(pads(op, v, v, maxv));
        } else if op == '|' {
            assert(v | 0 == v) by (bit_vector);
            assert(pads(op, v, 0, maxv));
        } else if op == '^' {
            assert(v ^ 0 == v) by (bit_vector);
            assert(pads(op, v, 0, maxv));
        } else if op == '<' {
            assert(pads(op, v, v, maxv));
        } else if op == '*' || op == '/' {
            if maxv >= 1 {
                assert(v as int * 1 == v && v as int / 1 == v && v as int % 1 == 0);
                assert(pads(op, v, 1, maxv));
            } else {
                assert(v * 0 == 0);
                assert(pads(op, v, 0, maxv));
            }
        } else {
            assert(pads(op, v, 0, maxv));
        }
    }
}

/// A generated expression is nested exactly as deep as asked, where one of its operators can pad every number.
pub proof fn family_has_its_depth(depth: nat, ops: Seq<char>, maxv: i64, seed: u64)
    requires
        0 <= maxv,
        exists|i: int| 0 <= i < ops.len() && always_pads(#[trigger] ops[i], maxv),
    ensures
        height(family_tree(depth, ops, maxv, seed).0) == depth,
    decreases depth, 401nat,
{
    if depth > 0 {
        attempts_have_their_depth(depth, ops, maxv, seed, 400);
    }
}

proof fn attempts_have_their_depth(depth: nat, ops: Seq<char>, maxv: i64, seed: u64, tries: nat)
    requires
        0 <= maxv,
        exists|i: int| 0 <= i < ops.len() && always_pads(#[trigger] ops[i], maxv),
        depth > 0,
        tries <= 400,
    ensures
        height(family_try(depth, ops, maxv, seed, tries).0) == depth,
    decreases depth, tries,
{
    if tries == 0 {
        let v = leaf_value(shuffled(seed), maxv);
        leaf_within(shuffled(seed), maxv);
        nesting_keeps_the_value(depth, ops, v, maxv);
        padding_is_neutral(ops, v, maxv, 0);
        let i = choose|i: int| 0 <= i < ops.len() && always_pads(#[trigger] ops[i], maxv);
        assert(neutral(ops[i], v, maxv) is Some);
    } else {
        let s2 = shuffled(shuffled(seed));
        let s3 = shuffled(s2);
        let (dl, dr) = crate::recursion_probe::operand_depths(depth, s2, s3);
        assert(0 <= s2 as int % depth as int && s2 as int % depth as int <= depth - 1) by (nonlinear_arith)
            requires
                depth > 0,
        ;
        let (left, s4) = family_tree(dl, ops, maxv, s3);
        let (right, s5) = family_tree(dr, ops, maxv, s4);
        family_has_its_depth(dl, ops, maxv, s3);
        family_has_its_depth(dr, ops, maxv, s4);
        attempts_have_their_depth(depth, ops, maxv, s5, (tries - 1) as nat);
    }
}

pub(crate) proof fn meaning_is_true(op: char, x: i64, y: i64)
    requires
        0 <= x,
        0 <= y,
        meaning(op, x, y) matches Some(v) && 0 <= v <= i64::MAX,
    ensures
        applied_any(op, x, y) == Outcome::Value(meaning(op, x, y)->0 as i64),
{
    if op == '%' {
        vstd::arithmetic::div_mod::lemma_fundamental_div_mod(x as int, y as int);
        assert(quotient(x as int, y as int) == x as int / y as int);
    } else if op == '/' {
        assert(quotient(x as int, y as int) == x as int / y as int);
    }
}

/// The value that comes with a generated expression is its true value.
pub proof fn generated_value_is_true(n: Node, maxv: i64)
    requires
        within(n, maxv),
    ensures
        true_value(n) == Outcome::Value(gen_value(n)),
        0 <= gen_value(n) <= maxv,
    decreases n,
{
    match n {
        Node::Leaf(_) => {},
        Node::Op(op, a, b, _, _) => {
            generated_value_is_true(*a, maxv);
            generated_value_is_true(*b, maxv);
            meaning_is_true(op, gen_value(*a), gen_value(*b));
        },
    }
}

/// A two-level expression has an operator at its root and at both operands, whose results are within the bounds.
pub proof fn two_levels_are_operators(ops: Seq<char>, maxv: i64, seed: u64, tries: nat)
    requires
        0 <= maxv,
        ops.len() > 0,
    ensures
        two_level_tree(ops, maxv, seed, tries).0 matches Some(n) ==> (n matches Node::Op(_, a, b, _, _) && *a is Op
            && *b is Op && within(*a, maxv) && within(*b, maxv) && height(n) == 2),
    decreases tries,
{
    reveal_with_fuel(within, 2);
    reveal_with_fuel(height, 3);
    if tries > 0 {
        let s3 = shuffled(shuffled(shuffled(seed)));
        let s4 = shuffled(s3);
        let s5 = shuffled(s4);
        let s6 = shuffled(s5);
        let s7 = shuffled(s6);
        leaf_within(s4, maxv);
        leaf_within(s5, maxv);
        leaf_within(s6, maxv);
        leaf_within(s7, maxv);
        two_levels_are_operators(ops, maxv, s7, (tries - 1) as nat);
    }
}

/// The tree with its one symbol read as the operator that it stands for.
pub open spec fn read_as(n: Node, op: char) -> Node
    decreases n,
{
    match n {
        Node::Leaf(v) => n,
        Node::Op(_, a, b, open, close) => Node::Op(
            op,
            Box::new(read_as(*a, op)),
            Box::new(read_as(*b, op)),
            open,
            close,
        ),
    }
}

/// An expression over a taught symbol has the value that comes with it, once the symbol is read as its operator.
pub proof fn taught_value_is_true(depth: nat, sym: char, op: char, maxv: i64, seed: u64)
    requires
        0 <= maxv,
    ensures
        single_tree(depth, sym, op, maxv, seed).0 matches Some((n, v)) ==> within(read_as(n, op), maxv) && gen_value(
            read_as(n, op),
        ) == v && 0 <= v <= maxv && true_value(read_as(n, op)) == Outcome::Value(v),
    decreases depth, 401nat,
{
    if depth == 0 {
        leaf_within(shuffled(seed), maxv);
    } else {
        taught_attempts_are_true(depth, sym, op, maxv, seed, 400);
    }
}

proof fn taught_attempts_are_true(depth: nat, sym: char, op: char, maxv: i64, seed: u64, tries: nat)
    requires
        0 <= maxv,
        tries <= 400,
    ensures
        single_try(depth, sym, op, maxv, seed, tries).0 matches Some((n, v)) ==> within(read_as(n, op), maxv)
            && gen_value(read_as(n, op)) == v && 0 <= v <= maxv && true_value(read_as(n, op)) == Outcome::Value(v),
    decreases depth, tries,
{
    if tries > 0 && depth > 0 {
        let s2 = shuffled(shuffled(seed));
        let (dl, dr) = crate::recursion_probe::operand_depths(depth, shuffled(seed), s2);
        if dl < depth && dr < depth {
            taught_value_is_true(dl, sym, op, maxv, s2);
            let (left, s3) = single_tree(dl, sym, op, maxv, s2);
            taught_value_is_true(dr, sym, op, maxv, s3);
            let (right, s4) = single_tree(dr, sym, op, maxv, s3);
            taught_attempts_are_true(depth, sym, op, maxv, s4, (tries - 1) as nat);
            if left is Some && right is Some {
                let (ln, lv) = left->0;
                let (rn, rv) = right->0;
                let n = op_node(sym, ln, rn);
                assert(read_as(n, op) == op_node(op, read_as(ln, op), read_as(rn, op)));
                if meaning(op, lv, rv) matches Some(v) && 0 <= v <= maxv {
                    assert(within(read_as(n, op), maxv));
                    generated_value_is_true(read_as(n, op), maxv);
                }
            }
        }
    }
}

proof fn split_is_sum(lv: i64, draw: u64)
    requires
        0 <= lv <= 9,
    ensures
        within(split_sum(lv, draw), 9),
        gen_value(split_sum(lv, draw)) == lv,
        height(split_sum(lv, draw)) == 1,
{
    reveal_with_fuel(within, 2);
    reveal_with_fuel(gen_value, 2);
    reveal_with_fuel(height, 2);
    leaf_within(draw, lv);
}

/// The two expressions of a pair have one root operator and one right operand; their left operands have the given,
/// different values; their answers are the true values of the expressions, single digits, and different.
pub open spec fn is_matched_pair(na: Node, nb: Node, va: i64, vb: i64, la: i64, lb: i64) -> bool {
    &&& na matches Node::Op(op, a, r, _, _) && nb matches Node::Op(op2, b, r2, _, _) && op == op2 && *r == *r2
        && gen_value(*a) == la && gen_value(*b) == lb && within(na, 9) && within(nb, 9)
    &&& la != lb
    &&& va != vb
    &&& true_value(na) == Outcome::Value(va)
    &&& true_value(nb) == Outcome::Value(vb)
    &&& is_single_digit(va as int)
    &&& is_single_digit(vb as int)
}

proof fn pair_is_matched(rop: char, left_a: Node, left_b: Node, right: Node, la: i64, lb: i64, rv: i64)
    requires
        rop == '+' || rop == '-',
        within(left_a, 9),
        within(left_b, 9),
        within(right, 9),
        gen_value(left_a) == la,
        gen_value(left_b) == lb,
        gen_value(right) == rv,
        la != lb,
        is_single_digit(crate::recursion_probe::root_result(rop, la as int, rv as int)),
        is_single_digit(crate::recursion_probe::root_result(rop, lb as int, rv as int)),
    ensures
        is_matched_pair(
            op_node(rop, left_a, right),
            op_node(rop, left_b, right),
            crate::recursion_probe::root_result(rop, la as int, rv as int) as i64,
            crate::recursion_probe::root_result(rop, lb as int, rv as int) as i64,
            la,
            lb,
        ),
{
    generated_value_is_true(left_a, 9);
    generated_value_is_true(left_b, 9);
    generated_value_is_true(right, 9);
    let na = op_node(rop, left_a, right);
    let nb = op_node(rop, left_b, right);
    assert(within(na, 9));
    assert(within(nb, 9));
    generated_value_is_true(na, 9);
    generated_value_is_true(nb, 9);
}

/// Every patch pair is a matched pair.
pub proof fn patch_pairs_are_matched(seed: u64, tries: nat)
    ensures
        patch_pair(seed, tries).0 matches Some((na, nb, va, vb, la, lb)) ==> is_matched_pair(na, nb, va, vb, la, lb),
    decreases tries,
{
    if tries > 0 {
        let s1 = shuffled(seed);
        let s2 = shuffled(s1);
        let s3 = shuffled(s2);
        let s4 = shuffled(s3);
        let s5 = shuffled(s4);
        let s6 = shuffled(s5);
        let s7 = shuffled(s6);
        let s8 = shuffled(s7);
        patch_pairs_are_matched(s4, (tries - 1) as nat);
        patch_pairs_are_matched(s6, (tries - 1) as nat);
        let rop = crate::recursion_probe::root_op(s1);
        let rop2 = if s2 as int % 2 == 0 { '+' } else { '*' };
        let c = digit_of(s3);
        let d = digit_of(s4);
        let rv = if rop2 == '+' { c + d } else { c * d };
        let la = digit_of(s5);
        let lb = digit_of(s6);
        let right = op_node(rop2, Node::Leaf(c), Node::Leaf(d));
        split_is_sum(la, s7);
        split_is_sum(lb, s8);
        if is_single_digit(rv) && la != lb && is_single_digit(
            crate::recursion_probe::root_result(rop, la as int, rv),
        ) && is_single_digit(crate::recursion_probe::root_result(rop, lb as int, rv)) {
            reveal_with_fuel(within, 2);
            reveal_with_fuel(gen_value, 2);
            assert(within(right, 9));
            assert(gen_value(right) == rv);
            pair_is_matched(rop, split_sum(la, s7), split_sum(lb, s8), right, la, lb, rv as i64);
        }
    }
}

/// The sum of a sequence.
pub open spec fn total(s: Seq<i64>) -> int
    decreases s.len(),
{
    if s.len() == 0 {
        0
    } else {
        total(s.drop_last()) + s.last()
    }
}

proof fn total_of_sum(a: Seq<i64>, b: Seq<i64>)
    ensures
        total(a + b) == total(a) + total(b),
    decreases b.len(),
{
    if b.len() == 0 {
        assert(a + b =~= a);
    } else {
        total_of_sum(a, b.drop_last());
        assert((a + b).drop_last() =~= a + b.drop_last());
    }
}

/// The shares of a number are as many as asked, not negative, and add up to it.
pub proof fn shares_add_up(rem: i64, k: nat, seed: u64)
    requires
        0 <= rem,
        k >= 1,
    ensures
        shares(rem, k, seed).0.len() == k,
        total(shares(rem, k, seed).0) == rem,
        forall|i: int| 0 <= i < k ==> 0 <= #[trigger] shares(rem, k, seed).0[i] <= rem,
    decreases k,
{
    if k == 1 {
        assert(seq![rem].drop_last() =~= Seq::empty());
        assert(total(seq![rem]) == rem) by {
            reveal_with_fuel(total, 2);
        }
    } else {
        let s = shuffled(seed);
        let v = leaf_value(s, rem);
        leaf_within(s, rem);
        shares_add_up((rem - v) as i64, (k - 1) as nat, s);
        let rest = shares((rem - v) as i64, (k - 1) as nat, s).0;
        total_of_sum(seq![v], rest);
        assert(total(seq![v]) == v) by {
            reveal_with_fuel(total, 2);
            assert(seq![v].drop_last() =~= Seq::empty());
        }
        assert forall|i: int| 0 <= i < k implies 0 <= #[trigger] shares(rem, k, seed).0[i] <= rem by {
            if i > 0 {
                assert(shares(rem, k, seed).0[i] == rest[i - 1]);
            }
        }
    }
}

proof fn chain_is_sum(leaves: Seq<i64>, bound: i64)
    requires
        leaves.len() >= 1,
        total(leaves) <= bound,
        forall|i: int| 0 <= i < leaves.len() ==> 0 <= #[trigger] leaves[i],
    ensures
        within(sum_chain(leaves), bound),
        gen_value(sum_chain(leaves)) == total(leaves),
        height(sum_chain(leaves)) == leaves.len() - 1,
        0 <= total(leaves),
    decreases leaves.len(),
{
    if leaves.len() == 1 {
        assert(leaves.drop_last() =~= Seq::empty());
        reveal_with_fuel(total, 2);
    } else {
        let head = leaves.drop_last();
        total_not_negative(head);
        assert(leaves.last() == leaves[leaves.len() - 1]);
        chain_is_sum(head, bound);
        reveal_with_fuel(within, 2);
        reveal_with_fuel(gen_value, 2);
        reveal_with_fuel(height, 2);
    }
}

proof fn total_not_negative(s: Seq<i64>)
    requires
        forall|i: int| 0 <= i < s.len() ==> 0 <= #[trigger] s[i],
    ensures
        0 <= total(s),
    decreases s.len(),
{
    if s.len() > 0 {
        total_not_negative(s.drop_last());
    }
}

/// Every hold pair is a matched pair, and its right operand is exactly `hold` sums deep.
pub proof fn hold_pairs_are_matched(hold: nat, seed: u64, tries: nat)
    requires
        hold >= 1,
    ensures
        hold_pair(hold, seed, tries).0 matches Some((na, nb, va, vb)) ==> {
            &&& na matches Node::Op(_, a, right, _, _) && nb matches Node::Op(_, b, _, _, _) && is_matched_pair(
                na,
                nb,
                va,
                vb,
                gen_value(*a),
                gen_value(*b),
            ) && height(*right) == hold && height(*a) == 1 && height(*b) == 1
        },
    decreases tries,
{
    if tries > 0 {
        let s1 = shuffled(seed);
        let s2 = shuffled(s1);
        let rop = crate::recursion_probe::root_op(s1);
        let rv = digit_of(s2);
        let (leaves, s3) = shares(rv, hold + 1, s2);
        let s4 = shuffled(s3);
        let s5 = shuffled(s4);
        let s6 = shuffled(s5);
        let s7 = shuffled(s6);
        let la = digit_of(s4);
        let lb = digit_of(s5);
        hold_pairs_are_matched(hold, s5, (tries - 1) as nat);
        shares_add_up(rv, hold + 1, s2);
        chain_is_sum(leaves, 9);
        split_is_sum(la, s6);
        split_is_sum(lb, s7);
        if la != lb && is_single_digit(crate::recursion_probe::root_result(rop, la as int, rv as int))
            && is_single_digit(crate::recursion_probe::root_result(rop, lb as int, rv as int)) {
            pair_is_matched(rop, split_sum(la, s6), split_sum(lb, s7), sum_chain(leaves), la, lb, rv);
        }
    }
}

proof fn shuffle_keeps_distinct(s: Seq<char>, i: int, seed: u64)
    requires
        s.no_duplicates(),
        i < s.len(),
    ensures
        shuffle_from(s, i, seed).0.no_duplicates(),
        shuffle_from(s, i, seed).0.len() == s.len(),
    decreases i,
{
    if i > 0 {
        let d = shuffled(seed);
        let j = d as int % (i + 1);
        let t = swapped(s, i, j);
        assert forall|x: int, y: int| 0 <= x < t.len() && 0 <= y < t.len() && x != y implies t[x] != t[y] by {
            let px = if x == j { i } else if x == i { j } else { x };
            let py = if y == j { i } else if y == i { j } else { y };
            assert(t[x] == s[px]);
            assert(t[y] == s[py]);
            assert(px != py);
        }
        shuffle_keeps_distinct(t, i - 1, d);
    }
}

proof fn digits_are_distinct(vals: Seq<i64>, n: nat, seed: u64, tries: nat)
    requires
        vals.no_duplicates(),
        vals.len() <= n,
        forall|i: int| 0 <= i < vals.len() ==> 0 <= #[trigger] vals[i] <= 9,
    ensures
        distinct_digits(vals, n, seed, tries).0.no_duplicates(),
        distinct_digits(vals, n, seed, tries).0.len() <= n,
        forall|i: int|
            0 <= i < distinct_digits(vals, n, seed, tries).0.len() ==> 0 <= #[trigger] distinct_digits(
                vals,
                n,
                seed,
                tries,
            ).0[i] <= 9,
    decreases tries,
{
    if vals.len() < n && tries > 0 {
        let d = shuffled(seed);
        let v = digit_of(d);
        let next = if vals.contains(v) { vals } else { vals.push(v) };
        assert forall|i: int, j: int| 0 <= i < next.len() && 0 <= j < next.len() && i != j implies next[i]
            != next[j] by {
            if !vals.contains(v) {
                if i < vals.len() {
                    assert(vals.contains(vals[i]));
                }
                if j < vals.len() {
                    assert(vals.contains(vals[j]));
                }
            }
        }
        digits_are_distinct(next, n, d, (tries - 1) as nat);
    }
}

proof fn other_is_new(vals: Seq<i64>, seed: u64, tries: nat)
    ensures
        other_digit(vals, seed, tries).0 matches Some(v) ==> !vals.contains(v) && 0 <= v <= 9,
    decreases tries,
{
    if tries > 0 {
        other_is_new(vals, shuffled(seed), (tries - 1) as nat);
    }
}

/// A binding pair binds as many different letters as asked to different digits; the other value of the queried
/// variable is a digit that no variable has, so the two queries differ in that value alone.
pub proof fn bindings_are_distinct(nv: nat, seed: u64, tries: nat)
    requires
        2 <= nv <= 8,
    ensures
        bind_pair(nv, seed, tries).0 matches Some((vars, vals, other)) ==> {
            &&& vars.len() == nv
            &&& vals.len() == nv
            &&& vars.no_duplicates()
            &&& vals.no_duplicates()
            &&& !vals.contains(other)
            &&& 0 <= other <= 9
            &&& forall|i: int| 0 <= i < nv ==> 0 <= #[trigger] vals[i] <= 9
        },
    decreases tries,
{
    if tries > 0 {
        let (order, s1) = shuffle_from(letters(), 7, seed);
        let (vals, s2) = distinct_digits(Seq::empty(), nv, s1, 200);
        let (other, s3) = other_digit(vals, s2, 10);
        shuffle_keeps_distinct(letters(), 7, seed);
        digits_are_distinct(Seq::empty(), nv, s1, 200);
        other_is_new(vals, s2, 10);
        bindings_are_distinct(nv, s2, (tries - 1) as nat);
        bindings_are_distinct(nv, s3, (tries - 1) as nat);
        let vars = order.take(nv as int);
        assert forall|i: int, j: int| 0 <= i < vars.len() && 0 <= j < vars.len() && i != j implies vars[i]
            != vars[j] by {
            assert(order[i] != order[j]);
        }
    }
}

/// A numeral is made of digits, and its value is the number.
pub proof fn numeral_is_read_back(n: nat)
    ensures
        dec(n).len() > 0,
        all_digits(dec(n)),
        digits_value(dec(n)) == n,
    decreases n,
{
    if n >= 10 {
        numeral_is_read_back(n / 10);
        assert(dec(n).drop_last() =~= dec(n / 10));
        assert forall|i: int| 0 <= i < dec(n).len() implies is_digit(#[trigger] dec(n)[i]) by {
            if i < dec(n / 10).len() {
                assert(dec(n)[i] == dec(n / 10)[i]);
            }
        }
    } else {
        assert(dec(n).drop_last() =~= Seq::empty());
        reveal_with_fuel(digits_value, 2);
    }
}

/// Every 64-bit integer is read back from its numeral.
pub proof fn integer_is_read_back(v: i64)
    ensures
        i64_value(int_text(v as int)) == Some(v),
{
    if v < 0 {
        numeral_is_read_back((-v) as nat);
        assert(unsigned_part(int_text(v as int)) =~= dec((-v) as nat));
    } else {
        numeral_is_read_back(v as nat);
        assert(is_digit(dec(v as nat)[0]));
        assert(unsigned_part(int_text(v as int)) =~= dec(v as nat));
    }
}

/// The expression can be spelled: its leaves are not negative, its operators are marks other than brackets, and it
/// stands in one piece.
pub open spec fn spellable(n: Node, taught: bool) -> bool
    decreases n,
{
    match n {
        Node::Leaf(v) => 0 <= v,
        Node::Op(op, a, b, open, close) => {
            &&& is_mark(op) || (taught && is_taught_mark(op))
            &&& op != '(' && op != ')'
            &&& open == 0 && close == 0
            &&& spellable(*a, taught)
            &&& spellable(*b, taught)
        },
    }
}

/// The atoms that an expression is spelled with.
pub open spec fn atom_texts(n: Node) -> Seq<Seq<char>>
    decreases n,
{
    match n {
        Node::Leaf(v) => seq![dec(v as nat)],
        Node::Op(op, a, b, _, _) => seq![seq!['('], seq![op]] + atom_texts(*a) + atom_texts(*b) + seq![seq![')']],
    }
}

proof fn digits_are_pending(d: Seq<char>, t: Seq<char>, num: Seq<char>, taught: bool)
    requires
        all_digits(d),
    ensures
        lexed(d + t, num, taught) == lexed(t, num + d, taught),
    decreases d.len(),
{
    reveal(lexed);
    if d.len() == 0 {
        assert(d + t =~= t);
        assert(num + d =~= num);
    } else {
        assert((d + t).skip(1) =~= d.skip(1) + t);
        assert(num.push(d[0]) + d.skip(1) =~= num + d);
        assert forall|i: int| 0 <= i < d.skip(1).len() implies is_digit(#[trigger] d.skip(1)[i]) by {
            assert(d.skip(1)[i] == d[i + 1]);
        }
        digits_are_pending(d.skip(1), t, num.push(d[0]), taught);
    }
}

proof fn separator_is_dropped(t: Seq<char>, taught: bool)
    ensures
        lexed(seq![' '] + t, Seq::empty(), taught) == lexed(t, Seq::empty(), taught),
{
    reveal(lexed);
    assert((seq![' '] + t).skip(1) =~= t);
    assert(Seq::<Seq<char>>::empty() + lexed(t, Seq::empty(), taught) =~= lexed(t, Seq::empty(), taught));
}

proof fn mark_is_an_atom(c: char, t: Seq<char>, taught: bool)
    requires
        is_mark(c) || (taught && is_taught_mark(c)),
    ensures
        lexed(seq![c] + t, Seq::empty(), taught) == seq![seq![c]] + lexed(t, Seq::empty(), taught),
{
    reveal(lexed);
    assert((seq![c] + t).skip(1) =~= t);
    assert(Seq::<Seq<char>>::empty() + seq![seq![c]] + lexed(t, Seq::empty(), taught) =~= seq![seq![c]] + lexed(
        t,
        Seq::empty(),
        taught,
    ));
}

proof fn numeral_is_lexed(d: Seq<char>, t: Seq<char>, taught: bool)
    requires
        d.len() > 0,
        all_digits(d),
        t.len() == 0 || !is_digit(t[0]),
    ensures
        lexed(d + t, Seq::empty(), taught) == seq![d] + lexed(t, Seq::empty(), taught),
{
    reveal(lexed);
    digits_are_pending(d, t, Seq::empty(), taught);
    assert(Seq::<char>::empty() + d =~= d);
    let none = Seq::<Seq<char>>::empty();
    if t.len() == 0 {
        assert(lexed(t, d, taught) =~= seq![d] + lexed(t, Seq::empty(), taught));
    } else {
        let tail = lexed(t.skip(1), Seq::empty(), taught);
        assert(seq![d] + seq![seq![t[0]]] + tail =~= seq![d] + (none + seq![seq![t[0]]] + tail));
        assert(seq![d] + tail =~= seq![d] + (none + tail));
    }
}

#[verifier::spinoff_prover]
proof fn text_is_lexed(n: Node, t: Seq<char>, taught: bool)
    requires
        spellable(n, taught),
        t.len() == 0 || !is_digit(t[0]),
    ensures
        lexed(expr_text(n) + t, Seq::empty(), taught) == atom_texts(n) + lexed(t, Seq::empty(), taught),
    decreases n,
{
    match n {
        Node::Leaf(v) => {
            numeral_is_read_back(v as nat);
            numeral_is_lexed(dec(v as nat), t, taught);
        },
        Node::Op(op, a, b, _, _) => {
            let end = seq![')'] + t;
            let right = expr_text(*b) + end;
            let mid = seq![' '] + right;
            let left = expr_text(*a) + mid;
            let head = seq![' '] + left;
            let rest = lexed(t, Seq::empty(), taught);
            let after_b = seq![seq![')']] + rest;
            let after_a = atom_texts(*b) + after_b;
            let inner = atom_texts(*a) + after_a;
            assert(lexed(end, Seq::empty(), taught) == after_b) by {
                mark_is_an_atom(')', t, taught);
            }
            assert(lexed(mid, Seq::empty(), taught) == after_a) by {
                separator_is_dropped(right, taught);
                text_is_lexed(*b, end, taught);
            }
            assert(lexed(head, Seq::empty(), taught) == inner) by {
                separator_is_dropped(left, taught);
                text_is_lexed(*a, mid, taught);
            }
            assert(lexed(seq!['('] + (seq![op] + head), Seq::empty(), taught) == seq![seq!['(']] + (seq![seq![op]]
                + inner)) by {
                mark_is_an_atom('(', seq![op] + head, taught);
                mark_is_an_atom(op, head, taught);
            }
            assert(expr_text(n) + t =~= seq!['('] + (seq![op] + head));
            assert(seq![seq!['(']] + (seq![seq![op]] + inner) =~= atom_texts(n) + rest);
        },
    }
}

proof fn atoms_counted(n: Node)
    ensures
        atom_texts(n).len() == atom_count(n),
    decreases n,
{
    match n {
        Node::Leaf(_) => {},
        Node::Op(_, a, b, _, _) => {
            atoms_counted(*a);
            atoms_counted(*b);
        },
    }
}

/// Atom `k` spells the text, in the first piece.
pub open spec fn spells_at(atoms: Seq<(String, usize)>, k: int, text: Seq<char>) -> bool {
    atoms[k].0@ == text && atoms[k].1 == 0
}

proof fn atoms_write(atoms: Seq<(String, usize)>, p: int, n: Node, texts: Seq<Seq<char>>, taught: bool)
    requires
        spellable(n, taught),
        texts == atom_texts(n),
        0 <= p,
        p + texts.len() <= atoms.len(),
        forall|i: int| 0 <= i < texts.len() ==> spells_at(atoms, p + i, #[trigger] texts[i]),
    ensures
        written(atoms, p, n),
    decreases n,
{
    atoms_counted(n);
    match n {
        Node::Leaf(v) => {
            assert(spells_at(atoms, p + 0, texts[0]));
            integer_is_read_back(v);
        },
        Node::Op(op, a, b, _, _) => {
            atoms_counted(*a);
            atoms_counted(*b);
            let ta = atom_texts(*a);
            let tb = atom_texts(*b);
            let last = (2 + ta.len() + tb.len()) as int;
            assert(spells_at(atoms, p + 0, texts[0]));
            assert(spells_at(atoms, p + 1, texts[1]));
            assert(spells_at(atoms, p + last, texts[last]));
            assert forall|i: int| 0 <= i < ta.len() implies spells_at(atoms, p + 2 + i, #[trigger] ta[i]) by {
                assert(texts[2 + i] == ta[i]);
                assert(spells_at(atoms, p + (2 + i), texts[2 + i]));
            }
            assert forall|i: int| 0 <= i < tb.len() implies spells_at(
                atoms,
                p + 2 + ta.len() + i,
                #[trigger] tb[i],
            ) by {
                assert(texts[2 + ta.len() + i] == tb[i]);
                assert(spells_at(atoms, p + (2 + ta.len() + i), texts[2 + ta.len() + i]));
            }
            atoms_write(atoms, p + 2, *a, ta, taught);
            atoms_write(atoms, p + 2 + ta.len(), *b, tb, taught);
        },
    }
}

proof fn one_piece(piece: String, atoms: Seq<(String, usize)>, texts: Seq<Seq<char>>, taught: bool)
    requires
        lexed(piece@, Seq::empty(), taught) == texts,
        atom_view(atoms) == atoms_of(seq![piece], taught),
    ensures
        atoms.len() == texts.len(),
        forall|i: int| 0 <= i < texts.len() ==> spells_at(atoms, 0 + i, #[trigger] texts[i]),
{
    reveal_with_fuel(atoms_of, 2);
    let view = atom_view(atoms);
    assert(seq![piece].drop_last() =~= Seq::empty());
    assert(view =~= piece_atoms(piece@, 0, taught));
    assert forall|i: int| 0 <= i < texts.len() implies spells_at(atoms, 0 + i, #[trigger] texts[i]) by {
        assert(view[i] == (texts[i], 0usize));
    }
}

/// The text of an operator expression, split into atoms and parsed, gives the expression again.
pub proof fn text_is_parsed_back(n: Node, piece: String, atoms: Seq<(String, usize)>, taught: bool)
    requires
        spellable(n, taught),
        n is Op,
        piece@ == expr_text(n),
        atom_view(atoms) == atoms_of(seq![piece], taught),
    ensures
        target_from(atoms, 0, None) == Some(n),
{
    let texts = atom_texts(n);
    text_is_lexed(n, Seq::empty(), taught);
    assert(expr_text(n) + Seq::<char>::empty() =~= expr_text(n));
    assert(lexed(Seq::<char>::empty(), Seq::empty(), taught) =~= Seq::empty()) by {
        reveal(lexed);
    }
    assert(lexed(expr_text(n), Seq::empty(), taught) =~= texts);
    one_piece(piece, atoms, texts, taught);
    atoms_write(atoms, 0, n, texts, taught);
    atoms_counted(n);
    last_written_is_the_target(atoms, 0, n, None);
}

/// The text of a mere number has no operator expression in it.
pub proof fn number_is_no_target(n: Node, piece: String, atoms: Seq<(String, usize)>, taught: bool)
    requires
        spellable(n, taught),
        n is Leaf,
        piece@ == expr_text(n),
        atom_view(atoms) == atoms_of(seq![piece], taught),
    ensures
        target_from(atoms, 0, None) is None,
{
    let texts = atom_texts(n);
    text_is_lexed(n, Seq::empty(), taught);
    assert(expr_text(n) + Seq::<char>::empty() =~= expr_text(n));
    assert(lexed(Seq::<char>::empty(), Seq::empty(), taught) =~= Seq::empty()) by {
        reveal(lexed);
    }
    assert(lexed(expr_text(n), Seq::empty(), taught) =~= texts);
    one_piece(piece, atoms, texts, taught);
    numeral_is_read_back((n->Leaf_0) as nat);
    assert(spells_at(atoms, 0 + 0int, texts[0]));
    assert(is_digit(dec((n->Leaf_0) as nat)[0]));
    assert(seq!['('][0] == '(');
    assert(!is_digit('('));
    reveal_with_fuel(target_from, 2);
}

} // verus!
