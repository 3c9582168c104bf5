//! Arithmetic s-expressions, their depth-bounded evaluation, and the recursive Datalog program that reproduces a
//! given answer to one.
//!
//! The budget of an evaluation is the recursion depth that it may use; where it runs out, a node is cut and a
//! retrieved value stands in for it. Abduction looks for the deepest budget, and the cut values, with which the
//! evaluation gives the answer.
use vstd::prelude::*;
use std::collections::HashMap;
use crate::cut_search::{first_is_first, search_values};
use crate::recursion_laws::pool_is_sorted;
use crate::text::{i64_value, parse_i64};
pub use crate::datalog::emit;

verus! {

broadcast use vstd::std_specs::hash::group_hash_axioms;

/// An expression tree; an operator node keeps the token positions of its brackets.
pub enum Node {
    Leaf(i64),
    Op(char, Box<Node>, Box<Node>, usize, usize),
}

/// Operands folded to the left under one operator.
pub open spec fn fold_kids(op: char, kids: Seq<Node>, open: usize, close: usize) -> Node
    decreases kids.len(),
{
    if kids.len() <= 1 {
        kids[0]
    } else {
        Node::Op(op, Box::new(fold_kids(op, kids.drop_last(), open, close)), Box::new(kids.last()), open, close)
    }
}

/// The expression read from position `p`, and the position behind what was read. Atoms that start no expression
/// are skipped.
pub open spec fn parse_from(atoms: Seq<(String, usize)>, p: int) -> (Option<Node>, int)
    decreases atoms.len() - p, 0nat,
{
    if p < 0 || p >= atoms.len() {
        (None, p)
    } else if atoms[p].0@ == seq!['('] {
        if p + 1 >= atoms.len() || atoms[p + 1].0@.len() == 0 {
            (None, p + 1)
        } else {
            let op = atoms[p + 1].0@[0];
            match kids_from(atoms, p + 2) {
                (None, q) => (None, q),
                (Some(kids), q) => if kids.len() == 0 {
                    (None, q + 1)
                } else {
                    (Some(fold_kids(op, kids, atoms[p].1, atoms[q].1)), q + 1)
                },
            }
        }
    } else {
        match i64_value(atoms[p].0@) {
            Some(v) => (Some(Node::Leaf(v)), p + 1),
            None => parse_from(atoms, p + 1),
        }
    }
}

/// The operands from position `p` up to the closing bracket, and its position; none when the atoms run out.
pub open spec fn kids_from(atoms: Seq<(String, usize)>, p: int) -> (Option<Seq<Node>>, int)
    decreases atoms.len() - p, 1nat,
{
    if p < 0 || p >= atoms.len() {
        (None, p)
    } else if atoms[p].0@ == seq![')'] {
        (Some(Seq::empty()), p)
    } else {
        match parse_from(atoms, p) {
            (None, q) => (None, q),
            (Some(kid), q) => if p < q <= atoms.len() {
                match kids_from(atoms, q) {
                    (None, r) => (None, r),
                    (Some(kids), r) => (Some(seq![kid] + kids), r),
                }
            } else {
                (None, q)
            },
        }
    }
}

/// Reading moves forward and stays within the atoms.
pub proof fn parse_advances(atoms: Seq<(String, usize)>, p: int)
    ensures
        0 <= p <= atoms.len() ==> p <= parse_from(atoms, p).1 <= atoms.len(),
        parse_from(atoms, p).0 is Some ==> p < parse_from(atoms, p).1,
        p < 0 || p > atoms.len() ==> parse_from(atoms, p) == (None::<Node>, p),
    decreases atoms.len() - p, 0nat,
{
    if 0 <= p < atoms.len() {
        if atoms[p].0@ == seq!['('] {
            if p + 1 < atoms.len() {
                kids_advance(atoms, p + 2);
            }
        } else {
            parse_advances(atoms, p + 1);
        }
    }
}

pub(crate) proof fn kids_advance(atoms: Seq<(String, usize)>, p: int)
    ensures
        0 <= p <= atoms.len() ==> p <= kids_from(atoms, p).1 <= atoms.len(),
        kids_from(atoms, p).0 is Some ==> kids_from(atoms, p).1 < atoms.len(),
    decreases atoms.len() - p, 1nat,
{
    if 0 <= p < atoms.len() && atoms[p].0@ != seq![')'] {
        parse_advances(atoms, p);
        let (kid, q) = parse_from(atoms, p);
        if kid is Some {
            kids_advance(atoms, q);
        }
    }
}

/// Whether an atom is the single character `c`.
fn is_atom(a: &str, c: char) -> (r: bool)
    ensures
        r == (a@ == seq![c]),
{
    if a.unicode_len() != 1 {
        return false;
    }
    let r = a.get_char(0) == c;
    assert(r ==> a@ =~= seq![c]);
    r
}

fn fold(op: char, kids: Vec<Node>, open: usize, close: usize) -> (r: Option<Node>)
    ensures
        match r {
            Some(n) => kids@.len() > 0 && n == fold_kids(op, kids@, open, close),
            None => kids@.len() == 0,
        },
{
    let mut acc: Option<Node> = None;
    let ghost all = kids@;
    for k in it: kids
        invariant
            it.seq() == all,
            match acc {
                Some(n) => it.index() > 0 && n == fold_kids(op, all.take(it.index() as int), open, close),
                None => it.index() == 0,
            },
    {
        proof {
            assert(all.take(it.index() + 1).drop_last() =~= all.take(it.index() as int));
            assert(all.take(it.index() + 1).last() == k);
        }
        acc = match acc {
            None => Some(k),
            Some(n) => Some(Node::Op(op, Box::new(n), Box::new(k), open, close)),
        };
    }
    assert(all.take(all.len() as int) =~= all);
    acc
}

/// Reads one expression from `*pos`, and moves `*pos` behind what was read.
pub fn parse(atoms: &[(String, usize)], pos: &mut usize) -> (r: Option<Node>)
    ensures
        parse_from(atoms@, *old(pos) as int) == (r, *final(pos) as int),
    decreases atoms@.len() - *old(pos),
{
    let n: usize = atoms.len();
    if *pos >= n {
        return None;
    }
    let start: usize = *pos;
    if is_atom(atoms[start].0.as_str(), '(') {
        let open: usize = atoms[start].1;
        *pos = start + 1;
        if *pos >= n || atoms[start + 1].0.as_str().unicode_len() == 0 {
            return None;
        }
        let op = atoms[start + 1].0.as_str().get_char(0);
        *pos = start + 2;
        let mut kids: Vec<Node> = Vec::new();
        while *pos < n && !is_atom(atoms[*pos].0.as_str(), ')')
            invariant
                n == atoms@.len(),
                start + 2 <= *pos <= n,
                *old(pos) == start,
                match kids_from(atoms@, *pos as int) {
                    (Some(ks), q) => kids_from(atoms@, start + 2) == (Some(kids@ + ks), q),
                    (None, q) => kids_from(atoms@, start + 2) == (None::<Seq<Node>>, q),
                },
                atoms@[start as int].0@ == seq!['('],
                start + 1 < n,
                atoms@[start + 1].0@.len() > 0,
            decreases n - *pos,
        {
            let ghost p = *pos as int;
            let ghost before = kids@;
            proof {
                parse_advances(atoms@, p);
            }
            match parse(atoms, pos) {
                Some(kid) => {
                    kids.push(kid);
                    proof {
                        let rest = kids_from(atoms@, *pos as int);
                        if rest.0 is Some {
                            assert(before + (seq![kid] + rest.0->0) =~= kids@ + rest.0->0);
                        }
                    }
                },
                None => {
                    return None;
                },
            }
        }
        if *pos >= n {
            return None;
        }
        assert(kids@ + Seq::<Node>::empty() =~= kids@);
        let close: usize = atoms[*pos].1;
        *pos = *pos + 1;
        fold(op, kids, open, close)
    } else {
        *pos = start + 1;
        match parse_i64(atoms[start].0.as_str()) {
            Some(v) => Some(Node::Leaf(v)),
            None => parse(atoms, pos),
        }
    }
}

/// The last operator expression that can be read from position `p` on, or `last` when there is none.
pub open spec fn target_from(atoms: Seq<(String, usize)>, p: int, last: Option<Node>) -> Option<Node>
    decreases atoms.len() - p,
{
    if p < 0 || p >= atoms.len() {
        last
    } else if atoms[p].0@ == seq!['('] {
        match parse_from(atoms, p) {
            (Some(Node::Op(op, a, b, open, close)), q) => if p < q <= atoms.len() {
                target_from(atoms, q, Some(Node::Op(op, a, b, open, close)))
            } else {
                last
            },
            _ => target_from(atoms, p + 1, last),
        }
    } else {
        target_from(atoms, p + 1, last)
    }
}

/// The last operator expression among the atoms.
pub fn parse_target(atoms: &[(String, usize)]) -> (r: Option<Node>)
    ensures
        r == target_from(atoms@, 0, None),
{
    let mut pos: usize = 0;
    let mut last: Option<Node> = None;
    while pos < atoms.len()
        invariant
            pos <= atoms@.len(),
            target_from(atoms@, pos as int, last) == target_from(atoms@, 0, None),
        decreases atoms.len() - pos,
    {
        if is_atom(atoms[pos].0.as_str(), '(') {
            let mut p: usize = pos;
            proof {
                parse_advances(atoms@, pos as int);
            }
            match parse(atoms, &mut p) {
                Some(Node::Op(op, a, b, open, close)) => {
                    last = Some(Node::Op(op, a, b, open, close));
                    pos = p;
                },
                _ => {
                    pos += 1;
                },
            }
        } else {
            pos += 1;
        }
    }
    last
}

/// A tree node in the flat representation, where a node is known by its index in pre-order.
pub enum Flat {
    Leaf(i64),
    Op(char, usize, usize),
}

/// The nodes of a tree in pre-order, when the first of them has the index `base`.
pub open spec fn flat_nodes(n: Node, base: int) -> Seq<Flat>
    decreases n,
{
    match n {
        Node::Leaf(v) => seq![Flat::Leaf(v)],
        Node::Op(op, a, b, _, _) => {
            let left = flat_nodes(*a, base + 1);
            let right = flat_nodes(*b, base + 1 + left.len());
            seq![Flat::Op(op, (base + 1) as usize, (base + 1 + left.len()) as usize)] + left + right
        },
    }
}

/// The depth of each node of a tree, in pre-order, when its root has depth `d`.
pub open spec fn flat_depths(n: Node, d: int) -> Seq<usize>
    decreases n,
{
    match n {
        Node::Leaf(_) => seq![d as usize],
        Node::Op(_, a, b, _, _) => seq![d as usize] + flat_depths(*a, d + 1) + flat_depths(*b, d + 1),
    }
}

/// The number of nodes.
pub open spec fn size(n: Node) -> nat
    decreases n,
{
    match n {
        Node::Leaf(_) => 1,
        Node::Op(_, a, b, _, _) => 1 + size(*a) + size(*b),
    }
}

/// The number of operators on the longest way down.
pub open spec fn height(n: Node) -> nat
    decreases n,
{
    match n {
        Node::Leaf(_) => 0,
        Node::Op(_, a, b, _, _) => 1 + if height(*a) >= height(*b) { height(*a) } else { height(*b) },
    }
}

pub(crate) proof fn flat_lens(n: Node, base: int, d: int)
    ensures
        flat_nodes(n, base).len() == size(n),
        flat_depths(n, d).len() == size(n),
    decreases n,
{
    match n {
        Node::Leaf(_) => {},
        Node::Op(_, a, b, _, _) => {
            flat_lens(*a, base + 1, d + 1);
            flat_lens(*b, base + 1 + flat_nodes(*a, base + 1).len(), d + 1);
        },
    }
}

/// Appends the nodes of a tree and their depths; the result is the index of its root. The depths must fit, which
/// they do without a look at the tree where the root stands no deeper than there are nodes before it.
pub fn flatten(n: &Node, out: &mut Vec<Flat>, depth: &mut Vec<usize>, d: usize) -> (id: usize)
    requires
        d + height(*n) <= usize::MAX || d <= old(out)@.len(),
    ensures
        id == old(out)@.len(),
        final(out)@ == old(out)@ + flat_nodes(*n, old(out)@.len() as int),
        final(depth)@ == old(depth)@ + flat_depths(*n, d as int),
    decreases *n,
{
    let id: usize = out.len();
    out.push(Flat::Leaf(0));
    depth.push(d);
    let len: usize = out.len();
    match n {
        Node::Leaf(v) => {
            out.set(id, Flat::Leaf(*v));
            assert(out@ =~= old(out)@ + flat_nodes(*n, id as int));
            assert(depth@ =~= old(depth)@ + flat_depths(*n, d as int));
        },
        Node::Op(op, a, b, _, _) => {
            let ai = flatten(a, out, depth, d + 1);
            let bi = flatten(b, out, depth, d + 1);
            out.set(id, Flat::Op(*op, ai, bi));
            assert(out@ =~= old(out)@ + flat_nodes(*n, id as int));
            assert(depth@ =~= old(depth)@ + flat_depths(*n, d as int));
        },
    }
    id
}

/// What an evaluation gives: a number, nothing (an unknown operator, a division by zero, a missing cut value), or
/// an intermediate result that leaves the 64-bit range.
#[derive(Clone, Copy, PartialEq, Eq, Structural)]
pub enum Outcome {
    Value(i64),
    Undefined,
    OutOfRange,
}

pub open spec fn ranged(v: int) -> Outcome {
    if i64::MIN <= v <= i64::MAX {
        Outcome::Value(v as i64)
    } else {
        Outcome::OutOfRange
    }
}

/// Division that rounds toward zero.
pub open spec fn quotient(x: int, y: int) -> int {
    if x >= 0 && y > 0 {
        x / y
    } else if x >= 0 {
        -(x / -y)
    } else if y > 0 {
        -(-x / y)
    } else {
        -x / -y
    }
}

/// The four operators of the recursive program.
pub open spec fn applied(op: char, x: i64, y: i64) -> Outcome {
    if op == '+' {
        ranged(x + y)
    } else if op == '-' {
        ranged(x - y)
    } else if op == '*' {
        ranged(x * y)
    } else if op == '/' && y != 0 {
        ranged(quotient(x as int, y as int))
    } else {
        Outcome::Undefined
    }
}

pub fn apply(op: char, x: i64, y: i64) -> (r: Outcome)
    ensures
        r == applied(op, x, y),
{
    let v: Option<i64> = if op == '+' {
        x.checked_add(y)
    } else if op == '-' {
        x.checked_sub(y)
    } else if op == '*' {
        x.checked_mul(y)
    } else if op == '/' && y != 0 {
        x.checked_div(y)
    } else {
        return Outcome::Undefined;
    };
    match v {
        Some(v) => Outcome::Value(v),
        None => Outcome::OutOfRange,
    }
}

/// The value of a tree; the operands are evaluated from left to right as far as they have values.
pub open spec fn tree_value(n: Node) -> Outcome
    decreases n,
{
    match n {
        Node::Leaf(v) => Outcome::Value(v),
        Node::Op(op, a, b, _, _) => match tree_value(*a) {
            Outcome::Value(x) => match tree_value(*b) {
                Outcome::Value(y) => applied(op, x, y),
                o => o,
            },
            o => o,
        },
    }
}

/// Every child index names a node.
pub open spec fn links_ok(nodes: Seq<Flat>) -> bool {
    forall|i: int| 0 <= i < nodes.len() ==> (#[trigger] nodes[i] matches Flat::Op(_, a, c) ==> a < nodes.len() && c
        < nodes.len())
}

/// The value of node `idx` under the budget `b`; an operator that the budget does not reach has its cut value. The
/// left operand is evaluated first, and the right one only when the left one has a value.
pub open spec fn flat_value(nodes: Seq<Flat>, idx: int, b: int, cuts: Map<usize, i64>) -> Outcome
    decreases b,
{
    match nodes[idx] {
        Flat::Leaf(v) => Outcome::Value(v),
        Flat::Op(op, a, c) => if b <= 0 {
            if cuts.contains_key(idx as usize) {
                Outcome::Value(cuts[idx as usize])
            } else {
                Outcome::Undefined
            }
        } else {
            match flat_value(nodes, a as int, b - 1, cuts) {
                Outcome::Value(x) => match flat_value(nodes, c as int, b - 1, cuts) {
                    Outcome::Value(y) => applied(op, x, y),
                    o => o,
                },
                o => o,
            }
        },
    }
}

/// Evaluates node `idx` with recursion budget `b`.
pub fn eval_bounded(nodes: &[Flat], idx: usize, b: i64, cuts: &HashMap<usize, i64>) -> (r: Outcome)
    requires
        idx < nodes@.len(),
        links_ok(nodes@),
    ensures
        r == flat_value(nodes@, idx as int, b as int, cuts@),
    decreases (if b > 0 { b as int } else { 0 }),
{
    assert(nodes@[idx as int] matches Flat::Op(_, a, c) ==> a < nodes@.len() && c < nodes@.len());
    match &nodes[idx] {
        Flat::Leaf(v) => Outcome::Value(*v),
        Flat::Op(op, a, c) => {
            if b <= 0 {
                match cuts.get(&idx) {
                    Some(v) => Outcome::Value(*v),
                    None => Outcome::Undefined,
                }
            } else {
                match eval_bounded(nodes, *a, b - 1, cuts) {
                    Outcome::Value(x) => match eval_bounded(nodes, *c, b - 1, cuts) {
                        Outcome::Value(y) => apply(*op, x, y),
                        o => o,
                    },
                    o => o,
                }
            }
        },
    }
}

/// A program that reproduces an answer: the budget, and per cut node its index, its value, and whether the value
/// was taken from the context.
pub struct Abduction {
    pub depth: i64,
    pub cuts: Vec<(usize, i64, bool)>,
}

/// The operator nodes at depth `d`, among the first `k` nodes.
pub open spec fn frontier(nodes: Seq<Flat>, depth: Seq<usize>, d: int, k: int) -> Seq<usize>
    decreases k,
{
    if k <= 0 {
        Seq::empty()
    } else {
        let rest = frontier(nodes, depth, d, k - 1);
        if (depth[k - 1] as i64) as int == d && nodes[k - 1] is Op {
            rest.push((k - 1) as usize)
        } else {
            rest
        }
    }
}

/// The numbers of a sequence, each once, in increasing order.
pub open spec fn sorted_distinct(s: Seq<i64>) -> Seq<i64>
    decreases s.len(),
{
    if s.len() == 0 {
        Seq::empty()
    } else {
        placed(sorted_distinct(s.drop_last()), s.last())
    }
}

/// A number put at its place in an increasing sequence, unless it is there already.
pub open spec fn placed(s: Seq<i64>, v: i64) -> Seq<i64>
    decreases s.len(),
{
    if s.len() == 0 || s.last() < v {
        s.push(v)
    } else if s.last() == v {
        s
    } else {
        placed(s.drop_last(), v).push(s.last())
    }
}

/// The values that are tried when the context has none that fits.
pub open spec fn small_numbers() -> Seq<i64> {
    Seq::new(51, |i: int| i as i64)
}

/// The values of the cut nodes, by node.
pub open spec fn assigned(cut: Seq<usize>, vals: Seq<i64>) -> Map<usize, i64>
    decreases vals.len(),
{
    if vals.len() == 0 {
        Map::empty()
    } else {
        assigned(cut, vals.drop_last()).insert(cut[vals.len() - 1], vals.last())
    }
}

/// With these values at the cut nodes, the evaluation under the budget `d` gives the answer. One that leaves the
/// 64-bit range gives none.
pub open spec fn gives(nodes: Seq<Flat>, d: int, answer: i64, cut: Seq<usize>, vals: Seq<i64>) -> bool {
    flat_value(nodes, 0, d, assigned(cut, vals)) == Outcome::Value(answer)
}

/// The first values of the pool that give the answer when the cut nodes from the first on have the chosen ones.
pub open spec fn first_from(
    nodes: Seq<Flat>,
    d: int,
    answer: i64,
    cut: Seq<usize>,
    pool: Seq<i64>,
    chosen: Seq<i64>,
) -> Option<Seq<i64>>
    decreases cut.len() - chosen.len(), pool.len() + 1,
{
    if chosen.len() < cut.len() {
        first_among(nodes, d, answer, cut, pool, chosen, 0)
    } else if gives(nodes, d, answer, cut, chosen) {
        Some(chosen)
    } else {
        None
    }
}

/// The same, where the next cut node has a value of the pool from the index `i` on.
pub open spec fn first_among(
    nodes: Seq<Flat>,
    d: int,
    answer: i64,
    cut: Seq<usize>,
    pool: Seq<i64>,
    chosen: Seq<i64>,
    i: int,
) -> Option<Seq<i64>>
    decreases cut.len() - chosen.len(), pool.len() - i,
{
    if chosen.len() >= cut.len() || i < 0 || i >= pool.len() {
        None
    } else {
        match first_from(nodes, d, answer, cut, pool, chosen.push(pool[i])) {
            Some(vals) => Some(vals),
            None => first_among(nodes, d, answer, cut, pool, chosen, i + 1),
        }
    }
}

/// The first values of the pool, in lexicographic order of their indices, that give the answer at the cut nodes.
pub open spec fn first_values(
    nodes: Seq<Flat>,
    d: int,
    answer: i64,
    cut: Seq<usize>,
    pool: Seq<i64>,
) -> Option<Seq<i64>> {
    first_from(nodes, d, answer, cut, pool, Seq::empty())
}

/// Cut nodes with their values and where the values came from.
pub open spec fn labelled(cut: Seq<usize>, vals: Seq<i64>, from_context: bool) -> Seq<(usize, i64, bool)> {
    Seq::new(vals.len(), |i: int| (cut[i], vals[i], from_context))
}

/// The cuts with which the budget `d` gives the answer: values for the operators at that depth, from the context if
/// that is possible.
pub open spec fn level_cuts(
    nodes: Seq<Flat>,
    depth: Seq<usize>,
    d: int,
    answer: i64,
    literals: Seq<i64>,
) -> Option<Seq<(usize, i64, bool)>> {
    let cut = frontier(nodes, depth, d, nodes.len() as int);
    match first_values(nodes, d, answer, cut, sorted_distinct(literals)) {
        Some(vals) => Some(labelled(cut, vals, true)),
        None => match first_values(nodes, d, answer, cut, small_numbers()) {
            Some(vals) => Some(labelled(cut, vals, false)),
            None => None,
        },
    }
}

/// The deepest budget, from `d` down, that gives the answer, with its cuts.
pub open spec fn deepest_from(
    nodes: Seq<Flat>,
    depth: Seq<usize>,
    d: int,
    answer: i64,
    literals: Seq<i64>,
) -> Option<(int, Seq<(usize, i64, bool)>)>
    decreases d + 1,
{
    if d < 0 {
        None
    } else {
        match level_cuts(nodes, depth, d, answer, literals) {
            Some(cuts) => Some((d, cuts)),
            None => deepest_from(nodes, depth, d - 1, answer, literals),
        }
    }
}

/// The greatest number of a sequence, 0 for the empty one.
pub open spec fn greatest(s: Seq<usize>) -> usize
    decreases s.len(),
{
    if s.len() == 0 {
        0
    } else {
        let m = greatest(s.drop_last());
        if s.last() >= m { s.last() } else { m }
    }
}

/// What abduction finds: the deepest budget not over the greatest depth that gives the answer, with its cuts.
pub open spec fn abducted(
    nodes: Seq<Flat>,
    depth: Seq<usize>,
    answer: i64,
    literals: Seq<i64>,
) -> Option<(int, Seq<(usize, i64, bool)>)> {
    deepest_from(nodes, depth, (greatest(depth) as i64) as int, answer, literals)
}

pub fn max_depth(depth: &[usize]) -> (m: usize)
    ensures
        m == greatest(depth@),
{
    let mut m: usize = 0;
    for i in 0..depth.len()
        invariant
            m == greatest(depth@.take(i as int)),
    {
        assert(depth@.take(i + 1).drop_last() =~= depth@.take(i as int));
        if depth[i] >= m {
            m = depth[i];
        }
    }
    assert(depth@.take(depth.len() as int) =~= depth@);
    m
}

/// Puts a number at its place in an increasing vector, unless it is there already.
fn place(v: &mut Vec<i64>, x: i64)
    ensures
        final(v)@ == placed(old(v)@, x),
{
    let mut k: usize = v.len();
    let ghost all = v@;
    assert(all.take(k as int) =~= all);
    assert(all.skip(k as int) =~= Seq::<i64>::empty());
    assert(placed(all, x) =~= placed(all, x) + Seq::<i64>::empty());
    while k > 0 && v[k - 1] > x
        invariant
            k <= v@.len(),
            v@ == all,
            placed(all, x) == placed(all.take(k as int), x) + all.skip(k as int),
        decreases k,
    {
        proof {
            let head = all.take(k as int);
            assert(head.drop_last() =~= all.take(k - 1));
            assert(placed(head, x) == placed(all.take(k - 1), x).push(head.last()));
            assert(placed(all.take(k - 1), x).push(head.last()) + all.skip(k as int) =~= placed(all.take(k - 1), x)
                + all.skip(k - 1));
        }
        k -= 1;
    }
    if k > 0 && v[k - 1] == x {
        assert(all.take(k as int) + all.skip(k as int) =~= all);
        return;
    }
    v.insert(k, x);
    assert(v@ =~= all.take(k as int).push(x) + all.skip(k as int));
}

pub fn distinct_literals(literals: &[i64]) -> (v: Vec<i64>)
    ensures
        v@ == sorted_distinct(literals@),
{
    let mut v: Vec<i64> = Vec::new();
    for i in 0..literals.len()
        invariant
            v@ == sorted_distinct(literals@.take(i as int)),
    {
        assert(literals@.take(i + 1).drop_last() =~= literals@.take(i as int));
        place(&mut v, literals[i]);
    }
    assert(literals@.take(literals.len() as int) =~= literals@);
    v
}

fn frontier_of(nodes: &[Flat], depth: &[usize], d: i64) -> (v: Vec<usize>)
    requires
        depth@.len() >= nodes@.len(),
    ensures
        v@ == frontier(nodes@, depth@, d as int, nodes@.len() as int),
{
    let mut v: Vec<usize> = Vec::new();
    for i in 0..nodes.len()
        invariant
            depth@.len() >= nodes@.len(),
            v@ == frontier(nodes@, depth@, d as int, i as int),
    {
        let is_op = match &nodes[i] {
            Flat::Op(_, _, _) => true,
            Flat::Leaf(_) => false,
        };
        if is_op && #[verifier::truncate] (depth[i] as i64) == d {
            v.push(i);
        }
    }
    v
}

fn label(cut: &[usize], vals: &[i64], from_context: bool) -> (v: Vec<(usize, i64, bool)>)
    requires
        vals@.len() <= cut@.len(),
    ensures
        v@ == labelled(cut@, vals@, from_context),
{
    let mut v: Vec<(usize, i64, bool)> = Vec::new();
    for i in 0..vals.len()
        invariant
            vals@.len() <= cut@.len(),
            v@ == labelled(cut@, vals@, from_context).take(i as int),
    {
        v.push((cut[i], vals[i], from_context));
    }
    assert(v@ =~= labelled(cut@, vals@, from_context));
    v
}

fn level(nodes: &[Flat], depth: &[usize], d: i64, answer: i64, literals: &[i64], lits: &[i64], small: &[i64]) -> (r:
    Option<Vec<(usize, i64, bool)>>)
    requires
        nodes@.len() > 0,
        depth@.len() >= nodes@.len(),
        links_ok(nodes@),
        d >= 0,
        lits@ == sorted_distinct(literals@),
        small@ == small_numbers(),
    ensures
        match (r, level_cuts(nodes@, depth@, d as int, answer, literals@)) {
            (Some(v), Some(w)) => v@ == w,
            (None, None) => true,
            _ => false,
        },
{
    let cut = frontier_of(nodes, depth, d);
    proof {
        pool_is_sorted(literals@);
        first_is_first(nodes@, d as int, answer, cut@, lits@);
        first_is_first(nodes@, d as int, answer, cut@, small@);
    }
    match search_values(nodes, depth, d, answer, cut.as_slice(), lits) {
        Some(vals) => Some(label(cut.as_slice(), vals.as_slice(), true)),
        None => match search_values(nodes, depth, d, answer, cut.as_slice(), small) {
            Some(vals) => Some(label(cut.as_slice(), vals.as_slice(), false)),
            None => None,
        },
    }
}

/// An abduction is the one that its model describes.
pub open spec fn abduction_is(r: Abduction, s: (int, Seq<(usize, i64, bool)>)) -> bool {
    r.depth == s.0 && r.cuts@ == s.1
}

/// Abduces the program that reproduces `answer`: the deepest budget with which recursing that far, and taking
/// retrieved values where it ends, gives the answer. The values come from `literals` if possible, else they are
/// small numbers. Values with which the evaluation leaves the 64-bit range do not give the answer.
pub fn abduce(nodes: &[Flat], depth: &[usize], answer: i64, literals: &[i64]) -> (r: Option<Abduction>)
    requires
        nodes@.len() > 0,
        depth@.len() >= nodes@.len(),
        links_ok(nodes@),
    ensures
        match r {
            Some(a) => abducted(nodes@, depth@, answer, literals@) matches Some(s) && abduction_is(a, s),
            None => abducted(nodes@, depth@, answer, literals@) is None,
        },
{
    let lits = distinct_literals(literals);
    let mut small: Vec<i64> = Vec::new();
    for k in 0..51i64
        invariant
            small@ == small_numbers().take(k as int),
    {
        small.push(k);
    }
    assert(small@ =~= small_numbers());
    let mut d: i64 = #[verifier::truncate] (max_depth(depth) as i64);
    while d >= 0
        invariant
            -0x8000_0000_0000_0000 <= d,
            nodes@.len() > 0,
            depth@.len() >= nodes@.len(),
            links_ok(nodes@),
            lits@ == sorted_distinct(literals@),
            small@ == small_numbers(),
            abducted(nodes@, depth@, answer, literals@) == deepest_from(nodes@, depth@, d as int, answer, literals@),
        decreases d + 1,
    {
        match level(nodes, depth, d, answer, literals, lits.as_slice(), small.as_slice()) {
            Some(cuts) => {
                return Some(Abduction { depth: d, cuts });
            },
            None => {},
        }
        d -= 1;
    }
    None
}

} // verus!
