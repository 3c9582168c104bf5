//! What holds of every operator with its operands: how they are read, folded and evaluated.
use vstd::prelude::*;
use crate::datalog_laws::exact;
use crate::recursion_dl::{fold_kids, kids_from, parse_from, tree_value, Node, Outcome};
use crate::recursion_laws::{atom_count, starts_no_bracket, written, written_is_read_back};
use crate::recursion_probe::{applied_any, true_value};
use crate::text::i64_value;

verus! {

/// How many atoms some expressions are written with.
pub open spec fn atoms_of_all(kids: Seq<Node>) -> nat
    decreases kids.len(),
{
    if kids.len() == 0 { 0 } else { atom_count(kids[0]) + atoms_of_all(kids.skip(1)) }
}

/// The atoms from position `p` on write the expressions, one behind the other.
pub open spec fn all_written(atoms: Seq<(String, usize)>, p: int, kids: Seq<Node>) -> bool
    decreases kids.len(),
{
    kids.len() == 0 || (written(atoms, p, kids[0]) && all_written(atoms, p + atom_count(kids[0]), kids.skip(1)))
}

/// Operands under one operator: what there is so far with the next of them, from `i` on, and so on.
pub open spec fn to_the_left(op: char, so_far: Node, kids: Seq<Node>, i: int, open: usize, close: usize) -> Node
    decreases kids.len() - i,
{
    if i < 0 || i >= kids.len() {
        so_far
    } else {
        to_the_left(op, Node::Op(op, Box::new(so_far), Box::new(kids[i]), open, close), kids, i + 1, open, close)
    }
}

proof fn folds_agree(op: char, kids: Seq<Node>, i: int, open: usize, close: usize)
    requires
        0 < i <= kids.len(),
    ensures
        fold_kids(op, kids, open, close) == to_the_left(op, fold_kids(op, kids.take(i), open, close), kids, i, open, close),
    decreases kids.len() - i,
{
    if i == kids.len() {
        assert(kids.take(i) =~= kids);
    } else {
        assert(kids.take(i + 1).drop_last() =~= kids.take(i));
        assert(kids.take(i + 1).last() == kids[i]);
        folds_agree(op, kids, i + 1, open, close);
    }
}

proof fn operands_are_read(atoms: Seq<(String, usize)>, p: int, kids: Seq<Node>)
    requires
        all_written(atoms, p, kids),
        0 <= p,
        p + atoms_of_all(kids) < atoms.len(),
        atoms[p + atoms_of_all(kids)].0@ == seq![')'],
    ensures
        kids_from(atoms, p) == (Some(kids), p + atoms_of_all(kids)),
    decreases kids.len(),
{
    if kids.len() == 0 {
        assert(kids =~= Seq::empty());
    } else {
        let q = p + atom_count(kids[0]);
        written_is_read_back(atoms, p, kids[0]);
        starts_no_bracket(atoms, p, kids[0]);
        operands_are_read(atoms, q, kids.skip(1));
        assert(seq![kids[0]] + kids.skip(1) =~= kids);
    }
}

/// An operator with any number of operands is read as they stand, folded to the left; one operand stands for itself.
pub proof fn operands_are_folded_to_the_left(atoms: Seq<(String, usize)>, p: int, op: char, kids: Seq<Node>)
    requires
        0 <= p,
        kids.len() > 0,
        p + 2 + atoms_of_all(kids) < atoms.len(),
        atoms[p].0@ == seq!['('],
        atoms[p + 1].0@.len() > 0,
        atoms[p + 1].0@[0] == op,
        all_written(atoms, p + 2, kids),
        atoms[p + 2 + atoms_of_all(kids)].0@ == seq![')'],
    ensures
        ({
            let end = p + 2 + atoms_of_all(kids);
            parse_from(atoms, p) == (Some(to_the_left(op, kids[0], kids, 1, atoms[p].1, atoms[end].1)), end + 1)
        }),
{
    operands_are_read(atoms, p + 2, kids);
    folds_agree(op, kids, 1, atoms[p].1, atoms[p + 2 + atoms_of_all(kids)].1);
    assert(kids.take(1)[0] == kids[0]);
}

/// An atom that is neither a bracket nor a numeral is passed over.
pub proof fn other_atoms_are_skipped(atoms: Seq<(String, usize)>, p: int)
    requires
        0 <= p < atoms.len(),
        atoms[p].0@ != seq!['('],
        i64_value(atoms[p].0@) is None,
    ensures
        parse_from(atoms, p) == parse_from(atoms, p + 1),
{
}

/// The sum of the numbers behind the first.
pub open spec fn rest_sum(xs: Seq<int>) -> int
    decreases xs.len(),
{
    if xs.len() <= 1 { 0 } else { rest_sum(xs.drop_last()) + xs.last() }
}

/// A difference of several numbers takes all but the first from the first, and their sum adds them to it.
pub proof fn differences_take_from_the_first(kids: Seq<Node>, xs: Seq<int>, open: usize, close: usize)
    requires
        kids.len() > 0,
        xs.len() == kids.len(),
        forall|i: int| 0 <= i < kids.len() ==> exact(#[trigger] kids[i]) == Some(xs[i]),
    ensures
        exact(fold_kids('-', kids, open, close)) == Some(xs[0] - rest_sum(xs)),
        exact(fold_kids('+', kids, open, close)) == Some(xs[0] + rest_sum(xs)),
    decreases kids.len(),
{
    if kids.len() > 1 {
        let k = kids.drop_last();
        let x = xs.drop_last();
        assert forall|i: int| 0 <= i < k.len() implies exact(#[trigger] k[i]) == Some(x[i]) by {
            assert(k[i] == kids[i]);
        }
        differences_take_from_the_first(k, x, open, close);
        assert(exact(kids[kids.len() - 1]) == Some(xs[xs.len() - 1]));
    } else {
        assert(exact(kids[0]) == Some(xs[0]));
    }
}

/// Every operator of the tree is one of the four of arithmetic.
pub open spec fn is_arithmetic(n: Node) -> bool
    decreases n,
{
    match n {
        Node::Leaf(_) => true,
        Node::Op(op, a, b, _, _) => (op == '+' || op == '-' || op == '*' || op == '/') && is_arithmetic(*a) && is_arithmetic(*b),
    }
}

/// On the four operators of arithmetic the true value of a tree is that of the evaluator, and so the number that it stands
/// for.
pub proof fn true_values_are_exact(n: Node)
    requires
        is_arithmetic(n),
    ensures
        true_value(n) == tree_value(n),
        true_value(n) matches Outcome::Value(v) ==> exact(n) == Some(v as int),
    decreases n,
{
    crate::datalog_laws::evaluation_is_exact(n);
    if let Node::Op(op, a, b, _, _) = n {
        true_values_are_exact(*a);
        true_values_are_exact(*b);
    }
}

/// The true value of an operator is what it makes of the true values of its operands.
pub proof fn true_values_go_up(op: char, a: Node, b: Node, x: i64, y: i64, open: usize, close: usize)
    requires
        true_value(a) == Outcome::Value(x),
        true_value(b) == Outcome::Value(y),
    ensures
        true_value(Node::Op(op, Box::new(a), Box::new(b), open, close)) == applied_any(op, x, y),
{
}

} // verus!
