//! How faithfully a bounded recursive program reproduces a model, depth by depth.
use vstd::prelude::*;
use crate::recursion_dl::{
    abduce, abducted, abduction_is, flat_depths, flat_lens, flat_nodes, flatten, greatest, max_depth, parse_target, target_from,
    Abduction, Flat, Node,
};
use crate::recursion_laws::flat_links;
use crate::recursion_probe::{atom_view, atomize, atoms_of};
use crate::text::{chars_of, spells};

verus! {

/// The text, split into atoms, reads as this expression.
pub open spec fn reads_as(text: Seq<char>, n: Option<Node>) -> bool {
    exists|pieces: Seq<String>, atoms: Seq<(String, usize)>|
        pieces.len() == 1 && pieces[0]@ == text && #[trigger] atom_view(atoms) == #[trigger] atoms_of(pieces, false)
            && n == target_from(atoms, 0, None)
}

/// Reads the last expression of a text.
pub fn parse_str(text: &str) -> (r: Option<Node>)
    ensures
        reads_as(text@, r),
{
    let mut pieces: Vec<String> = Vec::new();
    pieces.push(String::from_str(text));
    let atoms = atomize(pieces.as_slice(), false);
    let r = parse_target(atoms.as_slice());
    assert(atom_view(atoms@) == atoms_of(pieces@, false) && pieces@[0]@ == text@);
    r
}

/// What an abduction found for a tree, and how deep the tree is.
pub open spec fn analysis(tree: Node, answer: i64, literals: Seq<i64>) -> Option<(int, Seq<(usize, i64, bool)>)> {
    abducted(flat_nodes(tree, 0), flat_depths(tree, 0), answer, literals)
}

/// Abduces the program for a tree and an answer, and gives the depth of the tree.
pub fn analyze(tree: &Node, answer: i64, literals: &[i64]) -> (r: (Option<Abduction>, usize))
    ensures
        match (r.0, analysis(*tree, answer, literals@)) {
            (Some(a), Some(s)) => abduction_is(a, s),
            (None, None) => true,
            _ => false,
        },
        r.1 == greatest(flat_depths(*tree, 0)),
{
    let mut nodes: Vec<Flat> = Vec::new();
    let mut depth: Vec<usize> = Vec::new();
    flatten(tree, &mut nodes, &mut depth, 0);
    let count: usize = nodes.len();
    proof {
        flat_lens(*tree, 0, 0);
        assert(nodes@ =~= flat_nodes(*tree, 0));
        assert(depth@ =~= flat_depths(*tree, 0));
        flat_links(*tree);
    }
    (abduce(nodes.as_slice(), depth.as_slice(), answer, literals), max_depth(depth.as_slice()))
}

/// A program that only recurses: no value is retrieved, and the recursion goes to the bottom of the tree.
pub open spec fn is_clean(depth: int, cuts: Seq<(usize, i64, bool)>, maxd: nat) -> bool {
    cuts.len() == 0 && depth == maxd
}

pub fn clean_program(a: &Abduction, maxd: usize) -> (r: bool)
    ensures
        r == is_clean(a.depth as int, a.cuts@, maxd as nat),
{
    a.cuts.len() == 0 && a.depth >= 0 && a.depth as u64 == maxd as u64
}

/// Some retrieved value stands in the context.
pub open spec fn retrieves(cuts: Seq<(usize, i64, bool)>) -> bool {
    exists|i: int| 0 <= i < cuts.len() && (#[trigger] cuts[i]).2
}

fn has_context_cut(cuts: &[(usize, i64, bool)]) -> (r: bool)
    ensures
        r == retrieves(cuts@),
{
    let mut i: usize = 0;
    while i < cuts.len()
        invariant
            i <= cuts@.len(),
            forall|k: int| 0 <= k < i ==> !(#[trigger] cuts@[k]).2,
        decreases cuts.len() - i,
    {
        if cuts[i].2 {
            return true;
        }
        i += 1;
    }
    false
}

/// The counts of one depth: all answers; the right and the wrong ones; those that a program reproduces, by
/// recursion alone or with cuts; those that none does; the budgets in all; and the wrong answers whose program
/// retrieves from the context.
#[derive(Clone, Copy, PartialEq, Eq, Structural)]
pub struct Agg {
    pub n: usize,
    pub correct: usize,
    pub faithful: usize,
    pub clean: usize,
    pub cut: usize,
    pub semi: usize,
    pub sumd: i64,
    pub err: usize,
    pub err_cut: usize,
}

pub open spec fn bit(b: bool) -> int {
    if b { 1 } else { 0 }
}

impl Agg {
    /// The counts add up.
    pub open spec fn adds_up(self) -> bool {
        &&& self.correct + self.err == self.n
        &&& self.faithful + self.semi == self.n
        &&& self.clean + self.cut == self.faithful
        &&& self.err_cut <= self.err
        &&& self.err_cut <= self.cut
    }

    /// `next` is this count and one more answer.
    pub open spec fn counts(self, next: Agg, right: bool, found: Option<(int, Seq<(usize, i64, bool)>)>, maxd: nat) -> bool {
        let clean = found matches Some((d, cuts)) && is_clean(d, cuts, maxd);
        let cut = found is Some && !clean;
        let from_context = cut && !right && (found matches Some((_, cuts)) && retrieves(cuts));
        &&& next.n == self.n + 1
        &&& next.correct == self.correct + bit(right)
        &&& next.err == self.err + bit(!right)
        &&& next.faithful == self.faithful + bit(found is Some)
        &&& next.semi == self.semi + bit(found is None)
        &&& next.clean == self.clean + bit(clean)
        &&& next.cut == self.cut + bit(cut)
        &&& next.err_cut == self.err_cut + bit(from_context)
        &&& next.sumd == self.sumd + (match found {
            Some((d, _)) => d,
            None => 0,
        })
    }

    pub fn new() -> (a: Agg)
        ensures
            a.n == 0,
            a.sumd == 0,
            a.adds_up(),
    {
        Agg { n: 0, correct: 0, faithful: 0, clean: 0, cut: 0, semi: 0, sumd: 0, err: 0, err_cut: 0 }
    }

    /// Counts one answer: whether it was right, and the program that reproduces it, if there is one.
    pub fn record(&mut self, right: bool, abd: &Option<Abduction>, maxd: usize)
        requires
            old(self).adds_up(),
            old(self).n < usize::MAX,
            abd matches Some(a) ==> i64::MIN <= old(self).sumd + a.depth <= i64::MAX,
        ensures
            final(self).adds_up(),
            old(self).counts(
                *final(self),
                right,
                match abd {
                    Some(a) => Some((a.depth as int, a.cuts@)),
                    None => None,
                },
                maxd as nat,
            ),
    {
        self.n = self.n + 1;
        if right {
            self.correct = self.correct + 1;
        } else {
            self.err = self.err + 1;
        }
        match abd {
            Some(a) => {
                self.faithful = self.faithful + 1;
                self.sumd = self.sumd + a.depth;
                if clean_program(a, maxd) {
                    self.clean = self.clean + 1;
                } else {
                    self.cut = self.cut + 1;
                    if !right && has_context_cut(a.cuts.as_slice()) {
                        self.err_cut = self.err_cut + 1;
                    }
                }
            },
            None => {
                self.semi = self.semi + 1;
            },
        }
    }

    /// Adds the counts of another depth; the budgets are not added, a mean over several depths says nothing.
    pub fn merge(&mut self, other: &Agg)
        requires
            old(self).adds_up(),
            other.adds_up(),
            old(self).n + other.n <= usize::MAX,
        ensures
            final(self).adds_up(),
            final(self).n == old(self).n + other.n,
            final(self).correct == old(self).correct + other.correct,
            final(self).faithful == old(self).faithful + other.faithful,
            final(self).clean == old(self).clean + other.clean,
            final(self).cut == old(self).cut + other.cut,
            final(self).semi == old(self).semi + other.semi,
            final(self).err == old(self).err + other.err,
            final(self).err_cut == old(self).err_cut + other.err_cut,
            final(self).sumd == old(self).sumd,
    {
        self.n = self.n + other.n;
        self.correct = self.correct + other.correct;
        self.faithful = self.faithful + other.faithful;
        self.clean = self.clean + other.clean;
        self.cut = self.cut + other.cut;
        self.semi = self.semi + other.semi;
        self.err = self.err + other.err;
        self.err_cut = self.err_cut + other.err_cut;
    }

    /// At least half of the answers were right.
    pub open spec fn holds_up(self) -> bool {
        self.n > 0 && 2 * self.correct >= self.n
    }
}

/// The effective depth: the deepest at which at least half of the answers are right, or zero. The counts of depth
/// `d` stand at index `d`; index zero is not used.
pub fn effective_depth(per: &[Agg]) -> (d: usize)
    requires
        forall|i: int| 0 <= i < per@.len() ==> (#[trigger] per@[i]).adds_up(),
    ensures
        d == 0 || (d < per@.len() && per@[d as int].holds_up()),
        forall|i: int| d < i < per@.len() ==> !(#[trigger] per@[i]).holds_up(),
{
    let mut d: usize = per.len();
    while d > 1
        invariant
            d <= per@.len(),
            forall|i: int| 0 <= i < per@.len() ==> (#[trigger] per@[i]).adds_up(),
            forall|i: int| d <= i < per@.len() ==> !(#[trigger] per@[i]).holds_up(),
        decreases d,
    {
        let a: Agg = per[d - 1];
        assert(per@[d - 1].adds_up());
        if a.n > 0 && a.correct >= a.n - a.correct {
            return d - 1;
        }
        d -= 1;
    }
    0
}

/// The operators of a family of expressions, as it is measured.
pub open spec fn family_ops(name: Seq<char>) -> Seq<char> {
    if name == "minmax"@ {
        seq!['<', '>']
    } else if name == "bool"@ {
        seq!['&', '|']
    } else if name == "mod"@ {
        seq!['%', '+']
    } else if name == "addonly"@ {
        seq!['+']
    } else {
        seq!['+', '-', '*']
    }
}

/// The solved examples that introduce a family.
pub open spec fn family_prime(name: Seq<char>) -> Seq<char> {
    if name == "minmax"@ {
        "(> 4 9) = 9\n(< 4 9) = 4\n(> 8 2) = 8\n(< 8 2) = 2\n(> (< 4 9) 6) = 6\n(< (> 1 3) 2) = 2\n"@
    } else if name == "bool"@ {
        "(& 1 0) = 0\n(| 1 0) = 1\n(& 1 1) = 1\n(| 0 0) = 0\n(| (& 1 0) 1) = 1\n(& (| 0 1) 0) = 0\n"@
    } else if name == "mod"@ {
        "(% 7 3) = 1\n(% 8 4) = 0\n(% 9 2) = 1\n(% (+ 5 4) 3) = 0\n(+ (% 7 3) 2) = 3\n"@
    } else if name == "addonly"@ {
        "(+ 1 2) = 3\n(+ 3 4) = 7\n(+ (+ 1 2) 3) = 6\n(+ 2 (+ 1 1)) = 4\n"@
    } else {
        "(+ 1 2) = 3\n(* 2 3) = 6\n(- 9 4) = 5\n(* 2 (+ 1 2)) = 6\n(- 8 (+ 1 2)) = 5\n"@
    }
}

/// The greatest number of a family: truth values have two.
pub open spec fn family_maxv(name: Seq<char>, maxv: i64) -> i64 {
    if name == "bool"@ { 1 } else { maxv }
}

/// The operators, the examples and the greatest number of a family that is measured; an unknown name is arithmetic.
pub fn measure_family(name: &str, maxv: i64) -> (r: (Vec<char>, &'static str, i64))
    ensures
        r.0@ == family_ops(name@),
        r.1@ == family_prime(name@),
        r.2 == family_maxv(name@, maxv),
{
    let b = chars_of(name);
    let limit: i64 = family_limit(b.as_slice(), maxv);
    if spells(b.as_slice(), "minmax") {
        (
            vec!['<', '>'],
            "(> 4 9) = 9\n(< 4 9) = 4\n(> 8 2) = 8\n(< 8 2) = 2\n(> (< 4 9) 6) = 6\n(< (> 1 3) 2) = 2\n",
            limit,
        )
    } else if spells(b.as_slice(), "bool") {
        (
            vec!['&', '|'],
            "(& 1 0) = 0\n(| 1 0) = 1\n(& 1 1) = 1\n(| 0 0) = 0\n(| (& 1 0) 1) = 1\n(& (| 0 1) 0) = 0\n",
            limit,
        )
    } else if spells(b.as_slice(), "mod") {
        (vec!['%', '+'], "(% 7 3) = 1\n(% 8 4) = 0\n(% 9 2) = 1\n(% (+ 5 4) 3) = 0\n(+ (% 7 3) 2) = 3\n", limit)
    } else if spells(b.as_slice(), "addonly") {
        (vec!['+'], "(+ 1 2) = 3\n(+ 3 4) = 7\n(+ (+ 1 2) 3) = 6\n(+ 2 (+ 1 1)) = 4\n", limit)
    } else {
        (
            vec!['+', '-', '*'],
            "(+ 1 2) = 3\n(* 2 3) = 6\n(- 9 4) = 5\n(* 2 (+ 1 2)) = 6\n(- 8 (+ 1 2)) = 5\n",
            limit,
        )
    }
}

fn family_limit(name: &[char], maxv: i64) -> (r: i64)
    ensures
        r == family_maxv(name@, maxv),
{
    if spells(name, "bool") { 1 } else { maxv }
}

/// The operators of a family of two-level expressions.
pub open spec fn two_level_ops(name: Seq<char>) -> Seq<char> {
    if name == "minmax"@ {
        seq!['<', '>']
    } else if name == "bool"@ {
        seq!['&', '|']
    } else {
        seq!['+', '*', '-']
    }
}

/// The solved examples that introduce a family of two-level expressions.
pub open spec fn two_level_prime(name: Seq<char>) -> Seq<char> {
    if name == "minmax"@ {
        "(> 4 9) = 9\n(< 4 9) = 4\n(> 8 2) = 8\n(< 8 2) = 2\n(> (< 4 9) 6) = 6\n"@
    } else if name == "bool"@ {
        "(& 1 0) = 0\n(| 1 0) = 1\n(& 1 1) = 1\n(| 0 0) = 0\n(| (& 1 0) 1) = 1\n"@
    } else {
        "(+ 2 3) = 5\n(* 2 4) = 8\n(- 9 4) = 5\n(+ (* 2 3) 1) = 7\n"@
    }
}

/// The operators, the examples and the greatest number of a family of two-level expressions.
pub fn two_level_family(name: &str, maxv: i64) -> (r: (Vec<char>, &'static str, i64))
    ensures
        r.0@ == two_level_ops(name@),
        r.1@ == two_level_prime(name@),
        r.2 == family_maxv(name@, maxv),
{
    let b = chars_of(name);
    let limit: i64 = family_limit(b.as_slice(), maxv);
    if spells(b.as_slice(), "minmax") {
        (vec!['<', '>'], "(> 4 9) = 9\n(< 4 9) = 4\n(> 8 2) = 8\n(< 8 2) = 2\n(> (< 4 9) 6) = 6\n", limit)
    } else if spells(b.as_slice(), "bool") {
        (vec!['&', '|'], "(& 1 0) = 0\n(| 1 0) = 1\n(& 1 1) = 1\n(| 0 0) = 0\n(| (& 1 0) 1) = 1\n", limit)
    } else {
        (vec!['+', '*', '-'], "(+ 2 3) = 5\n(* 2 4) = 8\n(- 9 4) = 5\n(+ (* 2 3) 1) = 7\n", limit)
    }
}

} // verus!
