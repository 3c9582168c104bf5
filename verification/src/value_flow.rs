//! What a model holds in mind while it works on an expression: which numbers can be read off near the end of each
//! subexpression, and how they relate to the true values, to the operands and to the answer.
use vstd::prelude::*;
use crate::recursion_dl::Node;
use crate::recursion_probe::{collect_ops, ops_of};

verus! {

/// The root and the two subexpressions of a two-level expression: the first three operators, if there are so many.
pub fn subexpressions<'a>(tree: &'a Node) -> (r: Option<Vec<&'a Node>>)
    ensures
        match r {
            Some(v) => ops_of(tree).len() >= 3 && v@ == ops_of(tree).take(3),
            None => ops_of(tree).len() < 3,
        },
{
    let mut ops: Vec<&'a Node> = Vec::new();
    collect_ops(tree, &mut ops);
    assert(ops@ =~= ops_of(tree));
    if ops.len() < 3 {
        return None;
    }
    let mut v: Vec<&'a Node> = Vec::new();
    v.push(ops[0]);
    v.push(ops[1]);
    v.push(ops[2]);
    assert(v@ =~= ops_of(tree).take(3));
    Some(v)
}

/// Where the brackets of an operator stand.
pub open spec fn bracket_span(n: Node) -> (usize, usize) {
    match n {
        Node::Op(_, _, _, open, close) => (open, close),
        Node::Leaf(_) => (0, 0),
    }
}

/// The position of the closing bracket of each operator.
pub fn closes(ops: &[&Node]) -> (v: Vec<usize>)
    requires
        forall|i: int| 0 <= i < ops@.len() ==> *(#[trigger] ops@[i]) is Op,
    ensures
        v@ == ops@.map_values(|n: &Node| bracket_span(*n).1),
{
    let mut v: Vec<usize> = Vec::new();
    for i in 0..ops.len()
        invariant
            forall|i: int| 0 <= i < ops@.len() ==> *(#[trigger] ops@[i]) is Op,
            v@ == ops@.map_values(|n: &Node| bracket_span(*n).1).take(i as int),
    {
        let ghost all = ops@.map_values(|n: &Node| bracket_span(*n).1);
        assert(*ops@[i as int] is Op);
        if let Node::Op(_, _, _, _, c) = ops[i] {
            v.push(*c);
        }
        assert(all[i as int] == bracket_span(*ops@[i as int]).1);
        assert(v@ =~= all.take(i + 1));
    }
    assert(v@ =~= ops@.map_values(|n: &Node| bracket_span(*n).1));
    v
}

/// The collected operators of a tree are operators.
pub proof fn collected_are_operators(n: &Node)
    ensures
        forall|i: int| 0 <= i < ops_of(n).len() ==> *(#[trigger] ops_of(n)[i]) is Op,
    decreases *n,
{
    if let Node::Op(_, a, b, _, _) = *n {
        collected_are_operators(&*a);
        collected_are_operators(&*b);
        let (l, r) = (ops_of(&*a), ops_of(&*b));
        assert forall|i: int| 0 <= i < ops_of(n).len() implies *(#[trigger] ops_of(n)[i]) is Op by {
            if 1 <= i < 1 + l.len() {
                assert(ops_of(n)[i] == l[i - 1]);
            } else if i >= 1 + l.len() {
                assert(ops_of(n)[i] == r[i - 1 - l.len()]);
            }
        }
    }
}

/// The position `off` places before another; before the start it wraps around, to where nothing is ever read.
pub open spec fn before(pos: usize, off: int) -> usize {
    if pos >= off { (pos - off) as usize } else { (pos - off + usize::MAX + 1) as usize }
}

fn step_back(pos: usize, off: usize) -> (p: usize)
    requires
        off <= 2,
    ensures
        p == before(pos, off as int),
{
    pos.wrapping_sub(off)
}

/// A position is read: it is a closing bracket or one of the two places before it.
pub open spec fn is_near(closes: Seq<usize>, p: usize) -> bool {
    exists|i: int, off: int| 0 <= i < closes.len() && 0 <= off <= 2 && p == #[trigger] before(closes[i], off)
}

pub open spec fn increasing(v: Seq<usize>) -> bool {
    forall|i: int, j: int| 0 <= i < j < v.len() ==> v[i] < v[j]
}

/// Puts a position at its place in an increasing vector, unless it is there already.
fn place(v: &mut Vec<usize>, p: usize)
    requires
        increasing(old(v)@),
    ensures
        increasing(final(v)@),
        forall|x: usize| #[trigger] final(v)@.contains(x) == (old(v)@.contains(x) || x == p),
{
    let ghost was = v@;
    let mut at: usize = 0;
    while at < v.len() && v[at] < p
        invariant
            at <= v@.len(),
            v@ == was,
            increasing(was),
            forall|i: int| 0 <= i < at ==> (#[trigger] was[i]) < p,
        decreases v.len() - at,
    {
        at += 1;
    }
    if at < v.len() && v[at] == p {
        assert(was[at as int] == p);
        return;
    }
    v.insert(at, p);
    proof {
        assert(v@ =~= was.insert(at as int, p));
        assert forall|i: int, j: int| 0 <= i < j < v@.len() implies v@[i] < v@[j] by {
            let bi = if i < at { i } else { i - 1 };
            let bj = if j < at { j } else { j - 1 };
            if i != at {
                assert(v@[i] == was[bi]);
            }
            if j != at {
                assert(v@[j] == was[bj]);
            }
        }
        assert forall|x: usize| #[trigger] v@.contains(x) == (was.contains(x) || x == p) by {
            if was.contains(x) {
                let i = choose|i: int| 0 <= i < was.len() && was[i] == x;
                assert(v@[if i < at { i } else { i + 1 }] == x);
            }
            if x == p {
                assert(v@[at as int] == x);
            }
            if v@.contains(x) {
                let i = choose|i: int| 0 <= i < v@.len() && v@[i] == x;
                if i != at {
                    assert(was[if i < at { i } else { i - 1 }] == x);
                }
            }
        }
    }
}

/// The positions to read: the closing brackets and the two places before each, in order and without repetition.
pub fn reading_positions(closes: &[usize]) -> (v: Vec<usize>)
    ensures
        increasing(v@),
        forall|p: usize| #[trigger] v@.contains(p) == is_near(closes@, p),
{
    let mut v: Vec<usize> = Vec::new();
    assert(forall|p: usize| !is_near(closes@.take(0), p));
    for i in 0..closes.len()
        invariant
            increasing(v@),
            forall|p: usize| #[trigger] v@.contains(p) == is_near(closes@.take(i as int), p),
    {
        let c: usize = closes[i];
        let ghost was = v@;
        place(&mut v, step_back(c, 0));
        place(&mut v, step_back(c, 1));
        place(&mut v, step_back(c, 2));
        proof {
            let (s, t) = (closes@.take(i as int), closes@.take(i + 1));
            assert(t[i as int] == c);
            assert forall|p: usize| #[trigger] v@.contains(p) == is_near(t, p) by {
                assert(v@.contains(p) == (was.contains(p) || p == before(c, 0) || p == before(c, 1) || p == before(c, 2)));
                if is_near(s, p) {
                    let (k, off) = choose|k: int, off: int|
                        0 <= k < s.len() && 0 <= off <= 2 && p == #[trigger] before(s[k], off);
                    assert(p == before(t[k], off));
                }
                if is_near(t, p) {
                    let (k, off) = choose|k: int, off: int|
                        0 <= k < t.len() && 0 <= off <= 2 && p == #[trigger] before(t[k], off);
                    if k < i {
                        assert(p == before(s[k], off));
                    } else {
                        assert(off == 0 || off == 1 || off == 2);
                    }
                }
                if p == before(c, 0) {
                    assert(p == before(t[i as int], 0));
                } else if p == before(c, 1) {
                    assert(p == before(t[i as int], 1));
                } else if p == before(c, 2) {
                    assert(p == before(t[i as int], 2));
                }
            }
        }
    }
    assert(closes@.take(closes.len() as int) =~= closes@);
    v
}

/// A token that was read at a position, and the number that it spells, if it spells one.
#[derive(Clone, Copy, PartialEq, Eq, Structural)]
pub struct Reading {
    pub token: i64,
    pub value: Option<i64>,
}

/// The token that follows a position.
pub open spec fn next_token(ids: Seq<i64>, p: usize) -> Option<i64> {
    if p + 1 < ids.len() { Some(ids[p + 1]) } else { None }
}

/// The numbers that are held: those read, but for predictions of the token that follows.
pub open spec fn held(reads: Seq<Reading>, next: Option<i64>) -> Seq<i64>
    decreases reads.len(),
{
    if reads.len() == 0 {
        Seq::empty()
    } else {
        let rest = held(reads.drop_last(), next);
        let r = reads.last();
        match r.value {
            Some(v) => if next == Some(r.token) { rest } else { rest.push(v) },
            None => rest,
        }
    }
}

/// How often a number stands in a list.
pub open spec fn times(vals: Seq<i64>, v: i64) -> nat
    decreases vals.len(),
{
    if vals.len() == 0 {
        0
    } else {
        times(vals.drop_last(), v) + if vals.last() == v { 1nat } else { 0 }
    }
}

/// The numbers that are held at a position, nothing where it was not read.
pub open spec fn held_at(positions: Seq<usize>, reads: Seq<Vec<Reading>>, ids: Seq<i64>, p: usize) -> Seq<i64> {
    if positions.contains(p) {
        held(reads[positions.index_of(p)]@, next_token(ids, p))
    } else {
        Seq::empty()
    }
}

pub fn times_of(vals: &[i64], v: i64) -> (n: usize)
    ensures
        n == times(vals@, v),
        n <= vals@.len(),
{
    let mut n: usize = 0;
    for i in 0..vals.len()
        invariant
            n == times(vals@.take(i as int), v),
            n <= i,
    {
        assert(vals@.take(i + 1).drop_last() =~= vals@.take(i as int));
        if vals[i] == v {
            n += 1;
        }
    }
    assert(vals@.take(vals.len() as int) =~= vals@);
    n
}

pub(crate) proof fn absent_counts_zero(vals: Seq<i64>, v: i64)
    ensures
        times(vals, v) > 0 ==> vals.contains(v),
        times(vals, v) <= vals.len(),
    decreases vals.len(),
{
    if vals.len() > 0 {
        absent_counts_zero(vals.drop_last(), v);
        if vals.last() == v {
            assert(vals[vals.len() - 1] == v);
        } else if times(vals, v) > 0 {
            let init = vals.drop_last();
            let i = choose|i: int| 0 <= i < init.len() && init[i] == v;
            assert(vals[i] == v);
        }
    }
}

pub(crate) proof fn present_counts(vals: Seq<i64>, i: int)
    requires
        0 <= i < vals.len(),
    ensures
        times(vals, vals[i]) > 0,
    decreases vals.len(),
{
    if i < vals.len() - 1 {
        present_counts(vals.drop_last(), i);
        assert(vals.drop_last()[i] == vals[i]);
    }
}

/// A number that stands most often in a list, and how often; which of several is left open.
pub fn most_frequent(vals: &[i64]) -> (r: Option<(i64, usize)>)
    ensures
        match r {
            Some((v, n)) => n == times(vals@, v) && n > 0 && forall|w: i64| times(vals@, w) <= n,
            None => vals@.len() == 0,
        },
{
    let mut best: Option<(i64, usize)> = None;
    for i in 0..vals.len()
        invariant
            match best {
                Some((v, n)) => n == times(vals@, v) && n > 0 && forall|k: int|
                    0 <= k < i ==> times(vals@, #[trigger] vals@[k]) <= n,
                None => i == 0,
            },
    {
        let n: usize = times_of(vals, vals[i]);
        proof {
            present_counts(vals@, i as int);
        }
        let better = match best {
            Some((_, most)) => n > most,
            None => true,
        };
        if better {
            best = Some((vals[i], n));
        }
    }
    proof {
        if let Some((v, n)) = best {
            assert forall|w: i64| times(vals@, w) <= n by {
                absent_counts_zero(vals@, w);
                if times(vals@, w) > 0 {
                    let k = choose|k: int| 0 <= k < vals@.len() && vals@[k] == w;
                    assert(times(vals@, vals@[k]) <= n);
                }
            }
        }
    }
    best
}

fn held_values(reads: &[Reading], next: Option<i64>) -> (v: Vec<i64>)
    ensures
        v@ == held(reads@, next),
{
    let mut v: Vec<i64> = Vec::new();
    for i in 0..reads.len()
        invariant
            v@ == held(reads@.take(i as int), next),
    {
        assert(reads@.take(i + 1).drop_last() =~= reads@.take(i as int));
        let r: Reading = reads[i];
        let predicted = match next {
            Some(t) => t == r.token,
            None => false,
        };
        if let Some(x) = r.value {
            if !predicted {
                v.push(x);
            }
        }
    }
    assert(reads@.take(reads.len() as int) =~= reads@);
    v
}

fn values_at(positions: &[usize], reads: &[Vec<Reading>], ids: &[i64], p: usize) -> (v: Vec<i64>)
    requires
        increasing(positions@),
        positions@.len() == reads@.len(),
    ensures
        v@ == held_at(positions@, reads@, ids@, p),
{
    let n: usize = ids.len();
    let next: Option<i64> = if p < n && p + 1 < n { Some(ids[p + 1]) } else { None };
    for i in 0..positions.len()
        invariant
            increasing(positions@),
            positions@.len() == reads@.len(),
            next == next_token(ids@, p),
            forall|k: int| 0 <= k < i ==> positions@[k] != p,
    {
        if positions[i] == p {
            assert(positions@[i as int] == p);
            assert(positions@.index_of(p) == i) by {
                let k = positions@.index_of(p);
                assert(positions@[k] == p);
                if k < i {
                } else if k > i {
                    assert(positions@[i as int] < positions@[k]);
                }
            }
            return held_values(reads[i].as_slice(), next);
        }
    }
    Vec::new()
}

/// The number read near a position, with how far before it and how often: of the three places, the one at which some
/// number is held most often decides, the nearest of them where several do; it gives a number that is held there so
/// often.
pub open spec fn is_read_near(
    positions: Seq<usize>,
    reads: Seq<Vec<Reading>>,
    ids: Seq<i64>,
    pos: usize,
    r: Option<(i64, usize, usize)>,
) -> bool {
    match r {
        Some((v, off, n)) => {
            &&& off <= 2
            &&& n > 0
            &&& n == times(held_at(positions, reads, ids, before(pos, off as int)), v)
            &&& forall|o: int, w: i64|
                0 <= o <= 2 ==> (#[trigger] times(held_at(positions, reads, ids, before(pos, o)), w)) <= n
            &&& forall|o: int, w: i64|
                0 <= o < off ==> (#[trigger] times(held_at(positions, reads, ids, before(pos, o)), w)) < n
        },
        None => forall|o: int| 0 <= o <= 2 ==> (#[trigger] held_at(positions, reads, ids, before(pos, o))).len() == 0,
    }
}

/// Reads the number that is held near a position. Without `ids` nothing counts as a prediction of the next token.
pub fn read_near(positions: &[usize], reads: &[Vec<Reading>], ids: &[i64], pos: usize) -> (r: Option<(i64, usize, usize)>)
    requires
        increasing(positions@),
        positions@.len() == reads@.len(),
    ensures
        is_read_near(positions@, reads@, ids@, pos, r),
{
    let mut best: Option<(i64, usize, usize)> = None;
    for off in 0..3usize
        invariant
            increasing(positions@),
            positions@.len() == reads@.len(),
            match best {
                Some((v, at, n)) => {
                    &&& at < off
                    &&& n > 0
                    &&& n == times(held_at(positions@, reads@, ids@, before(pos, at as int)), v)
                    &&& forall|o: int, w: i64|
                        0 <= o < off ==> (#[trigger] times(held_at(positions@, reads@, ids@, before(pos, o)), w)) <= n
                    &&& forall|o: int, w: i64|
                        0 <= o < at ==> (#[trigger] times(held_at(positions@, reads@, ids@, before(pos, o)), w)) < n
                },
                None => forall|o: int|
                    0 <= o < off ==> (#[trigger] held_at(positions@, reads@, ids@, before(pos, o))).len() == 0,
            },
    {
        let vals = values_at(positions, reads, ids, step_back(pos, off));
        match most_frequent(vals.as_slice()) {
            Some((v, n)) => {
                let better = match best {
                    Some((_, _, most)) => n > most,
                    None => true,
                };
                if better {
                    best = Some((v, off, n));
                }
            },
            None => {},
        }
    }
    best
}

/// What a number that was read is.
#[derive(Clone, Copy, PartialEq, Eq, Structural)]
pub enum ReadKind {
    Nothing,
    Textbook,
    Operand,
    Answer,
    Other,
}

/// The first of these that fits: the true value of the subexpression, one of its operands, the answer.
pub open spec fn kind_of(read: Option<i64>, truth: Option<i64>, leaves: Seq<i64>, answer: Option<i64>) -> ReadKind {
    match read {
        None => ReadKind::Nothing,
        Some(r) => if truth == Some(r) {
            ReadKind::Textbook
        } else if leaves.contains(r) {
            ReadKind::Operand
        } else if answer == Some(r) {
            ReadKind::Answer
        } else {
            ReadKind::Other
        },
    }
}

fn is_value(x: Option<i64>, v: i64) -> (r: bool)
    ensures
        r == (x == Some(v)),
{
    match x {
        Some(y) => y == v,
        None => false,
    }
}

/// Tells what a number that was read is.
pub fn classify(read: Option<i64>, truth: Option<i64>, leaves: &[i64], answer: Option<i64>) -> (k: ReadKind)
    ensures
        k == kind_of(read, truth, leaves@, answer),
{
    match read {
        None => ReadKind::Nothing,
        Some(r) => {
            if is_value(truth, r) {
                return ReadKind::Textbook;
            }
            for i in 0..leaves.len()
                invariant
                    read == Some(r),
                    truth != Some(r),
                    forall|k: int| 0 <= k < i ==> leaves@[k] != r,
            {
                if leaves[i] == r {
                    assert(leaves@[i as int] == r);
                    return ReadKind::Operand;
                }
            }
            if is_value(answer, r) {
                ReadKind::Answer
            } else {
                ReadKind::Other
            }
        },
    }
}

/// The model's answer is there, and it is the true value.
pub fn answered_right(answer: Option<i64>, truth: Option<i64>) -> (r: bool)
    ensures
        r == (answer is Some && answer == truth),
{
    match answer {
        Some(a) => is_value(truth, a),
        None => false,
    }
}

/// The counts of what was read at one place of the expressions.
#[derive(Clone, Copy, PartialEq, Eq, Structural)]
pub struct Cnt {
    pub n: usize,
    pub textbook: usize,
    pub operand: usize,
    pub answer: usize,
    pub other: usize,
    pub none: usize,
}

impl Cnt {
    /// Every reading is of one kind.
    pub open spec fn adds_up(self) -> bool {
        self.textbook + self.operand + self.answer + self.other + self.none == self.n
    }

    pub open spec fn of(self, k: ReadKind) -> usize {
        match k {
            ReadKind::Nothing => self.none,
            ReadKind::Textbook => self.textbook,
            ReadKind::Operand => self.operand,
            ReadKind::Answer => self.answer,
            ReadKind::Other => self.other,
        }
    }

    pub fn new() -> (c: Cnt)
        ensures
            c.n == 0,
            c.adds_up(),
    {
        Cnt { n: 0, textbook: 0, operand: 0, answer: 0, other: 0, none: 0 }
    }

    /// Counts one reading.
    pub fn record(&mut self, k: ReadKind)
        requires
            old(self).adds_up(),
            old(self).n < usize::MAX,
        ensures
            final(self).adds_up(),
            final(self).n == old(self).n + 1,
            forall|j: ReadKind| #[trigger] final(self).of(j) == old(self).of(j) + if j == k { 1int } else { 0 },
    {
        self.n = self.n + 1;
        match k {
            ReadKind::Nothing => self.none = self.none + 1,
            ReadKind::Textbook => self.textbook = self.textbook + 1,
            ReadKind::Operand => self.operand = self.operand + 1,
            ReadKind::Answer => self.answer = self.answer + 1,
            ReadKind::Other => self.other = self.other + 1,
        }
    }
}

/// What is read is never a mere prediction of the next token: it is held by some token other than the next.
pub proof fn held_is_not_predicted(reads: Seq<Reading>, next: Option<i64>, v: i64)
    requires
        held(reads, next).contains(v),
    ensures
        exists|i: int| 0 <= i < reads.len() && (#[trigger] reads[i]).value == Some(v) && next != Some(reads[i].token),
    decreases reads.len(),
{
    let all = held(reads, next);
    if reads.len() > 0 {
        let init = reads.drop_last();
        let rest = held(init, next);
        let k = choose|k: int| 0 <= k < all.len() && all[k] == v;
        if k < rest.len() {
            assert(rest[k] == v);
            held_is_not_predicted(init, next, v);
            let i = choose|i: int|
                0 <= i < init.len() && (#[trigger] init[i]).value == Some(v) && next != Some(init[i].token);
            assert(reads[i] == init[i]);
        } else {
            assert(reads[reads.len() - 1] == reads.last());
        }
    }
}

} // verus!
