//! Interchange experiments: matched pairs of questions are drawn, what was computed for the one is put into the run of
//! the other, and it is counted how often the other then gives the answer of the first.
use vstd::prelude::*;
use crate::recursion_probe::{
    bind_pair, clamped, expr_text, gen_bind_pair, gen_hold_pair, gen_patch_pair, hold_pair, patch_pair, query_text,
};

verus! {

/// What the two questions of a pair differ in: the left operand, the left operand with a right one that is so many sums
/// deep, or the value of the queried one of so many variables.
#[derive(Clone, Copy, PartialEq, Eq, Structural)]
pub enum PairKind {
    Left,
    Hold(usize),
    Bind(usize),
}

/// A pair of questions with the answer of each.
pub struct Pair {
    pub first: String,
    pub second: String,
    pub first_answer: i64,
    pub second_answer: i64,
}

/// A pair by what it spells.
pub struct PairModel {
    pub first: Seq<char>,
    pub second: Seq<char>,
    pub first_answer: i64,
    pub second_answer: i64,
}

impl View for Pair {
    type V = PairModel;

    open spec fn view(&self) -> PairModel {
        PairModel {
            first: self.first@,
            second: self.second@,
            first_answer: self.first_answer,
            second_answer: self.second_answer,
        }
    }
}

/// The solved examples in front of the questions of a kind.
pub open spec fn pair_prime(kind: PairKind) -> Seq<char> {
    match kind {
        PairKind::Bind(_) => "k=2 t=9 k=2\nr=6 s=1 r=6\nm=4 n=7 p=3 m=4\n"@,
        _ => "(+ 2 3) = 5\n(* 2 4) = 8\n(- 9 4) = 5\n(+ (* 2 3) 1) = 7\n"@,
    }
}

/// The pair that a seed gives, and the state of the stream behind it.
pub open spec fn pair_from(kind: PairKind, seed: u64) -> (Option<PairModel>, u64) {
    match kind {
        PairKind::Left => {
            let (p, s) = patch_pair(seed, 3000);
            match p {
                Some((a, b, va, vb, _, _)) => (
                    Some(
                        PairModel {
                            first: pair_prime(kind) + expr_text(a) + " ="@,
                            second: pair_prime(kind) + expr_text(b) + " ="@,
                            first_answer: va,
                            second_answer: vb,
                        },
                    ),
                    s,
                ),
                None => (None, s),
            }
        },
        PairKind::Hold(hold) => if hold == 0 {
            (None, seed)
        } else {
            let (p, s) = hold_pair(hold as nat, seed, 4000);
            match p {
                Some((a, b, va, vb)) => (
                    Some(
                        PairModel {
                            first: pair_prime(kind) + expr_text(a) + " ="@,
                            second: pair_prime(kind) + expr_text(b) + " ="@,
                            first_answer: va,
                            second_answer: vb,
                        },
                    ),
                    s,
                ),
                None => (None, s),
            }
        },
        PairKind::Bind(nvars) => {
            let (p, s) = bind_pair(clamped(nvars as nat), seed, 2000);
            match p {
                Some((vars, vals, other)) => (
                    Some(
                        PairModel {
                            first: pair_prime(kind) + query_text(vars, vals),
                            second: pair_prime(kind) + query_text(vars, vals.update(0, other)),
                            first_answer: vals[0],
                            second_answer: other,
                        },
                    ),
                    s,
                ),
                None => (None, s),
            }
        },
    }
}

fn prime_of(kind: PairKind) -> (s: &'static str)
    ensures
        s@ == pair_prime(kind),
{
    match kind {
        PairKind::Bind(_) => "k=2 t=9 k=2\nr=6 s=1 r=6\nm=4 n=7 p=3 m=4\n",
        _ => "(+ 2 3) = 5\n(* 2 4) = 8\n(- 9 4) = 5\n(+ (* 2 3) 1) = 7\n",
    }
}

fn joined(a: &str, b: &str, c: &str) -> (s: String)
    ensures
        s@ == a@ + b@ + c@,
{
    let mut s = String::from_str(a);
    s.append(b);
    s.append(c);
    s
}

fn equals_question(kind: PairKind, a: &str, b: &str, va: i64, vb: i64) -> (p: Pair)
    ensures
        p@ == (PairModel {
            first: pair_prime(kind) + a@ + " ="@,
            second: pair_prime(kind) + b@ + " ="@,
            first_answer: va,
            second_answer: vb,
        }),
{
    let prime = prime_of(kind);
    Pair { first: joined(prime, a, " ="), second: joined(prime, b, " ="), first_answer: va, second_answer: vb }
}

/// Draws a pair of questions.
pub fn draw_pair(kind: PairKind, r: &mut u64) -> (p: Option<Pair>)
    requires
        kind matches PairKind::Hold(h) ==> h < usize::MAX,
    ensures
        match p {
            Some(x) => pair_from(kind, *old(r)) == (Some(x@), *final(r)),
            None => pair_from(kind, *old(r)) == (None::<PairModel>, *final(r)),
        },
{
    match kind {
        PairKind::Left => match gen_patch_pair(r) {
            Some((a, b, va, vb, _la, _lb)) => Some(equals_question(kind, a.as_str(), b.as_str(), va, vb)),
            None => None,
        },
        PairKind::Hold(hold) => match gen_hold_pair(hold, r) {
            Some((a, b, va, vb)) => Some(equals_question(kind, a.as_str(), b.as_str(), va, vb)),
            None => None,
        },
        PairKind::Bind(nvars) => match gen_bind_pair(nvars, r) {
            Some((a, b, va, vb)) => {
                let prime = prime_of(kind);
                let mut first = String::from_str(prime);
                first.append(a.as_str());
                let mut second = String::from_str(prime);
                second.append(b.as_str());
                Some(Pair { first, second, first_answer: va, second_answer: vb })
            },
            None => None,
        },
    }
}

/// What came of a pair: the answer of the second question as it stands, and with the first one's values put in at each
/// layer; a layer where nothing was put in has no answer.
pub struct Interchange {
    pub base: Option<i64>,
    pub patched: Vec<Option<i64>>,
}

/// The pairs that were run, how often the second question got its own answer, and how often at each layer it got the
/// answer of the first.
pub struct PatchCounts {
    pub total: usize,
    pub base: usize,
    pub hits: Vec<usize>,
}

/// Counts by their numbers.
pub struct PatchModel {
    pub total: nat,
    pub base: nat,
    pub hits: Seq<nat>,
}

impl View for PatchCounts {
    type V = PatchModel;

    open spec fn view(&self) -> PatchModel {
        PatchModel {
            total: self.total as nat,
            base: self.base as nat,
            hits: self.hits@.map_values(|h: usize| h as nat),
        }
    }
}

pub open spec fn one_if(b: bool) -> nat {
    if b { 1 } else { 0 }
}

impl PatchModel {
    /// No pair was run.
    pub open spec fn is_empty(self, layers: nat) -> bool {
        self.total == 0 && self.base == 0 && self.hits =~= Seq::new(layers, |l: int| 0nat)
    }

    /// The counts with one pair more.
    pub open spec fn with(self, p: PairModel, base: Option<i64>, patched: Seq<Option<i64>>) -> PatchModel {
        PatchModel {
            total: self.total + 1,
            base: self.base + one_if(base == Some(p.second_answer)),
            hits: Seq::new(
                self.hits.len(),
                |l: int| self.hits[l] + one_if(l < patched.len() && patched[l] == Some(p.first_answer)),
            ),
        }
    }
}

impl PatchCounts {
    /// Nothing is counted oftener than there were pairs.
    pub open spec fn adds_up(self) -> bool {
        self.base <= self.total && forall|l: int| 0 <= l < self.hits@.len() ==> (#[trigger] self.hits@[l]) <= self.total
    }

    pub fn new(layers: usize) -> (c: PatchCounts)
        ensures
            c@.is_empty(layers as nat),
            c.adds_up(),
    {
        let mut hits: Vec<usize> = Vec::new();
        for l in 0..layers
            invariant
                hits@ == Seq::new(l as nat, |i: int| 0usize),
        {
            hits.push(0);
            assert(hits@ =~= Seq::new((l + 1) as nat, |i: int| 0usize));
        }
        PatchCounts { total: 0, base: 0, hits }
    }

    /// Counts what came of a pair.
    pub fn record(&mut self, p: &Pair, run: &Interchange)
        requires
            old(self).adds_up(),
            old(self).total < usize::MAX,
        ensures
            final(self)@ == old(self)@.with(p@, run.base, run.patched@),
            final(self).adds_up(),
    {
        let ghost before = *self;
        self.total = self.total + 1;
        if let Some(v) = run.base {
            if v == p.second_answer {
                self.base = self.base + 1;
            }
        }
        let layers: usize = self.hits.len();
        for l in 0..layers
            invariant
                before.adds_up(),
                before.total < usize::MAX,
                layers == before.hits@.len(),
                self.hits@.len() == layers,
                self.total == before.total + 1,
                self.base == before.base + one_if(run.base == Some(p.second_answer)),
                forall|i: int| l <= i < layers ==> self.hits@[i] == before.hits@[i],
                forall|i: int|
                    0 <= i < l ==> #[trigger] self.hits@[i] == before.hits@[i] + one_if(
                        i < run.patched@.len() && run.patched@[i] == Some(p.first_answer),
                    ),
        {
            if l < run.patched.len() {
                if let Some(v) = run.patched[l] {
                    if v == p.first_answer {
                        let h: usize = self.hits[l];
                        assert(before.hits@[l as int] <= before.total);
                        self.hits.set(l, h + 1);
                    }
                }
            }
        }
        proof {
            assert(self@.hits =~= before@.with(p@, run.base, run.patched@).hits);
            assert forall|l: int| 0 <= l < self.hits@.len() implies (#[trigger] self.hits@[l]) <= self.total by {
                assert(before.hits@[l] <= before.total);
            }
        }
    }
}

/// A layer can be patched: every position has a value there.
pub open spec fn has_donors(lens: Seq<Vec<usize>>, layer: nat) -> bool {
    forall|p: int| 0 <= p < lens.len() ==> layer < (#[trigger] lens[p])@.len() && lens[p]@[layer as int] > 0
}

/// Whether a layer can be patched; `lens` has, for each position, how many numbers each layer has there.
pub fn can_patch(lens: &[Vec<usize>], layer: usize) -> (r: bool)
    ensures
        r == has_donors(lens@, layer as nat),
{
    for p in 0..lens.len()
        invariant
            forall|q: int| 0 <= q < p ==> layer < (#[trigger] lens@[q])@.len() && lens@[q]@[layer as int] > 0,
    {
        if layer >= lens[p].len() || lens[p][layer] == 0 {
            assert(!(layer < lens@[p as int]@.len() && lens@[p as int]@[layer as int] > 0));
            return false;
        }
    }
    true
}

/// The state of the stream when `i` pairs were drawn.
pub open spec fn pairs_seed(kind: PairKind, seed: u64, i: nat) -> u64
    decreases i,
{
    if i == 0 {
        seed
    } else {
        pair_from(kind, pairs_seed(kind, seed, (i - 1) as nat)).1
    }
}

/// A pair may come out so.
pub open spec fn may_come_out<F: Fn(&Pair) -> Option<Interchange>>(run: F, p: PairModel, r: Option<Interchange>) -> bool {
    exists|x: &Pair| x@ == p && #[trigger] call_ensures(run, (x,), r)
}

/// What a drawn pair adds: a pair that could not be drawn or run adds nothing.
pub open spec fn is_pair_counted<F: Fn(&Pair) -> Option<Interchange>>(
    run: F,
    drawn: Option<PairModel>,
    out: Option<Interchange>,
    before: PatchModel,
    after: PatchModel,
) -> bool {
    match drawn {
        Some(p) => may_come_out(run, p, out) && after == (match out {
            Some(x) => before.with(p, x.base, x.patched@),
            None => before,
        }),
        None => after == before,
    }
}

/// A run over drawn pairs, with what came of each and the counts between.
pub open spec fn is_pair_run<F: Fn(&Pair) -> Option<Interchange>>(
    run: F,
    kind: PairKind,
    seed: u64,
    outs: Seq<Option<Interchange>>,
    counts: Seq<PatchModel>,
) -> bool {
    &&& counts.len() == outs.len() + 1
    &&& forall|i: int|
        0 <= i < outs.len() ==> is_pair_counted(
            run,
            pair_from(kind, pairs_seed(kind, seed, i as nat)).0,
            #[trigger] outs[i],
            counts[i],
            counts[i + 1],
        )
}

/// The counts of `n` drawn pairs.
pub open spec fn is_patched<F: Fn(&Pair) -> Option<Interchange>>(
    run: F,
    kind: PairKind,
    seed: u64,
    n: nat,
    layers: nat,
    c: PatchModel,
) -> bool {
    exists|outs: Seq<Option<Interchange>>, counts: Seq<PatchModel>|
        #[trigger] is_pair_run(run, kind, seed, outs, counts) && outs.len() == n && counts[0].is_empty(layers)
            && counts.last() == c
}

/// Runs `n` drawn pairs and counts what comes of them.
pub fn patch_sweep<F: Fn(&Pair) -> Option<Interchange>>(
    run: F,
    kind: PairKind,
    n: usize,
    layers: usize,
    r: &mut u64,
) -> (c: PatchCounts)
    requires
        forall|p: &Pair| call_requires(run, (p,)),
        kind matches PairKind::Hold(h) ==> h < usize::MAX,
    ensures
        is_patched(run, kind, *old(r), n as nat, layers as nat, c@),
        *final(r) == pairs_seed(kind, *old(r), n as nat),
        c.adds_up(),
{
    let ghost seed = *r;
    let mut c = PatchCounts::new(layers);
    let ghost mut outs: Seq<Option<Interchange>> = Seq::empty();
    let ghost mut counts: Seq<PatchModel> = seq![c@];
    for k in 0..n
        invariant
            forall|p: &Pair| call_requires(run, (p,)),
            kind matches PairKind::Hold(h) ==> h < usize::MAX,
            *r == pairs_seed(kind, seed, k as nat),
            outs.len() == k,
            is_pair_run(run, kind, seed, outs, counts),
            counts[0].is_empty(layers as nat),
            counts.last() == c@,
            c.adds_up(),
            c.total <= k,
    {
        let ghost drawn = pair_from(kind, *r).0;
        let ghost before = c@;
        let ghost mut got: Option<Interchange> = None;
        if let Some(p) = draw_pair(kind, r) {
            let out = run(&p);
            proof {
                assert(call_ensures(run, (&p,), out));
                assert(may_come_out(run, p@, out));
                got = out;
            }
            if let Some(x) = &out {
                c.record(&p, x);
            }
        }
        proof {
            assert(is_pair_counted(run, drawn, got, before, c@));
            let was_outs = outs;
            let was_counts = counts;
            outs = outs.push(got);
            counts = counts.push(c@);
            assert forall|i: int| 0 <= i < outs.len() implies is_pair_counted(
                run,
                pair_from(kind, pairs_seed(kind, seed, i as nat)).0,
                #[trigger] outs[i],
                counts[i],
                counts[i + 1],
            ) by {
                if i < k {
                    assert(outs[i] == was_outs[i]);
                    assert(counts[i] == was_counts[i] && counts[i + 1] == was_counts[i + 1]);
                }
            }
        }
    }
    assert(is_pair_run(run, kind, seed, outs, counts) && outs.len() == n);
    c
}

} // verus!
