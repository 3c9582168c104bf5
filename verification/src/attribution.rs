//! Where decisions come from: whether a rule of the store makes them alone, whether they are picked from what the
//! rules propose, or whether no rule covers them.
use vstd::prelude::*;
use crate::retrieval::{
    context_candidates, context_tokens, contributions, dedup, first_occurrences, prediction, CandCfg, Store, StoreModel,
};
use crate::retrieval_laws::{candidates_cover_the_prediction, induction_is_covered};
use crate::text::{chars_of, spells};
use crate::value_flow::times;

verus! {

/// The route of a decision.
#[derive(Clone, Copy, PartialEq, Eq, Structural)]
pub enum Route {
    Retrieved,
    Selected,
    Composed,
}

/// A decision that the store predicts is retrieved; one that is among the candidates is selected; any other is
/// composed.
pub open spec fn route_of(predicted: i64, decided: i64, covered: bool) -> Route {
    if predicted == decided {
        Route::Retrieved
    } else if covered {
        Route::Selected
    } else {
        Route::Composed
    }
}

pub fn route(predicted: i64, decided: i64, covered: bool) -> (r: Route)
    ensures
        r == route_of(predicted, decided, covered),
{
    if predicted == decided {
        Route::Retrieved
    } else if covered {
        Route::Selected
    } else {
        Route::Composed
    }
}

fn has_candidate(v: &[i64], t: i64) -> (r: bool)
    ensures
        r == v@.contains(t),
{
    crate::model::has_token(v, t)
}

/// The route of a decision through a store, and the rule that fired.
pub fn attribute(store: &Store, ctx: &[i64], cfg: &CandCfg, decided: i64) -> (r: Option<(Route, String)>)
    ensures
        match r {
            Some((route, rule)) => {
                &&& prediction(store@, ctx@) is Some
                &&& rule@ == (prediction(store@, ctx@)->0).1
                &&& route == route_of(
                    (prediction(store@, ctx@)->0).0,
                    decided,
                    first_occurrences(contributions(store@, ctx@, *cfg)).contains(decided),
                )
            },
            None => prediction(store@, ctx@) is None,
        },
{
    match store.try_predict(ctx) {
        Some((kb, rule)) => {
            let cands = store.candidates(ctx, cfg);
            let covered = has_candidate(cands.as_slice(), decided);
            Some((route(kb, decided, covered), rule))
        },
        None => None,
    }
}

/// The candidates that the context alone proposes, each once.
pub fn context_only(ctx: &[i64], cfg: &CandCfg) -> (v: Vec<i64>)
    ensures
        v@ == first_occurrences(context_tokens(ctx@, cfg.recent as nat, cfg.induction as nat)),
{
    let mut all: Vec<i64> = Vec::new();
    context_candidates(ctx, cfg.recent, cfg.induction, &mut all);
    assert(all@ =~= context_tokens(ctx@, cfg.recent as nat, cfg.induction as nat));
    dedup(all.as_slice())
}

/// How many decisions took each route.
#[derive(Clone, Copy, PartialEq, Eq, Structural)]
pub struct RouteCounts {
    pub retrieved: usize,
    pub selected: usize,
    pub composed: usize,
}

impl RouteCounts {
    pub open spec fn of(self, r: Route) -> int {
        match r {
            Route::Retrieved => self.retrieved as int,
            Route::Selected => self.selected as int,
            Route::Composed => self.composed as int,
        }
    }

    pub open spec fn total(self) -> int {
        self.retrieved + self.selected + self.composed
    }

    pub fn new() -> (c: RouteCounts)
        ensures
            c.total() == 0,
    {
        RouteCounts { retrieved: 0, selected: 0, composed: 0 }
    }

    pub fn count(&mut self, r: Route)
        requires
            old(self).total() < usize::MAX,
        ensures
            forall|x: Route| #[trigger] final(self).of(x) == old(self).of(x) + if x == r { 1int } else { 0 },
            final(self).total() == old(self).total() + 1,
    {
        match r {
            Route::Retrieved => self.retrieved = self.retrieved + 1,
            Route::Selected => self.selected = self.selected + 1,
            Route::Composed => self.composed = self.composed + 1,
        }
        assert forall|x: Route| #[trigger] self.of(x) == old(self).of(x) + if x == r { 1int } else { 0 } by {
            match x {
                Route::Retrieved => {},
                Route::Selected => {},
                Route::Composed => {},
            }
        }
    }
}

/// The row of a rule, if there is one.
pub open spec fn row_of(rows: Seq<(String, RouteCounts)>, rule: Seq<char>, i: nat) -> Option<nat>
    decreases rows.len() - i,
{
    if i >= rows.len() {
        None
    } else if rows[i as int].0@ == rule {
        Some(i)
    } else {
        row_of(rows, rule, i + 1)
    }
}

/// Counts a decision in the row of its rule; a rule that has none yet gets one at the end.
pub fn count_rule(rows: &mut Vec<(String, RouteCounts)>, rule: &str, r: Route)
    requires
        forall|i: int| 0 <= i < old(rows)@.len() ==> (#[trigger] old(rows)@[i]).1.total() < usize::MAX,
    ensures
        match row_of(old(rows)@, rule@, 0) {
            Some(k) => {
                &&& final(rows)@.len() == old(rows)@.len()
                &&& final(rows)@[k as int].0@ == rule@
                &&& forall|x: Route|
                    #[trigger] final(rows)@[k as int].1.of(x) == old(rows)@[k as int].1.of(x) + if x == r { 1int } else { 0 }
                &&& forall|i: int| 0 <= i < old(rows)@.len() && i != k ==> #[trigger] final(rows)@[i] == old(rows)@[i]
            },
            None => {
                &&& final(rows)@.len() == old(rows)@.len() + 1
                &&& final(rows)@.last().0@ == rule@
                &&& forall|x: Route| #[trigger] final(rows)@.last().1.of(x) == if x == r { 1int } else { 0 }
                &&& forall|i: int| 0 <= i < old(rows)@.len() ==> #[trigger] final(rows)@[i] == old(rows)@[i]
            },
        },
{
    let n: usize = rows.len();
    let mut i: usize = 0;
    while i < n
        invariant
            n == rows@.len(),
            i <= n,
            rows@ == old(rows)@,
            forall|i: int| 0 <= i < old(rows)@.len() ==> (#[trigger] old(rows)@[i]).1.total() < usize::MAX,
            row_of(rows@, rule@, 0) == row_of(rows@, rule@, i as nat),
        decreases n - i,
    {
        let name = chars_of(rows[i].0.as_str());
        if spells(name.as_slice(), rule) {
            let mut c: RouteCounts = rows[i].1;
            assert(old(rows)@[i as int].1.total() < usize::MAX);
            c.count(r);
            rows.set(i, (String::from_str(rule), c));
            return;
        }
        i += 1;
    }
    let mut c = RouteCounts::new();
    c.count(r);
    rows.push((String::from_str(rule), c));
}

/// Of the positions before `n`: the sizes of the candidate sets in all, and how many sets hold the decision.
pub open spec fn covered_of(cands: Seq<Vec<i64>>, decided: Seq<i64>, n: nat) -> (nat, nat)
    decreases n,
{
    if n == 0 {
        (0, 0)
    } else {
        let (size, cov) = covered_of(cands, decided, (n - 1) as nat);
        (size + cands[n - 1]@.len(), cov + if cands[n - 1]@.contains(decided[n - 1]) { 1nat } else { 0 })
    }
}

/// How well candidate sets cover decisions: their sizes in all, and how many hold the decision.
pub fn coverage(cands: &[Vec<i64>], decided: &[i64]) -> (r: (usize, usize))
    requires
        cands@.len() == decided@.len(),
        covered_of(cands@, decided@, cands@.len()).0 <= usize::MAX,
    ensures
        covered_of(cands@, decided@, cands@.len()) == (r.0 as nat, r.1 as nat),
        r.1 <= cands@.len(),
{
    let mut size: usize = 0;
    let mut cov: usize = 0;
    for i in 0..cands.len()
        invariant
            cands@.len() == decided@.len(),
            covered_of(cands@, decided@, cands@.len()).0 <= usize::MAX,
            covered_of(cands@, decided@, i as nat) == (size as nat, cov as nat),
            cov <= i,
    {
        proof {
            sizes_grow(cands@, decided@, (i + 1) as nat, cands@.len());
        }
        size += cands[i].len();
        if has_candidate(cands[i].as_slice(), decided[i]) {
            cov += 1;
        }
    }
    (size, cov)
}

proof fn sizes_grow(cands: Seq<Vec<i64>>, decided: Seq<i64>, a: nat, b: nat)
    requires
        a <= b,
    ensures
        covered_of(cands, decided, a).0 <= covered_of(cands, decided, b).0,
    decreases b,
{
    if a < b {
        sizes_grow(cands, decided, a, (b - 1) as nat);
    }
}

/// The ranks at which decisions stand in the rules that explain them: first, second, third, later, or in none.
#[derive(Clone, Copy, PartialEq, Eq, Structural)]
pub struct RankCounts {
    pub first: usize,
    pub second: usize,
    pub third: usize,
    pub later: usize,
    pub none: usize,
}

impl RankCounts {
    pub open spec fn total(self) -> int {
        self.first + self.second + self.third + self.later + self.none
    }

    pub fn new() -> (c: RankCounts)
        ensures
            c.total() == 0,
    {
        RankCounts { first: 0, second: 0, third: 0, later: 0, none: 0 }
    }

    pub fn count(&mut self, rank: Option<usize>)
        requires
            old(self).total() < usize::MAX,
        ensures
            final(self).total() == old(self).total() + 1,
            final(self).first == old(self).first + if rank == Some(1usize) { 1int } else { 0 },
            final(self).second == old(self).second + if rank == Some(2usize) { 1int } else { 0 },
            final(self).third == old(self).third + if rank == Some(3usize) { 1int } else { 0 },
            final(self).none == old(self).none + if rank is None { 1int } else { 0 },
    {
        match rank {
            Some(r) => {
                if r == 1 {
                    self.first = self.first + 1;
                } else if r == 2 {
                    self.second = self.second + 1;
                } else if r == 3 {
                    self.third = self.third + 1;
                } else {
                    self.later = self.later + 1;
                }
            },
            None => {
                self.none = self.none + 1;
            },
        }
    }
}

/// How often the most frequent of some decisions was made.
pub open spec fn is_plurality(vals: Seq<i64>, n: nat) -> bool {
    &&& forall|v: i64| #[trigger] times(vals, v) <= n
    &&& vals.len() > 0 ==> exists|v: i64| #[trigger] times(vals, v) == n
    &&& vals.len() == 0 ==> n == 0
}

pub fn plurality(vals: &[i64]) -> (n: usize)
    ensures
        is_plurality(vals@, n as nat),
        n <= vals@.len(),
{
    match crate::value_flow::most_frequent(vals) {
        Some((v, n)) => {
            proof {
                crate::value_flow::absent_counts_zero(vals@, v);
                assert(times(vals@, v) == n);
            }
            n
        },
        None => {
            assert forall|v: i64| #[trigger] times(vals@, v) <= 0 by {
                crate::value_flow::absent_counts_zero(vals@, v);
            }
            0
        },
    }
}

/// The last tokens of a context, as many as `order`; where there are fewer, the key begins with -1.
pub open spec fn tail_key(ctx: Seq<i64>, order: nat) -> Seq<i64> {
    Seq::new(
        order,
        |i: int| if ctx.len() + i >= order { ctx[ctx.len() + i - order] } else { (-1) as i64 },
    )
}

/// The keys of the first `n` contexts, each once, in the order in which they come.
pub open spec fn keys_of(contexts: Seq<Vec<i64>>, order: nat, n: nat) -> Seq<Seq<i64>>
    decreases n,
{
    if n == 0 {
        Seq::empty()
    } else {
        let rest = keys_of(contexts, order, (n - 1) as nat);
        let key = tail_key(contexts[n - 1]@, order);
        if rest.contains(key) { rest } else { rest.push(key) }
    }
}

/// The decisions behind those of the first `n` contexts that have the key, in their order.
pub open spec fn picks_under(contexts: Seq<Vec<i64>>, picks: Seq<i64>, order: nat, key: Seq<i64>, n: nat) -> Seq<i64>
    decreases n,
{
    if n == 0 {
        Seq::empty()
    } else {
        let rest = picks_under(contexts, picks, order, key, (n - 1) as nat);
        if tail_key(contexts[n - 1]@, order) == key { rest.push(picks[n - 1]) } else { rest }
    }
}

/// One bucket for each key of the first `n` contexts, with the decisions behind them.
pub open spec fn are_buckets(contexts: Seq<Vec<i64>>, picks: Seq<i64>, order: nat, n: nat, b: Seq<Vec<i64>>) -> bool {
    &&& b.len() == keys_of(contexts, order, n).len()
    &&& forall|i: int|
        0 <= i < b.len() ==> (#[trigger] b[i])@ == picks_under(contexts, picks, order, keys_of(contexts, order, n)[i], n)
}

/// How many decisions the first `n` buckets hold.
pub open spec fn decisions_in(b: Seq<Vec<i64>>, n: nat) -> nat
    decreases n,
{
    if n == 0 { 0 } else { decisions_in(b, (n - 1) as nat) + b[n - 1]@.len() }
}

fn key_of(ctx: &[i64], order: usize) -> (key: Vec<i64>)
    ensures
        key@ == tail_key(ctx@, order as nat),
{
    let mut key: Vec<i64> = Vec::new();
    for i in 0..order
        invariant
            key@ == tail_key(ctx@, order as nat).take(i as int),
    {
        let missing: usize = order - i;
        key.push(if ctx.len() >= missing { ctx[ctx.len() - missing] } else { -1 });
        assert(key@ =~= tail_key(ctx@, order as nat).take(i + 1));
    }
    assert(key@ =~= tail_key(ctx@, order as nat));
    key
}

fn same_key(a: &Vec<i64>, b: &Vec<i64>) -> (r: bool)
    ensures
        r == (a@ == b@),
{
    if a.len() != b.len() {
        return false;
    }
    for i in 0..a.len()
        invariant
            a@.len() == b@.len(),
            forall|j: int| 0 <= j < i ==> a@[j] == b@[j],
    {
        if a[i] != b[i] {
            assert(a@[i as int] != b@[i as int]);
            return false;
        }
    }
    assert(a@ =~= b@);
    true
}

/// Puts decisions into buckets by the last tokens of the contexts that they were made in.
pub fn buckets(contexts: &[Vec<i64>], picks: &[i64], order: usize) -> (b: Vec<Vec<i64>>)
    requires
        contexts@.len() == picks@.len(),
    ensures
        are_buckets(contexts@, picks@, order as nat, contexts@.len(), b@),
        decisions_in(b@, b@.len()) == contexts@.len(),
{
    let mut keys: Vec<Vec<i64>> = Vec::new();
    let mut b: Vec<Vec<i64>> = Vec::new();
    for n in 0..contexts.len()
        invariant
            contexts@.len() == picks@.len(),
            keys@.len() == b@.len(),
            keys@.len() == keys_of(contexts@, order as nat, n as nat).len(),
            forall|i: int| 0 <= i < keys@.len() ==> (#[trigger] keys@[i])@ == keys_of(contexts@, order as nat, n as nat)[i],
            are_buckets(contexts@, picks@, order as nat, n as nat, b@),
            decisions_in(b@, b@.len()) == n,
    {
        let key = key_of(contexts[n].as_slice(), order);
        let ghost was = keys_of(contexts@, order as nat, n as nat);
        let ghost held = b@;
        proof {
            keys_are_distinct(contexts@, order as nat, n as nat);
        }
        let mut k: usize = 0;
        while k < keys.len() && !same_key(&keys[k], &key)
            invariant
                k <= keys@.len(),
                forall|i: int| 0 <= i < k ==> (#[trigger] keys@[i])@ != key@,
            decreases keys@.len() - k,
        {
            k += 1;
        }
        if k == keys.len() {
            let one: Vec<i64> = vec![picks[n]];
            proof {
                assert(!was.contains(key@)) by {
                    if was.contains(key@) {
                        let i = choose|i: int| 0 <= i < was.len() && was[i] == key@;
                        assert(keys@[i]@ == key@);
                    }
                }
                nothing_under_new_key(contexts@, picks@, order as nat, key@, n as nat);
                assert(one@ =~= Seq::<i64>::empty().push(picks@[n as int]));
            }
            keys.push(key);
            b.push(one);
            proof {
                same_decisions(held, b@, held.len());
                assert forall|i: int| 0 <= i < b@.len() implies (#[trigger] b@[i])@ == picks_under(
                    contexts@,
                    picks@,
                    order as nat,
                    keys_of(contexts@, order as nat, (n + 1) as nat)[i],
                    (n + 1) as nat,
                ) by {
                    if i < held.len() {
                        assert(b@[i] == held[i]);
                        assert(was.contains(was[i]));
                    }
                }
            }
        } else {
            b[k].push(picks[n]);
            proof {
                assert(keys@[k as int]@ == key@);
                assert(was.contains(was[k as int]));
                one_more_decision(held, b@, k as int, held.len());
                assert forall|i: int| 0 <= i < b@.len() implies (#[trigger] b@[i])@ == picks_under(
                    contexts@,
                    picks@,
                    order as nat,
                    keys_of(contexts@, order as nat, (n + 1) as nat)[i],
                    (n + 1) as nat,
                ) by {
                    if i != k {
                        assert(b@[i] == held[i]);
                        assert(was[i] != was[k as int]);
                    } else {
                        assert(held[i]@ == picks_under(contexts@, picks@, order as nat, was[i], n as nat));
                    }
                }
            }
        }
    }
    b
}

proof fn keys_are_distinct(contexts: Seq<Vec<i64>>, order: nat, n: nat)
    ensures
        forall|i: int, j: int|
            0 <= i < j < keys_of(contexts, order, n).len() ==> keys_of(contexts, order, n)[i] != keys_of(
                contexts,
                order,
                n,
            )[j],
    decreases n,
{
    if n > 0 {
        keys_are_distinct(contexts, order, (n - 1) as nat);
        let rest = keys_of(contexts, order, (n - 1) as nat);
        let all = keys_of(contexts, order, n);
        assert forall|i: int, j: int| 0 <= i < j < all.len() implies all[i] != all[j] by {
            assert(all[i] == rest[i] && rest.contains(rest[i]));
            if j < rest.len() {
                assert(all[j] == rest[j]);
            }
        }
    }
}

proof fn nothing_under_new_key(contexts: Seq<Vec<i64>>, picks: Seq<i64>, order: nat, key: Seq<i64>, n: nat)
    requires
        !keys_of(contexts, order, n).contains(key),
    ensures
        picks_under(contexts, picks, order, key, n) == Seq::<i64>::empty(),
    decreases n,
{
    if n > 0 {
        let rest = keys_of(contexts, order, (n - 1) as nat);
        let all = keys_of(contexts, order, n);
        let last = tail_key(contexts[n - 1]@, order);
        if rest.contains(key) {
            let i = choose|i: int| 0 <= i < rest.len() && rest[i] == key;
            assert(all[i] == key);
        }
        if last == key {
            if !rest.contains(last) {
                assert(all[rest.len() as int] == key);
            }
        }
        nothing_under_new_key(contexts, picks, order, key, (n - 1) as nat);
    }
}

proof fn same_decisions(a: Seq<Vec<i64>>, b: Seq<Vec<i64>>, n: nat)
    requires
        n <= a.len() <= b.len(),
        forall|i: int| 0 <= i < n ==> #[trigger] b[i] == a[i],
    ensures
        decisions_in(b, n) == decisions_in(a, n),
    decreases n,
{
    if n > 0 {
        same_decisions(a, b, (n - 1) as nat);
        assert(b[n - 1] == a[n - 1]);
    }
}

proof fn one_more_decision(a: Seq<Vec<i64>>, b: Seq<Vec<i64>>, k: int, n: nat)
    requires
        0 <= k < n <= a.len() == b.len(),
        b[k]@.len() == a[k]@.len() + 1,
        forall|i: int| 0 <= i < n && i != k ==> #[trigger] b[i] == a[i],
    ensures
        decisions_in(b, n) == decisions_in(a, n) + 1,
    decreases n,
{
    if k == n - 1 {
        same_decisions(a, b, (n - 1) as nat);
    } else {
        one_more_decision(a, b, k, (n - 1) as nat);
        assert(b[n - 1] == a[n - 1]);
    }
}

/// The buckets with at least two decisions hold no more than all of them.
pub proof fn kept_decisions_are_decisions(b: Seq<Vec<i64>>, n: nat)
    requires
        n <= b.len(),
    ensures
        held_in(b, n) <= decisions_in(b, n),
    decreases n,
{
    if n > 0 {
        kept_decisions_are_decisions(b, (n - 1) as nat);
    }
}

/// Of the buckets with at least two decisions: how many there are, how many decisions they hold, and in how many
/// the most frequent one was made.
pub fn agreement(buckets: &[Vec<i64>]) -> (r: (usize, usize, usize))
    requires
        held_in(buckets@, buckets@.len()) <= usize::MAX,
    ensures
        r.0 == kept_buckets(buckets@, buckets@.len()),
        r.1 == held_in(buckets@, buckets@.len()),
        agrees_in(buckets@, buckets@.len(), r.2 as nat),
        r.2 <= r.1,
{
    let mut kept: usize = 0;
    let mut held: usize = 0;
    let mut agree: usize = 0;
    for i in 0..buckets.len()
        invariant
            held_in(buckets@, buckets@.len()) <= usize::MAX,
            kept == kept_buckets(buckets@, i as nat),
            kept <= i,
            held == held_in(buckets@, i as nat),
            agrees_in(buckets@, i as nat, agree as nat),
            agree <= held,
    {
        proof {
            held_grows(buckets@, (i + 1) as nat, buckets@.len());
        }
        if buckets[i].len() >= 2 {
            kept += 1;
            held += buckets[i].len();
            let n: usize = plurality(buckets[i].as_slice());
            assert(is_plurality(buckets@[i as int]@, n as nat));
            agree += n;
        }
    }
    (kept, held, agree)
}

pub open spec fn kept_buckets(b: Seq<Vec<i64>>, n: nat) -> nat
    decreases n,
{
    if n == 0 {
        0
    } else {
        kept_buckets(b, (n - 1) as nat) + if b[n - 1]@.len() >= 2 { 1nat } else { 0 }
    }
}

pub open spec fn held_in(b: Seq<Vec<i64>>, n: nat) -> nat
    decreases n,
{
    if n == 0 {
        0
    } else {
        held_in(b, (n - 1) as nat) + if b[n - 1]@.len() >= 2 { b[n - 1]@.len() } else { 0 }
    }
}

/// The pluralities of the kept buckets add up to `total`.
pub open spec fn agrees_in(b: Seq<Vec<i64>>, n: nat, total: nat) -> bool
    decreases n,
{
    if n == 0 {
        total == 0
    } else if b[n - 1]@.len() >= 2 {
        exists|k: nat| k <= total && #[trigger] is_plurality(b[n - 1]@, k) && agrees_in(b, (n - 1) as nat, (total - k) as nat)
    } else {
        agrees_in(b, (n - 1) as nat, total)
    }
}

proof fn held_grows(b: Seq<Vec<i64>>, a: nat, c: nat)
    requires
        a <= c,
    ensures
        held_in(b, a) <= held_in(b, c),
    decreases c,
{
    if a < c {
        held_grows(b, a, (c - 1) as nat);
    }
}

/// What is retrieved could have been selected: where every source may contribute, the candidates hold every token
/// that the store predicts. So only composed decisions lie outside of what the rules propose. Induction must copy
/// behind a tail that the candidates look for, or have all its followers among them.
pub proof fn only_composed_decisions_are_uncovered(m: StoreModel, ctx: Seq<i64>, cfg: CandCfg, decided: i64)
    requires
        m.min_accept >= 1,
        induction_is_covered(m, ctx, cfg),
        cfg.induction >= 1,
        cfg.quad >= 1,
        cfg.tri >= 1,
        cfg.bi >= 1,
        cfg.skel >= 1,
        cfg.uni >= 1,
        prediction(m, ctx) is Some,
    ensures
        ({
            let covered = first_occurrences(contributions(m, ctx, cfg)).contains(decided);
            covered == (route_of((prediction(m, ctx)->0).0, decided, covered) != Route::Composed)
        }),
{
    candidates_cover_the_prediction(m, ctx, cfg);
}

} // verus!
