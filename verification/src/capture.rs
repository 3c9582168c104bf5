//! A store made of a model's own decisions: for every context that was labelled, the model's token is counted under
//! the last three, two and one tokens, and what was decided most often comes first.
use vstd::prelude::*;
use vstd::hash_map::StringHashMap;
use crate::retrieval::{quad_key, successors, table_of, tri_key};
use crate::text::{int_text, push_i64};
use crate::value_flow::{absent_counts_zero, times, times_of};

verus! {

/// The key of the last `order` tokens of a context.
pub open spec fn tail_key(ctx: Seq<i64>, order: nat) -> Seq<char> {
    let n = ctx.len();
    if order == 3 {
        quad_key(ctx[n - 3], ctx[n - 2], ctx[n - 1])
    } else if order == 2 {
        tri_key(ctx[n - 2], ctx[n - 1])
    } else {
        int_text(ctx[n - 1] as int)
    }
}

/// What was decided under each key, among the first `n` contexts; contexts that are too short have no key.
pub open spec fn observed(ctxs: Seq<Vec<i64>>, preds: Seq<i64>, order: nat, n: nat) -> Seq<(Seq<char>, i64)>
    decreases n,
{
    if n == 0 {
        Seq::empty()
    } else {
        let rest = observed(ctxs, preds, order, (n - 1) as nat);
        if ctxs[n - 1]@.len() >= order { rest.push((tail_key(ctxs[n - 1]@, order), preds[n - 1])) } else { rest }
    }
}

/// The decisions under a key.
pub open spec fn under(obs: Seq<(Seq<char>, i64)>, key: Seq<char>) -> Seq<i64>
    decreases obs.len(),
{
    if obs.len() == 0 {
        Seq::empty()
    } else {
        let rest = under(obs.drop_last(), key);
        if obs.last().0 == key { rest.push(obs.last().1) } else { rest }
    }
}

/// One decision comes before another: it was made more often, or as often and it is the smaller token.
pub open spec fn more_frequent(vals: Seq<i64>, a: i64, b: i64) -> bool {
    times(vals, a) > times(vals, b) || (times(vals, a) == times(vals, b) && a < b)
}

/// Each of the decisions once, the most frequent first.
pub open spec fn is_by_frequency(r: Seq<i64>, vals: Seq<i64>) -> bool {
    &&& forall|i: int, j: int| 0 <= i < j < r.len() ==> more_frequent(vals, #[trigger] r[i], #[trigger] r[j])
    &&& forall|x: i64| #[trigger] r.contains(x) == vals.contains(x)
}

fn goes_first(vals: &[i64], a: i64, b: i64) -> (r: bool)
    ensures
        r == (a == b || more_frequent(vals@, a, b)),
{
    let m: usize = times_of(vals, a);
    let n: usize = times_of(vals, b);
    m > n || (m == n && a <= b)
}

/// Puts the decisions in the order of their frequency.
pub fn by_frequency(vals: &[i64]) -> (r: Vec<i64>)
    ensures
        is_by_frequency(r@, vals@),
{
    let mut r: Vec<i64> = Vec::new();
    for k in 0..vals.len()
        invariant
            forall|i: int, j: int| 0 <= i < j < r@.len() ==> more_frequent(vals@, #[trigger] r@[i], #[trigger] r@[j]),
            forall|x: i64| #[trigger] r@.contains(x) == vals@.take(k as int).contains(x),
    {
        let x: i64 = vals[k];
        let len: usize = r.len();
        let mut at: usize = 0;
        let ghost was = r@;
        let ghost (s, t) = (vals@.take(k as int), vals@.take(k + 1));
        assert(t[k as int] == x);
        assert(forall|y: i64| t.contains(y) == (s.contains(y) || y == x)) by {
            assert forall|y: i64| t.contains(y) == (s.contains(y) || y == x) by {
                if t.contains(y) {
                    let i = choose|i: int| 0 <= i < t.len() && t[i] == y;
                    if i < k {
                        assert(s[i] == y);
                    }
                }
                if s.contains(y) {
                    let i = choose|i: int| 0 <= i < s.len() && s[i] == y;
                    assert(t[i] == y);
                }
            }
        }
        let mut found = false;
        while at < len && !found && goes_first(vals, r[at], x)
            invariant
                at <= len == r@.len(),
                r@ == was,
                forall|i: int, j: int| 0 <= i < j < was.len() ==> more_frequent(vals@, #[trigger] was[i], #[trigger] was[j]),
                forall|i: int| 0 <= i < at ==> more_frequent(vals@, #[trigger] was[i], x),
                found ==> was.contains(x),
            decreases len - at, if found { 0int } else { 1 },
        {
            if r[at] == x {
                found = true;
                assert(was[at as int] == x);
            } else {
                at += 1;
            }
        }
        if !found {
            r.insert(at, x);
            proof {
                assert(r@ =~= was.insert(at as int, x));
                assert forall|i: int, j: int| 0 <= i < j < r@.len() implies more_frequent(
                    vals@,
                    #[trigger] r@[i],
                    #[trigger] r@[j],
                ) by {
                    let bi = if i < at { i } else { i - 1 };
                    let bj = if j < at { j } else { j - 1 };
                    if i != at {
                        assert(r@[i] == was[bi]);
                    }
                    if j != at {
                        assert(r@[j] == was[bj]);
                    }
                    if i == at && bj > at {
                        assert(more_frequent(vals@, was[at as int], was[bj]));
                    }
                }
                assert forall|y: i64| #[trigger] r@.contains(y) == (was.contains(y) || y == x) by {
                    if r@.contains(y) {
                        let i = choose|i: int| 0 <= i < r@.len() && r@[i] == y;
                        if i != at {
                            assert(was[if i < at { i } else { i - 1 }] == y);
                        }
                    }
                    if was.contains(y) {
                        let i = choose|i: int| 0 <= i < was.len() && was[i] == y;
                        assert(r@[if i < at { i } else { i + 1 }] == y);
                    }
                    if y == x {
                        assert(r@[at as int] == y);
                    }
                }
            }
        }
    }
    assert(vals@.take(vals.len() as int) =~= vals@);
    r
}

/// A text is the key of some decision.
pub open spec fn is_key(obs: Seq<(Seq<char>, i64)>, key: Seq<char>) -> bool {
    exists|i: int| 0 <= i < obs.len() && (#[trigger] obs[i]).0 == key
}

/// A table holds every key once, and under it its decisions by frequency.
pub open spec fn is_table(t: Seq<(String, Vec<i64>)>, obs: Seq<(Seq<char>, i64)>) -> bool {
    &&& forall|i: int, j: int| 0 <= i < j < t.len() ==> (#[trigger] t[i]).0@ != (#[trigger] t[j]).0@
    &&& forall|i: int|
        0 <= i < t.len() ==> is_key(obs, (#[trigger] t[i]).0@) && is_by_frequency(t[i].1@, under(obs, t[i].0@))
    &&& forall|k: Seq<char>|
        #[trigger] is_key(obs, k) ==> exists|i: int| 0 <= i < t.len() && (#[trigger] t[i]).0@ == k
}

/// The groups of decisions, before they are ordered: each key once, with what was decided under it.
pub open spec fn is_grouping(g: Seq<(String, Vec<i64>)>, at: Map<Seq<char>, usize>, obs: Seq<(Seq<char>, i64)>) -> bool {
    &&& forall|i: int|
        0 <= i < g.len() ==> at.contains_key((#[trigger] g[i]).0@) && at[g[i].0@] == i && is_key(obs, g[i].0@)
            && g[i].1@ == under(obs, g[i].0@)
    &&& forall|k: Seq<char>| #[trigger] at.contains_key(k) ==> at[k] < g.len() && g[at[k] as int].0@ == k
    &&& forall|k: Seq<char>| #[trigger] is_key(obs, k) ==> at.contains_key(k)
}

fn write_key(c: &[i64], order: usize) -> (key: String)
    requires
        1 <= order <= 3,
        c@.len() >= order,
    ensures
        key@ == tail_key(c@, order as nat),
{
    let n: usize = c.len();
    let mut key = String::new();
    if order == 3 {
        push_i64(&mut key, c[n - 3]);
        key.push(',');
    }
    if order >= 2 {
        push_i64(&mut key, c[n - 2]);
        key.push(',');
    }
    push_i64(&mut key, c[n - 1]);
    assert(key@ =~= tail_key(c@, order as nat));
    key
}

/// Adds one decision to the groups.
fn count_decision(g: &mut Vec<(String, Vec<i64>)>, at: &mut StringHashMap<usize>, key: String, a: i64, obs: Ghost<Seq<(Seq<char>, i64)>>)
    requires
        is_grouping(old(g)@, old(at)@, obs@),
    ensures
        is_grouping(final(g)@, final(at)@, obs@.push((key@, a))),
{
    let ghost k = key@;
    let ghost o = obs@;
    let ghost n = o.push((k, a));
    let ghost was = g@;
    proof {
        assert(n.drop_last() =~= o);
        assert forall|x: Seq<char>| #[trigger] is_key(n, x) == (is_key(o, x) || x == k) by {
            if is_key(o, x) {
                let i = choose|i: int| 0 <= i < o.len() && (#[trigger] o[i]).0 == x;
                assert(n[i] == o[i]);
            }
            if is_key(n, x) {
                let i = choose|i: int| 0 <= i < n.len() && (#[trigger] n[i]).0 == x;
                if i < o.len() {
                    assert(o[i] == n[i]);
                }
            }
            assert(n[o.len() as int].0 == k);
        }
    }
    match at.get(key.as_str()) {
        Some(i) => {
            let i: usize = *i;
            g[i].1.push(a);
            proof {
                assert(was[i as int].0@ == k);
                assert forall|m: int| 0 <= m < g@.len() implies at@.contains_key((#[trigger] g@[m]).0@) && at@[g@[m].0@] == m
                    && is_key(n, g@[m].0@) && g@[m].1@ == under(n, g@[m].0@) by {
                    if m != i {
                        assert(g@[m] == was[m]);
                        assert(was[m].0@ != k);
                    }
                }
                assert forall|x: Seq<char>| #[trigger] at@.contains_key(x) implies at@[x] < g@.len() && g@[at@[x] as int].0@ == x by {
                    assert(was[at@[x] as int].0@ == x);
                }
            }
        },
        None => {
            let len: usize = g.len();
            let name = String::from_str(key.as_str());
            at.insert(name, len);
            let mut vals: Vec<i64> = Vec::new();
            vals.push(a);
            g.push((key, vals));
            proof {
                assert(!is_key(o, k));
                nothing_under(o, k);
                assert(vals@ =~= under(n, k));
                assert forall|m: int| 0 <= m < g@.len() implies at@.contains_key((#[trigger] g@[m]).0@) && at@[g@[m].0@] == m
                    && is_key(n, g@[m].0@) && g@[m].1@ == under(n, g@[m].0@) by {
                    if m < was.len() {
                        assert(g@[m] == was[m]);
                        assert(was[m].0@ != k);
                    }
                }
                assert forall|x: Seq<char>| #[trigger] at@.contains_key(x) implies at@[x] < g@.len() && g@[at@[x] as int].0@ == x by {
                    if x != k {
                        assert(g@[at@[x] as int] == was[at@[x] as int]);
                    }
                }
            }
        },
    }
}

proof fn nothing_under(obs: Seq<(Seq<char>, i64)>, key: Seq<char>)
    requires
        !is_key(obs, key),
    ensures
        under(obs, key) == Seq::<i64>::empty(),
    decreases obs.len(),
{
    if obs.len() > 0 {
        assert(obs[obs.len() - 1].0 != key);
        assert(!is_key(obs.drop_last(), key)) by {
            if is_key(obs.drop_last(), key) {
                let i = choose|i: int| 0 <= i < obs.drop_last().len() && (#[trigger] obs.drop_last()[i]).0 == key;
                assert(obs[i].0 == key);
            }
        }
        nothing_under(obs.drop_last(), key);
    }
}

/// Makes the table of one order.
pub fn capture_table(ctxs: &[Vec<i64>], preds: &[i64], order: usize) -> (t: Vec<(String, Vec<i64>)>)
    requires
        1 <= order <= 3,
        ctxs@.len() == preds@.len(),
    ensures
        is_table(t@, observed(ctxs@, preds@, order as nat, ctxs@.len())),
{
    let mut g: Vec<(String, Vec<i64>)> = Vec::new();
    let mut at: StringHashMap<usize> = StringHashMap::new();
    for p in 0..ctxs.len()
        invariant
            1 <= order <= 3,
            ctxs@.len() == preds@.len(),
            is_grouping(g@, at@, observed(ctxs@, preds@, order as nat, p as nat)),
    {
        if ctxs[p].len() >= order {
            let key = write_key(ctxs[p].as_slice(), order);
            count_decision(&mut g, &mut at, key, preds[p], Ghost(observed(ctxs@, preds@, order as nat, p as nat)));
        }
    }
    let ghost obs = observed(ctxs@, preds@, order as nat, ctxs@.len());
    let mut t: Vec<(String, Vec<i64>)> = Vec::new();
    for i in 0..g.len()
        invariant
            is_grouping(g@, at@, obs),
            t@.len() == i,
            forall|m: int|
                0 <= m < i ==> (#[trigger] t@[m]).0@ == g@[m].0@ && is_by_frequency(t@[m].1@, under(obs, t@[m].0@)),
    {
        assert(g@[i as int].1@ == under(obs, g@[i as int].0@));
        t.push((String::from_str(g[i].0.as_str()), by_frequency(g[i].1.as_slice())));
    }
    proof {
        assert forall|i: int, j: int| 0 <= i < j < t@.len() implies (#[trigger] t@[i]).0@ != (#[trigger] t@[j]).0@ by {
            assert(at@[g@[i].0@] == i && at@[g@[j].0@] == j);
        }
        assert forall|k: Seq<char>| #[trigger] is_key(obs, k) implies exists|i: int|
            0 <= i < t@.len() && (#[trigger] t@[i]).0@ == k by {
            assert(at@.contains_key(k));
            let i = at@[k] as int;
            assert(t@[i].0@ == k);
        }
        assert forall|i: int| 0 <= i < t@.len() implies is_key(obs, (#[trigger] t@[i]).0@) && is_by_frequency(
            t@[i].1@,
            under(obs, t@[i].0@),
        ) by {
            assert(is_key(obs, g@[i].0@));
        }
    }
    t
}

/// The tables of a captured store.
pub struct Captured {
    pub quad: Vec<(String, Vec<i64>)>,
    pub tri: Vec<(String, Vec<i64>)>,
    pub bi: Vec<(String, Vec<i64>)>,
    pub uni: Vec<i64>,
}

/// Captures a store from contexts and the model's decisions for them.
pub fn capture(ctxs: &[Vec<i64>], preds: &[i64]) -> (c: Captured)
    requires
        ctxs@.len() == preds@.len(),
    ensures
        is_table(c.quad@, observed(ctxs@, preds@, 3, ctxs@.len())),
        is_table(c.tri@, observed(ctxs@, preds@, 2, ctxs@.len())),
        is_table(c.bi@, observed(ctxs@, preds@, 1, ctxs@.len())),
        is_by_frequency(c.uni@, preds@),
{
    Captured {
        quad: capture_table(ctxs, preds, 3),
        tri: capture_table(ctxs, preds, 2),
        bi: capture_table(ctxs, preds, 1),
        uni: by_frequency(preds),
    }
}

proof fn table_has_entry(t: Seq<(String, Vec<i64>)>, i: int)
    requires
        0 <= i < t.len(),
        forall|i: int, j: int| 0 <= i < j < t.len() ==> (#[trigger] t[i]).0@ != (#[trigger] t[j]).0@,
    ensures
        successors(table_of(t), t[i].0@) == t[i].1@,
    decreases t.len(),
{
    let init = t.drop_last();
    if i < init.len() {
        assert(t[i].0@ != t[t.len() - 1].0@);
        assert forall|a: int, b: int| 0 <= a < b < init.len() implies (#[trigger] init[a]).0@ != (#[trigger] init[b]).0@ by {
            assert(t[a].0@ != t[b].0@);
        }
        table_has_entry(init, i);
        assert(init[i] == t[i]);
    }
}

proof fn observed_key(ctxs: Seq<Vec<i64>>, preds: Seq<i64>, order: nat, n: nat, p: int)
    requires
        0 <= p < n <= ctxs.len(),
        ctxs[p]@.len() >= order,
    ensures
        is_key(observed(ctxs, preds, order, n), tail_key(ctxs[p]@, order)),
    decreases n,
{
    let all = observed(ctxs, preds, order, n);
    if p == n - 1 {
        assert(all[all.len() - 1].0 == tail_key(ctxs[p]@, order));
    } else {
        observed_key(ctxs, preds, order, (n - 1) as nat, p);
        let rest = observed(ctxs, preds, order, (n - 1) as nat);
        let i = choose|i: int| 0 <= i < rest.len() && (#[trigger] rest[i]).0 == tail_key(ctxs[p]@, order);
        assert(all[i] == rest[i]);
    }
}

proof fn key_has_decisions(obs: Seq<(Seq<char>, i64)>, key: Seq<char>)
    requires
        is_key(obs, key),
    ensures
        under(obs, key).len() > 0,
    decreases obs.len(),
{
    if obs.last().0 != key {
        let i = choose|i: int| 0 <= i < obs.len() && (#[trigger] obs[i]).0 == key;
        let init = obs.drop_last();
        assert(init[i].0 == key);
        key_has_decisions(init, key);
    }
}

/// A captured store answers what the model does: for every context that was labelled, the table finds its key, and
/// what it gives first is a decision that the model made there at least as often as any other.
pub proof fn captured_store_answers_like_the_model(
    ctxs: Seq<Vec<i64>>,
    preds: Seq<i64>,
    order: nat,
    t: Seq<(String, Vec<i64>)>,
    p: int,
    other: i64,
)
    requires
        is_table(t, observed(ctxs, preds, order, ctxs.len())),
        0 <= p < ctxs.len(),
        ctxs[p]@.len() >= order,
    ensures
        ({
            let key = tail_key(ctxs[p]@, order);
            let made = under(observed(ctxs, preds, order, ctxs.len()), key);
            let found = successors(table_of(t), key);
            &&& found.len() > 0
            &&& made.contains(found[0])
            &&& times(made, found[0]) >= times(made, other)
        }),
{
    let obs = observed(ctxs, preds, order, ctxs.len());
    let key = tail_key(ctxs[p]@, order);
    observed_key(ctxs, preds, order, ctxs.len(), p);
    let i = choose|i: int| 0 <= i < t.len() && (#[trigger] t[i]).0@ == key;
    table_has_entry(t, i);
    let made = under(obs, key);
    let found = t[i].1@;
    key_has_decisions(obs, key);
    assert(made.contains(made[0]));
    assert(found.contains(made[0]));
    assert(found.contains(found[0]));
    absent_counts_zero(made, other);
    if made.contains(other) {
        assert(found.contains(other));
        let j = choose|j: int| 0 <= j < found.len() && found[j] == other;
        if j > 0 {
            assert(more_frequent(made, found[0], found[j]));
        }
    }
}

} // verus!
