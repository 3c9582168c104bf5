//! Choices among scores: the likeliest token, the experts that a token is sent to, and the groups that limit them.
//! Scores come as integer keys that order them: a greater score has a greater key, equal scores have equal keys.
use vstd::prelude::*;

verus! {

/// The last index with the greatest key.
pub open spec fn is_last_greatest(keys: Seq<i64>, i: int) -> bool {
    &&& 0 <= i < keys.len()
    &&& forall|j: int| 0 <= j < keys.len() ==> #[trigger] keys[j] <= keys[i]
    &&& forall|j: int| i < j < keys.len() ==> #[trigger] keys[j] < keys[i]
}

/// The likeliest of the tokens: the one with the greatest key, the last of them where several have it.
pub fn last_greatest(keys: &[i64]) -> (best: usize)
    requires
        keys@.len() > 0,
    ensures
        is_last_greatest(keys@, best as int),
{
    let mut best: usize = 0;
    for i in 1..keys.len()
        invariant
            best < i <= keys@.len(),
            forall|j: int| 0 <= j < i ==> #[trigger] keys@[j] <= keys@[best as int],
            forall|j: int| best < j < i ==> #[trigger] keys@[j] < keys@[best as int],
    {
        if keys[i] >= keys[best] {
            best = i;
        }
    }
    best
}

/// Candidate `a` goes before candidate `b`: its key is greater, or equal and it stands first.
pub open spec fn goes_before(keys: Seq<i64>, a: usize, b: usize) -> bool {
    keys[a as int] > keys[b as int] || (keys[a as int] == keys[b as int] && a < b)
}

/// The candidates in the order of their keys.
pub open spec fn is_order_of(order: Seq<usize>, cand: Seq<usize>, keys: Seq<i64>) -> bool {
    &&& forall|i: int, j: int| 0 <= i < j < order.len() ==> goes_before(keys, #[trigger] order[i], #[trigger] order[j])
    &&& order.to_multiset() == cand.to_multiset()
}

/// Ascending indices into the keys.
pub open spec fn ascending(cand: Seq<usize>, n: nat) -> bool {
    &&& forall|i: int| 0 <= i < cand.len() ==> (#[trigger] cand[i]) < n
    &&& forall|i: int, j: int| 0 <= i < j < cand.len() ==> (#[trigger] cand[i]) < (#[trigger] cand[j])
}

/// Sorts candidates by their keys, the greatest first; equal keys keep their order.
pub fn ordered(cand: &[usize], keys: &[i64]) -> (order: Vec<usize>)
    requires
        ascending(cand@, keys@.len()),
    ensures
        is_order_of(order@, cand@, keys@),
        order@.len() == cand@.len(),
        forall|i: int| 0 <= i < order@.len() ==> (#[trigger] order@[i]) < keys@.len(),
        forall|x: usize| #[trigger] order@.contains(x) == cand@.contains(x),
{
    let mut order: Vec<usize> = Vec::new();
    assert(order@.to_multiset() =~= cand@.take(0).to_multiset()) by {
        broadcast use vstd::seq_lib::group_to_multiset_ensures;

        assert(cand@.take(0) =~= Seq::empty());
        assert(order@ =~= Seq::empty());
    }
    for k in 0..cand.len()
        invariant
            ascending(cand@, keys@.len()),
            order@.len() == k,
            order@.to_multiset() == cand@.take(k as int).to_multiset(),
            forall|i: int| 0 <= i < order@.len() ==> (#[trigger] order@[i]) < keys@.len(),
            forall|i: int| 0 <= i < order@.len() && k < cand@.len() ==> (#[trigger] order@[i]) < cand@[k as int],
            forall|x: usize| #[trigger] order@.contains(x) == cand@.take(k as int).contains(x),
            forall|i: int, j: int|
                0 <= i < j < order@.len() ==> goes_before(keys@, #[trigger] order@[i], #[trigger] order@[j]),
    {
        let c: usize = cand[k];
        assert(cand@[k as int] < keys@.len());
        let n: usize = order.len();
        let mut at: usize = n;
        while at > 0 && keys[order[at - 1]] < keys[c]
            invariant
                c < keys@.len(),
                at <= n == order@.len(),
                forall|i: int| 0 <= i < order@.len() ==> (#[trigger] order@[i]) < keys@.len(),
                forall|i: int| at <= i < n ==> keys@[(#[trigger] order@[i]) as int] < keys@[c as int],
            decreases at,
        {
            at -= 1;
        }
        let ghost was = order@;
        order.insert(at, c);
        proof {
            assert(order@ =~= was.insert(at as int, c));
            assert(cand@.take(k + 1) =~= cand@.take(k as int).push(c));
            was.insert_ensures(at as int, c);
            assert(order@.to_multiset() =~= cand@.take(k + 1).to_multiset()) by {
                broadcast use vstd::seq_lib::group_to_multiset_ensures;

            }
            assert forall|i: int, j: int| 0 <= i < j < order@.len() implies goes_before(
                keys@,
                #[trigger] order@[i],
                #[trigger] order@[j],
            ) by {
                let bi = if i < at { i } else { i - 1 };
                let bj = if j < at { j } else { j - 1 };
                if i != at {
                    assert(order@[i] == was[bi]);
                }
                if j != at {
                    assert(order@[j] == was[bj]);
                }
                if j == at {
                    if i < at - 1 {
                        assert(goes_before(keys@, was[i], was[at - 1]));
                    }
                    assert(was[i] < c);
                }
            }
            assert forall|i: int| 0 <= i < order@.len() implies (#[trigger] order@[i]) < keys@.len() && (k + 1
                < cand@.len() ==> order@[i] < cand@[k + 1]) by {
                if i < at {
                    assert(order@[i] == was[i]);
                } else if i > at {
                    assert(order@[i] == was[i - 1]);
                }
                if k + 1 < cand@.len() {
                    assert(cand@[k as int] < cand@[k + 1]);
                }
            }
            assert forall|x: usize| #[trigger] order@.contains(x) == cand@.take(k + 1).contains(x) by {
                let (s, t) = (cand@.take(k as int), cand@.take(k + 1));
                if order@.contains(x) {
                    let i = choose|i: int| 0 <= i < order@.len() && order@[i] == x;
                    if i == at {
                        assert(t[k as int] == x);
                    } else {
                        assert(was[if i < at { i } else { i - 1 }] == x);
                        assert(was.contains(x));
                        let j = choose|j: int| 0 <= j < s.len() && s[j] == x;
                        assert(t[j] == x);
                    }
                }
                if t.contains(x) {
                    let j = choose|j: int| 0 <= j < t.len() && t[j] == x;
                    if j == k {
                        assert(order@[at as int] == x);
                    } else {
                        assert(s[j] == x);
                        assert(was.contains(x));
                        let i = choose|i: int| 0 <= i < was.len() && was[i] == x;
                        assert(order@[if i < at { i } else { i + 1 }] == x);
                    }
                }
            }
        }
    }
    assert(cand@.take(cand.len() as int) =~= cand@);
    order
}

/// The first `k` of the candidates in the order of their keys.
pub open spec fn is_top(top: Seq<usize>, cand: Seq<usize>, keys: Seq<i64>, k: nat) -> bool {
    exists|order: Seq<usize>|
        #[trigger] is_order_of(order, cand, keys) && order.len() == cand.len() && top == order.take(
            if k < cand.len() { k as int } else { cand.len() as int },
        )
}

/// Picks the `k` candidates with the greatest keys, the greatest first.
pub fn top_of(cand: &[usize], keys: &[i64], k: usize) -> (top: Vec<usize>)
    requires
        ascending(cand@, keys@.len()),
    ensures
        is_top(top@, cand@, keys@, k as nat),
        forall|i: int| 0 <= i < top@.len() ==> (#[trigger] top@[i]) < keys@.len(),
        forall|x: usize| #[trigger] top@.contains(x) ==> cand@.contains(x),
{
    let order = ordered(cand, keys);
    let n: usize = if k < order.len() { k } else { order.len() };
    let mut top: Vec<usize> = Vec::new();
    for i in 0..n
        invariant
            n <= order@.len(),
            top@ == order@.take(i as int),
    {
        top.push(order[i]);
        assert(top@ =~= order@.take(i + 1));
    }
    assert forall|x: usize| #[trigger] top@.contains(x) implies cand@.contains(x) by {
        let i = choose|i: int| 0 <= i < top@.len() && top@[i] == x;
        assert(order@[i] == x);
        assert(order@.contains(x));
    }
    top
}

/// All indices below a bound.
pub open spec fn all_below(n: nat) -> Seq<usize> {
    Seq::new(n, |i: int| i as usize)
}

/// Picks the `k` experts with the greatest keys: the experts that a token is sent to.
pub fn top_k(keys: &[i64], k: usize) -> (top: Vec<usize>)
    ensures
        is_top(top@, all_below(keys@.len()), keys@, k as nat),
        forall|i: int| 0 <= i < top@.len() ==> (#[trigger] top@[i]) < keys@.len(),
{
    let mut cand: Vec<usize> = Vec::new();
    for e in 0..keys.len()
        invariant
            cand@ == all_below(keys@.len()).take(e as int),
    {
        cand.push(e);
        assert(cand@ =~= all_below(keys@.len()).take(e + 1));
    }
    assert(cand@ =~= all_below(keys@.len()));
    top_of(cand.as_slice(), keys, k)
}

/// The experts, before `n`, whose group is kept; a group is `size` experts that follow one another.
pub open spec fn in_kept_groups(keep: Seq<usize>, size: nat, n: nat) -> Seq<usize>
    decreases n,
{
    if n == 0 {
        Seq::empty()
    } else {
        let rest = in_kept_groups(keep, size, (n - 1) as nat);
        if keep.contains(((n - 1) / size as int) as usize) { rest.push((n - 1) as usize) } else { rest }
    }
}

fn has_index(list: &[usize], x: usize) -> (r: bool)
    ensures
        r == list@.contains(x),
{
    for i in 0..list.len()
        invariant
            forall|k: int| 0 <= k < i ==> list@[k] != x,
    {
        if list[i] == x {
            assert(list@[i as int] == x);
            return true;
        }
    }
    false
}

/// The experts of the kept groups, in order.
pub fn kept_experts(keep: &[usize], size: usize, n: usize) -> (v: Vec<usize>)
    requires
        size > 0,
    ensures
        v@ == in_kept_groups(keep@, size as nat, n as nat),
        ascending(v@, n as nat),
{
    let mut v: Vec<usize> = Vec::new();
    for e in 0..n
        invariant
            size > 0,
            v@ == in_kept_groups(keep@, size as nat, e as nat),
            ascending(v@, e as nat),
    {
        assert((e / size) as int == e as int / size as int);
        if has_index(keep, e / size) {
            v.push(e);
        }
    }
    v
}

/// Group-limited routing: the best groups are kept, and the experts are picked from those.
pub open spec fn is_group_limited(
    top: Seq<usize>,
    keys: Seq<i64>,
    group_keys: Seq<i64>,
    size: nat,
    groups: nat,
    k: nat,
) -> bool {
    exists|keep: Seq<usize>|
        #[trigger] is_top(keep, all_below(group_keys.len()), group_keys, groups) && is_top(
            top,
            in_kept_groups(keep, size, keys.len()),
            keys,
            k,
        )
}

/// Picks `k` experts from the `groups` groups with the greatest group keys; a group has `size` experts.
pub fn group_limited_top_k(keys: &[i64], group_keys: &[i64], size: usize, groups: usize, k: usize) -> (top: Vec<usize>)
    requires
        size > 0,
    ensures
        is_group_limited(top@, keys@, group_keys@, size as nat, groups as nat, k as nat),
        forall|i: int| 0 <= i < top@.len() ==> (#[trigger] top@[i]) < keys@.len(),
{
    let keep = top_k(group_keys, groups);
    let n: usize = keys.len();
    let cand = kept_experts(keep.as_slice(), size, n);
    let top = top_of(cand.as_slice(), keys, k);
    assert(is_top(keep@, all_below(group_keys@.len()), group_keys@, groups as nat));
    top
}

/// The tokens, before `n`, that are sent to an expert.
pub open spec fn sent_to(picks: Seq<Vec<usize>>, e: usize, n: nat) -> Seq<usize>
    decreases n,
{
    if n == 0 {
        Seq::empty()
    } else {
        let rest = sent_to(picks, e, (n - 1) as nat);
        if picks[n - 1]@.contains(e) { rest.push((n - 1) as usize) } else { rest }
    }
}

/// For each expert the tokens that are sent to it, so that it runs once for all of them.
pub fn by_expert(picks: &[Vec<usize>], experts: usize) -> (v: Vec<Vec<usize>>)
    ensures
        v@.len() == experts,
        forall|e: int| 0 <= e < experts ==> (#[trigger] v@[e])@ == sent_to(picks@, e as usize, picks@.len()),
{
    let mut v: Vec<Vec<usize>> = Vec::new();
    for e in 0..experts
        invariant
            v@.len() == e,
            forall|i: int| 0 <= i < e ==> (#[trigger] v@[i])@ == sent_to(picks@, i as usize, picks@.len()),
    {
        let mut toks: Vec<usize> = Vec::new();
        for t in 0..picks.len()
            invariant
                toks@ == sent_to(picks@, e, t as nat),
        {
            if has_index(picks[t].as_slice(), e) {
                toks.push(t);
            }
        }
        v.push(toks);
    }
    v
}

/// A token runs through an expert exactly where it was sent to it.
pub proof fn experts_run_their_tokens(picks: Seq<Vec<usize>>, e: usize, n: nat, t: usize)
    requires
        n <= picks.len(),
        n <= usize::MAX,
    ensures
        sent_to(picks, e, n).contains(t) == (t < n && picks[t as int]@.contains(e)),
    decreases n,
{
    if n > 0 {
        experts_run_their_tokens(picks, e, (n - 1) as nat, t);
        let (rest, all) = (sent_to(picks, e, (n - 1) as nat), sent_to(picks, e, n));
        if rest.contains(t) {
            let i = choose|i: int| 0 <= i < rest.len() && rest[i] == t;
            assert(all[i] == t);
        }
        if all.contains(t) && all.len() > rest.len() {
            let i = choose|i: int| 0 <= i < all.len() && all[i] == t;
            if i < rest.len() {
                assert(rest[i] == t);
            }
        }
        if t == n - 1 && picks[t as int]@.contains(e) {
            assert(all[all.len() - 1] == t);
        }
    }
}

/// No expert that is passed over has a greater key than one that is picked.
pub proof fn picked_keys_are_greatest(top: Seq<usize>, cand: Seq<usize>, keys: Seq<i64>, k: nat, a: usize, b: usize)
    requires
        is_top(top, cand, keys, k),
        ascending(cand, keys.len()),
        top.contains(a),
        cand.contains(b),
        !top.contains(b),
    ensures
        keys[a as int] >= keys[b as int],
{
    let n = if k < cand.len() { k as int } else { cand.len() as int };
    let order = choose|order: Seq<usize>|
        #[trigger] is_order_of(order, cand, keys) && order.len() == cand.len() && top == order.take(n);
    let i = choose|i: int| 0 <= i < top.len() && top[i] == a;
    assert(order[i] == a);
    assert(order.contains(b)) by {
        broadcast use vstd::seq_lib::group_to_multiset_ensures;

        assert(cand.to_multiset().count(b) > 0);
        assert(order.to_multiset().count(b) > 0);
    }
    let j = choose|j: int| 0 <= j < order.len() && order[j] == b;
    if j < n {
        assert(top[j] == b);
    }
    assert(goes_before(keys, order[i], order[j]));
}

/// Group-limited routing never leaves the kept groups: the group of every expert that is picked is one of the best.
pub proof fn picks_stay_in_kept_groups(keep: Seq<usize>, size: nat, n: nat, e: usize)
    requires
        size > 0,
        n <= usize::MAX,
        in_kept_groups(keep, size, n).contains(e),
    ensures
        e < n,
        keep.contains((e as int / size as int) as usize),
    decreases n,
{
    if n > 0 {
        let (rest, all) = (in_kept_groups(keep, size, (n - 1) as nat), in_kept_groups(keep, size, n));
        let i = choose|i: int| 0 <= i < all.len() && all[i] == e;
        if i < rest.len() {
            assert(rest[i] == e);
            picks_stay_in_kept_groups(keep, size, (n - 1) as nat, e);
        }
    }
}

} // verus!
