//! Decisions from cheap scores. A vocabulary is scored roughly, with an upper bound on each exact score; the
//! functions tell when the rough scores settle the exact winner, how many exact scores it takes to certify it, and
//! which rows have to be kept exact so that the rest may stay rough.
//! Scores come as integer keys that order them: a greater score has a greater key, equal scores have equal keys.
use crate::routing::{all_below, goes_before, is_last_greatest, is_order_of, last_greatest, ordered};
use vstd::prelude::*;

verus! {

/// Each bound is an upper bound on the exact score.
pub open spec fn bounds_hold(full: Seq<i64>, bounds: Seq<i64>) -> bool {
    &&& full.len() == bounds.len()
    &&& forall|v: int| 0 <= v < full.len() ==> #[trigger] full[v] <= bounds[v]
}

/// The row's lower bound lies above the upper bounds of all the others.
pub open spec fn stands_alone(low: i64, bounds: Seq<i64>, row: int) -> bool {
    forall|v: int| 0 <= v < bounds.len() && v != row ==> #[trigger] bounds[v] < low
}

/// Whether the rough winner, whose exact score is at least `low`, is beyond the reach of every other row.
pub fn decides_alone(low: i64, bounds: &[i64], row: usize) -> (r: bool)
    ensures
        r == stands_alone(low, bounds@, row as int),
{
    for v in 0..bounds.len()
        invariant
            forall|u: int| 0 <= u < v && u != row ==> #[trigger] bounds@[u] < low,
    {
        if v != row && bounds[v] >= low {
            assert(bounds@[v as int] >= low);
            return false;
        }
    }
    true
}

/// A rough winner that stands alone is the exact winner.
pub proof fn lone_winner_is_exact(full: Seq<i64>, bounds: Seq<i64>, low: i64, row: int)
    requires
        bounds_hold(full, bounds),
        0 <= row < full.len(),
        low <= full[row],
        stands_alone(low, bounds, row),
    ensures
        is_last_greatest(full, row),
{
    assert forall|v: int| 0 <= v < full.len() && v != row implies #[trigger] full[v] < full[row] by {
        assert(bounds[v] < low);
    }
}

/// What a head of exactly scored rows shows: the row that leads it, and whether no row of the tail can pass it.
pub struct Certificate {
    pub leader: usize,
    pub certain: bool,
}

/// The first row of the head, in its order, with the greatest exact score.
pub open spec fn leads(full: Seq<i64>, order: Seq<usize>, m: int, leader: usize) -> bool {
    exists|i: int| #[trigger] leads_at(full, order, m, i) && order[i] == leader
}

/// No row of the head has a greater score than its `i`-th, and none before it has the same.
pub open spec fn leads_at(full: Seq<i64>, order: Seq<usize>, m: int, i: int) -> bool {
    &&& 0 <= i < m
    &&& forall|j: int| 0 <= j < m ==> full[#[trigger] order[j] as int] <= full[order[i] as int]
    &&& forall|j: int| 0 <= j < i ==> full[#[trigger] order[j] as int] < full[order[i] as int]
}

/// The certificate of a head of `m` rows: the tail is bounded by its first row, as the rows come in the order of
/// their bounds.
pub open spec fn is_certificate(
    full: Seq<i64>,
    bounds: Seq<i64>,
    order: Seq<usize>,
    m: int,
    c: Certificate,
) -> bool {
    &&& leads(full, order, m, c.leader)
    &&& c.certain == (m == order.len() || full[c.leader as int] > bounds[order[m] as int])
}

/// The rows, those with the greatest bounds first.
pub open spec fn is_bound_order(order: Seq<usize>, bounds: Seq<i64>) -> bool {
    &&& is_order_of(order, all_below(bounds.len()), bounds)
    &&& order.len() == bounds.len() <= usize::MAX
    &&& forall|i: int| 0 <= i < order.len() ==> (#[trigger] order[i]) < bounds.len()
    &&& forall|v: usize| #[trigger] order.contains(v) == (v < bounds.len())
}

fn bound_order(bounds: &[i64]) -> (order: Vec<usize>)
    ensures
        is_bound_order(order@, bounds@),
{
    let mut rows: Vec<usize> = Vec::new();
    for v in 0..bounds.len()
        invariant
            rows@ == all_below(bounds@.len()).take(v as int),
    {
        rows.push(v);
        assert(rows@ =~= all_below(bounds@.len()).take(v + 1));
    }
    let ghost all = all_below(bounds@.len());
    assert(rows@ =~= all);
    let order = ordered(rows.as_slice(), bounds);
    assert forall|v: usize| #[trigger] order@.contains(v) == (v < bounds@.len()) by {
        if v < bounds@.len() {
            assert(all[v as int] == v);
        }
    }
    order
}

fn head_leader(full: &[i64], order: &[usize], m: usize) -> (leader: usize)
    requires
        0 < m <= order@.len(),
        forall|i: int| 0 <= i < order@.len() ==> (#[trigger] order@[i]) < full@.len(),
    ensures
        leads(full@, order@, m as int, leader),
{
    let mut at: usize = 0;
    for i in 1..m
        invariant
            0 < m <= order@.len(),
            forall|i: int| 0 <= i < order@.len() ==> (#[trigger] order@[i]) < full@.len(),
            leads_at(full@, order@, i as int, at as int),
    {
        assert(order@[i as int] < full@.len() && order@[at as int] < full@.len());
        if full[order[i]] > full[order[at]] {
            at = i;
        }
    }
    assert(leads_at(full@, order@, m as int, at as int));
    order[at]
}

/// Certifies a decision with each number of exact scores: the rows that the bounds put first are scored exactly,
/// the others are bounded.
pub fn certify(full: &[i64], bounds: &[i64], sizes: &[usize]) -> (r: Vec<Certificate>)
    requires
        full@.len() == bounds@.len(),
        forall|k: int| 0 <= k < sizes@.len() ==> 0 < #[trigger] sizes@[k] <= full@.len(),
    ensures
        r@.len() == sizes@.len(),
        exists|order: Seq<usize>| #[trigger]
            is_bound_order(order, bounds@) && forall|k: int|
                0 <= k < sizes@.len() ==> is_certificate(full@, bounds@, order, sizes@[k] as int, #[trigger] r@[k]),
{
    let order = bound_order(bounds);
    let mut r: Vec<Certificate> = Vec::new();
    for k in 0..sizes.len()
        invariant
            full@.len() == bounds@.len(),
            forall|k: int| 0 <= k < sizes@.len() ==> 0 < #[trigger] sizes@[k] <= full@.len(),
            is_bound_order(order@, bounds@),
            r@.len() == k,
            forall|j: int|
                0 <= j < k ==> is_certificate(full@, bounds@, order@, sizes@[j] as int, #[trigger] r@[j]),
    {
        let m: usize = sizes[k];
        assert(0 < sizes@[k as int] <= full@.len());
        let leader: usize = head_leader(full, order.as_slice(), m);
        let certain = if m < order.len() {
            assert(order@[m as int] < bounds@.len());
            full[leader] > bounds[order[m]]
        } else {
            true
        };
        r.push(Certificate { leader, certain });
    }
    r
}

/// A certificate is a proof: where the bounds hold, the leader of a certain one has the greatest exact score of all
/// the rows, and is the winner if no other row has that score.
pub proof fn certain_leader_is_greatest(
    full: Seq<i64>,
    bounds: Seq<i64>,
    order: Seq<usize>,
    m: int,
    c: Certificate,
)
    requires
        bounds_hold(full, bounds),
        is_bound_order(order, bounds),
        0 < m <= order.len(),
        is_certificate(full, bounds, order, m, c),
        c.certain,
    ensures
        c.leader < full.len(),
        forall|v: int| 0 <= v < full.len() ==> #[trigger] full[v] <= full[c.leader as int],
        (forall|v: int| 0 <= v < full.len() && v != c.leader ==> #[trigger] full[v] != full[c.leader as int])
            ==> is_last_greatest(full, c.leader as int),
{
    let i = choose|i: int| #[trigger] leads_at(full, order, m, i) && order[i] == c.leader;
    assert(order[i] < bounds.len());
    assert forall|v: int| 0 <= v < full.len() implies #[trigger] full[v] <= full[c.leader as int] by {
        assert(order.contains(v as usize));
        let j = choose|j: int| 0 <= j < order.len() && order[j] == v as usize;
        if j >= m {
            assert(j == m || goes_before(bounds, order[m], order[j]));
            assert(bounds[v] <= bounds[order[m] as int]);
        }
    }
}

/// A certain head stays certain when it grows, and keeps its leader.
pub proof fn greater_head_keeps_the_leader(
    full: Seq<i64>,
    bounds: Seq<i64>,
    order: Seq<usize>,
    m: int,
    n: int,
    c: Certificate,
    d: Certificate,
)
    requires
        bounds_hold(full, bounds),
        is_bound_order(order, bounds),
        0 < m <= n <= order.len(),
        is_certificate(full, bounds, order, m, c),
        is_certificate(full, bounds, order, n, d),
        c.certain,
    ensures
        d.certain,
        d.leader == c.leader,
{
    let i = choose|i: int| #[trigger] leads_at(full, order, m, i) && order[i] == c.leader;
    let k = choose|k: int| #[trigger] leads_at(full, order, n, k) && order[k] == d.leader;
    assert(order[i] < bounds.len() && order[k] < bounds.len());
    assert forall|j: int| m <= j < order.len() implies bounds[#[trigger] order[j] as int] < full[c.leader as int] by {
        assert(j == m || goes_before(bounds, order[m], order[j]));
    }
    if k >= m {
        assert(full[order[k] as int] <= bounds[order[k] as int]);
        assert(full[order[i] as int] <= full[order[k] as int]);
    }
    if k < i {
        assert(full[order[k] as int] < full[order[i] as int]);
    }
    if i < k {
        assert(full[order[i] as int] < full[order[k] as int]);
    }
    if n < order.len() {
        assert(bounds[order[n] as int] < full[c.leader as int]);
    }
}

/// The rows that must be exact for this decision: the winner, and each row whose rough score reaches the exact score
/// of the winner.
pub open spec fn must_be_exact(full: Seq<i64>, bulk: Seq<i64>, winner: int, v: int) -> bool {
    v == winner || bulk[v] >= full[winner]
}

/// Adds the rows that this decision needs to the exact ones, and tells the winner.
pub fn keep_exact(full: &[i64], bulk: &[i64], mask: &mut Vec<bool>) -> (winner: usize)
    requires
        0 < full@.len() == bulk@.len() == old(mask)@.len(),
    ensures
        is_last_greatest(full@, winner as int),
        final(mask)@.len() == full@.len(),
        forall|v: int|
            0 <= v < full@.len() ==> #[trigger] final(mask)@[v] == (old(mask)@[v] || must_be_exact(
                full@,
                bulk@,
                winner as int,
                v,
            )),
{
    let winner: usize = last_greatest(full);
    let top: i64 = full[winner];
    for v in 0..full.len()
        invariant
            winner < full@.len() == bulk@.len() == mask@.len() == old(mask)@.len(),
            top == full@[winner as int],
            forall|u: int|
                0 <= u < v ==> #[trigger] mask@[u] == (old(mask)@[u] || must_be_exact(
                    full@,
                    bulk@,
                    winner as int,
                    u,
                )),
            forall|u: int| v <= u < full@.len() ==> #[trigger] mask@[u] == old(mask)@[u],
    {
        if v == winner || bulk[v] >= top {
            mask.set(v, true);
        }
    }
    winner
}

/// The exact scores of the exact rows, the rough scores of the others.
pub open spec fn hybrid(full: Seq<i64>, bulk: Seq<i64>, mask: Seq<bool>) -> Seq<i64> {
    Seq::new(full.len(), |v: int| if mask[v] { full[v] } else { bulk[v] })
}

/// The decision of the rough scores with the exact rows put right.
pub fn hybrid_winner(full: &[i64], bulk: &[i64], mask: &[bool]) -> (winner: usize)
    requires
        0 < full@.len() == bulk@.len() == mask@.len(),
    ensures
        is_last_greatest(hybrid(full@, bulk@, mask@), winner as int),
{
    let mut scores: Vec<i64> = Vec::new();
    for v in 0..full.len()
        invariant
            full@.len() == bulk@.len() == mask@.len(),
            scores@ == hybrid(full@, bulk@, mask@).take(v as int),
    {
        scores.push(if mask[v] { full[v] } else { bulk[v] });
        assert(scores@ =~= hybrid(full@, bulk@, mask@).take(v + 1));
    }
    assert(scores@ =~= hybrid(full@, bulk@, mask@));
    last_greatest(scores.as_slice())
}

/// Exact rows that hold all that a decision needs make the hybrid decide as the exact scores do, whatever other rows
/// are exact.
pub proof fn exact_rows_decide(full: Seq<i64>, bulk: Seq<i64>, mask: Seq<bool>, winner: int, chosen: int)
    requires
        full.len() == bulk.len() == mask.len(),
        is_last_greatest(full, winner),
        forall|v: int| 0 <= v < full.len() && must_be_exact(full, bulk, winner, v) ==> #[trigger] mask[v],
        is_last_greatest(hybrid(full, bulk, mask), chosen),
    ensures
        chosen == winner,
{
    let h = hybrid(full, bulk, mask);
    assert(mask[winner]);
    assert(h[winner] == full[winner]);
    assert forall|v: int| 0 <= v < h.len() implies #[trigger] h[v] <= full[winner] && (v > winner ==> h[v]
        < full[winner]) by {
        if !mask[v] {
            assert(!must_be_exact(full, bulk, winner, v));
        } else {
            assert(h[v] == full[v]);
        }
    }
    assert(h[chosen] >= h[winner]);
}

} // verus!
