//! What the experts of a partition are for: the tokens that are routed to each of them.
use crate::capture::{by_frequency, is_by_frequency};
use crate::value_flow::{times, times_of};
use vstd::prelude::*;

verus! {

/// The decisions, among the first `n`, that are routed to an expert, in order.
pub open spec fn routed(routes: Seq<usize>, decided: Seq<i64>, n: nat, e: int) -> Seq<i64>
    decreases n,
{
    if n == 0 {
        Seq::empty()
    } else {
        let rest = routed(routes, decided, (n - 1) as nat, e);
        if routes[n - 1] == e { rest.push(decided[n - 1]) } else { rest }
    }
}

/// Each of the tokens once, the most frequent first, a tie in the order of the tokens, with how often it comes.
pub open spec fn is_specialty(s: Seq<(i64, usize)>, tokens: Seq<i64>) -> bool {
    &&& is_by_frequency(s.map_values(|x: (i64, usize)| x.0), tokens)
    &&& forall|i: int| 0 <= i < s.len() ==> (#[trigger] s[i]).1 == times(tokens, s[i].0)
}

fn routed_to(routes: &[usize], decided: &[i64], n: usize, e: usize) -> (v: Vec<i64>)
    requires
        n <= routes@.len(),
        n <= decided@.len(),
    ensures
        v@ == routed(routes@, decided@, n as nat, e as int),
{
    let mut v: Vec<i64> = Vec::new();
    for i in 0..n
        invariant
            n <= routes@.len(),
            n <= decided@.len(),
            v@ == routed(routes@, decided@, i as nat, e as int),
    {
        if routes[i] == e {
            v.push(decided[i]);
        }
    }
    v
}

/// The tokens that each expert decides, the most frequent first; the row behind the last expert is for what no
/// expert took. Decisions without a route, and routes without a decision, are left out.
pub fn specialties(routes: &[usize], decided: &[i64], experts: usize) -> (v: Vec<Vec<(i64, usize)>>)
    requires
        experts < usize::MAX,
        forall|i: int|
            0 <= i < routes@.len() && i < decided@.len() ==> (#[trigger] routes@[i]) <= experts,
    ensures
        v@.len() == experts + 1,
        forall|e: int|
            0 <= e <= experts ==> is_specialty(
                (#[trigger] v@[e])@,
                routed(
                    routes@,
                    decided@,
                    if routes@.len() < decided@.len() { routes@.len() } else { decided@.len() },
                    e,
                ),
            ),
{
    let n: usize = if routes.len() < decided.len() { routes.len() } else { decided.len() };
    let mut v: Vec<Vec<(i64, usize)>> = Vec::new();
    for e in 0..experts + 1
        invariant
            experts < usize::MAX,
            n <= routes@.len(),
            n <= decided@.len(),
            v@.len() == e,
            forall|k: int|
                0 <= k < e ==> is_specialty((#[trigger] v@[k])@, routed(routes@, decided@, n as nat, k)),
    {
        let tokens = routed_to(routes, decided, n, e);
        let order = by_frequency(tokens.as_slice());
        let mut row: Vec<(i64, usize)> = Vec::new();
        for i in 0..order.len()
            invariant
                row@.len() == i,
                forall|k: int| 0 <= k < i ==> (#[trigger] row@[k]).0 == order@[k],
                forall|k: int| 0 <= k < i ==> (#[trigger] row@[k]).1 == times(tokens@, row@[k].0),
        {
            row.push((order[i], times_of(tokens.as_slice(), order[i])));
        }
        assert(row@.map_values(|x: (i64, usize)| x.0) =~= order@);
        v.push(row);
    }
    v
}

/// How many decisions the experts below `e` took.
pub open spec fn taken(routes: Seq<usize>, decided: Seq<i64>, n: nat, e: nat) -> nat
    decreases e,
{
    if e == 0 {
        0
    } else {
        taken(routes, decided, n, (e - 1) as nat) + routed(routes, decided, n, e - 1).len()
    }
}

proof fn one_more_is_taken(routes: Seq<usize>, decided: Seq<i64>, n: nat, e: nat)
    requires
        n > 0,
    ensures
        taken(routes, decided, n, e) == taken(routes, decided, (n - 1) as nat, e) + if routes[n - 1] < e {
            1nat
        } else {
            0
        },
    decreases e,
{
    if e > 0 {
        one_more_is_taken(routes, decided, n, (e - 1) as nat);
    }
}

/// Every routed decision is taken by one expert, or by the row behind them.
pub proof fn every_decision_has_its_expert(routes: Seq<usize>, decided: Seq<i64>, n: nat, experts: nat)
    requires
        forall|i: int| 0 <= i < n ==> (#[trigger] routes[i]) <= experts,
    ensures
        taken(routes, decided, n, experts + 1) == n,
    decreases n,
{
    if n == 0 {
        nothing_is_taken(routes, decided, experts + 1);
    } else {
        every_decision_has_its_expert(routes, decided, (n - 1) as nat, experts);
        one_more_is_taken(routes, decided, n, experts + 1);
        assert(routes[n - 1] <= experts);
    }
}

proof fn nothing_is_taken(routes: Seq<usize>, decided: Seq<i64>, e: nat)
    ensures
        taken(routes, decided, 0, e) == 0,
    decreases e,
{
    if e > 0 {
        nothing_is_taken(routes, decided, (e - 1) as nat);
    }
}

} // verus!
