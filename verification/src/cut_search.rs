//! The search for the values of the cut nodes of an evaluation.
//!
//! The values are tried in lexicographic order. In a tree the values of one subtree do not touch the other one, so
//! that for each result of a subtree only the first choice with that result can be part of the first choice for the
//! whole: the subtrees are tabulated and their tables joined. Nodes that do not form a tree are searched choice by
//! choice.
use vstd::prelude::*;
use std::collections::{HashMap, HashSet};
use crate::recursion_dl::{
    applied, apply, assigned, eval_bounded, first_among, first_from, first_values, flat_value, frontier, gives, links_ok,
    Flat, Outcome,
};
use crate::recursion_laws::{drawn_from, increasing};

verus! {

/// The numbers agree up to the index `k`, where the first sequence has the smaller one.
pub open spec fn parts_at(a: Seq<i64>, b: Seq<i64>, k: int) -> bool {
    0 <= k < a.len() && k < b.len() && a[k] < b[k] && forall|j: int| 0 <= j < k ==> a[j] == b[j]
}

/// Lexicographic order of sequences of one length.
pub open spec fn precedes(a: Seq<i64>, b: Seq<i64>) -> bool {
    exists|k: int| parts_at(a, b, k)
}

pub open spec fn at_most(a: Seq<i64>, b: Seq<i64>) -> bool {
    a == b || precedes(a, b)
}

proof fn precedes_carries(a: Seq<i64>, b: Seq<i64>, c: Seq<i64>)
    requires
        at_most(a, b),
        at_most(b, c),
    ensures
        at_most(a, c),
        a == c ==> a == b,
{
    if a != b && b != c {
        let j = choose|j: int| parts_at(a, b, j);
        let k = choose|k: int| parts_at(b, c, k);
        if j <= k {
            assert(parts_at(a, c, j));
        } else {
            assert(parts_at(a, c, k));
        }
    }
}

/// Joined sequences are ordered by their first parts, and by their second parts where the first are the same.
proof fn joined_in_order(a: Seq<i64>, b: Seq<i64>, x: Seq<i64>, y: Seq<i64>)
    requires
        precedes(a, x) || (a == x && at_most(b, y)),
    ensures
        at_most(a + b, x + y),
        precedes(a, x) || precedes(b, y) ==> precedes(a + b, x + y),
{
    if precedes(a, x) {
        let k = choose|k: int| parts_at(a, x, k);
        assert(parts_at(a + b, x + y, k));
    } else if precedes(b, y) {
        let k = choose|k: int| parts_at(b, y, k);
        assert(parts_at(a + b, x + y, a.len() + k));
    }
}

/// The search comes out as the first choice of values that gives the answer, or shows that there is none.
pub open spec fn is_first(
    nodes: Seq<Flat>,
    d: int,
    answer: i64,
    cut: Seq<usize>,
    pool: Seq<i64>,
    r: Option<Seq<i64>>,
) -> bool {
    match r {
        Some(v) => {
            &&& v.len() == cut.len() && drawn_from(v, pool) && gives(nodes, d, answer, cut, v)
            &&& forall|w: Seq<i64>|
                w.len() == cut.len() && #[trigger] drawn_from(w, pool) && gives(nodes, d, answer, cut, w) ==> at_most(v, w)
        },
        None => forall|w: Seq<i64>|
            w.len() == cut.len() && #[trigger] drawn_from(w, pool) ==> !gives(nodes, d, answer, cut, w),
    }
}

/// Values for all cut nodes that begin with the chosen ones.
pub open spec fn goes_on(cut: Seq<usize>, pool: Seq<i64>, chosen: Seq<i64>, w: Seq<i64>) -> bool {
    w.len() == cut.len() && drawn_from(w, pool) && forall|j: int| 0 <= j < chosen.len() ==> w[j] == chosen[j]
}

/// The same, the next value at the index `i` of the pool or behind it.
pub open spec fn goes_on_behind(cut: Seq<usize>, pool: Seq<i64>, chosen: Seq<i64>, i: int, w: Seq<i64>) -> bool {
    goes_on(cut, pool, chosen, w) && exists|j: int| i <= j < pool.len() && #[trigger] pool[j] == w[chosen.len() as int]
}

proof fn from_is_first(nodes: Seq<Flat>, d: int, answer: i64, cut: Seq<usize>, pool: Seq<i64>, chosen: Seq<i64>)
    requires
        increasing(pool),
        chosen.len() <= cut.len(),
        drawn_from(chosen, pool),
    ensures
        match first_from(nodes, d, answer, cut, pool, chosen) {
            Some(v) => goes_on(cut, pool, chosen, v) && gives(nodes, d, answer, cut, v) && forall|w: Seq<i64>|
                #[trigger] goes_on(cut, pool, chosen, w) && gives(nodes, d, answer, cut, w) ==> at_most(v, w),
            None => forall|w: Seq<i64>| #[trigger] goes_on(cut, pool, chosen, w) ==> !gives(nodes, d, answer, cut, w),
        },
    decreases cut.len() - chosen.len(), pool.len() + 1,
{
    if chosen.len() == cut.len() {
        assert forall|w: Seq<i64>| #[trigger] goes_on(cut, pool, chosen, w) implies w == chosen by {
            assert(w =~= chosen);
        }
    } else {
        among_is_first(nodes, d, answer, cut, pool, chosen, 0);
        assert forall|w: Seq<i64>| #[trigger] goes_on(cut, pool, chosen, w) implies goes_on_behind(
            cut,
            pool,
            chosen,
            0,
            w,
        ) by {
            assert(pool.contains(w[chosen.len() as int]));
        }
    }
}

proof fn among_is_first(
    nodes: Seq<Flat>,
    d: int,
    answer: i64,
    cut: Seq<usize>,
    pool: Seq<i64>,
    chosen: Seq<i64>,
    i: int,
)
    requires
        increasing(pool),
        chosen.len() < cut.len(),
        drawn_from(chosen, pool),
        0 <= i,
    ensures
        match first_among(nodes, d, answer, cut, pool, chosen, i) {
            Some(v) => goes_on(cut, pool, chosen, v) && gives(nodes, d, answer, cut, v) && forall|w: Seq<i64>|
                #[trigger] goes_on_behind(cut, pool, chosen, i, w) && gives(nodes, d, answer, cut, w) ==> at_most(v, w),
            None => forall|w: Seq<i64>|
                #[trigger] goes_on_behind(cut, pool, chosen, i, w) ==> !gives(nodes, d, answer, cut, w),
        },
    decreases cut.len() - chosen.len(), pool.len() - i,
{
    if i < pool.len() {
        let m = chosen.len() as int;
        let next = chosen.push(pool[i]);
        assert(drawn_from(next, pool)) by {
            assert(pool.contains(pool[i]));
        }
        from_is_first(nodes, d, answer, cut, pool, next);
        among_is_first(nodes, d, answer, cut, pool, chosen, i + 1);
        assert forall|w: Seq<i64>| #[trigger] goes_on_behind(cut, pool, chosen, i, w) implies goes_on(cut, pool, next, w)
            || goes_on_behind(cut, pool, chosen, i + 1, w) by {
            let j = choose|j: int| i <= j < pool.len() && #[trigger] pool[j] == w[m];
            if j == i {
                assert(goes_on(cut, pool, next, w));
            }
        }
        if let Some(v) = first_from(nodes, d, answer, cut, pool, next) {
            assert(v[m] == next[m]);
            assert forall|k: int| 0 <= k < m implies v[k] == chosen[k] by {
                assert(v[k] == next[k]);
            }
            assert forall|w: Seq<i64>|
                #[trigger] goes_on_behind(cut, pool, chosen, i, w) && gives(nodes, d, answer, cut, w) implies at_most(
                v,
                w,
            ) by {
                if !goes_on(cut, pool, next, w) {
                    let j = choose|j: int| i + 1 <= j < pool.len() && #[trigger] pool[j] == w[m];
                    assert(pool[i] < pool[j]);
                    assert(parts_at(v, w, m));
                }
            }
        }
    }
}

/// The values that the search is said to find are the first in lexicographic order that give the answer.
pub proof fn first_is_first(nodes: Seq<Flat>, d: int, answer: i64, cut: Seq<usize>, pool: Seq<i64>)
    requires
        increasing(pool),
    ensures
        is_first(nodes, d, answer, cut, pool, first_values(nodes, d, answer, cut, pool)),
{
    let none = Seq::<i64>::empty();
    from_is_first(nodes, d, answer, cut, pool, none);
    assert forall|w: Seq<i64>| w.len() == cut.len() && #[trigger] drawn_from(w, pool) implies goes_on(
        cut,
        pool,
        none,
        w,
    ) by {}
}

/// There is one first choice at most.
proof fn first_is_one(
    nodes: Seq<Flat>,
    d: int,
    answer: i64,
    cut: Seq<usize>,
    pool: Seq<i64>,
    r: Option<Seq<i64>>,
    s: Option<Seq<i64>>,
)
    requires
        is_first(nodes, d, answer, cut, pool, r),
        is_first(nodes, d, answer, cut, pool, s),
    ensures
        r == s,
{
    match (r, s) {
        (Some(v), Some(w)) => {
            assert(drawn_from(v, pool) && drawn_from(w, pool));
            precedes_carries(v, w, v);
        },
        (Some(v), None) => {
            assert(drawn_from(v, pool));
        },
        (None, Some(w)) => {
            assert(drawn_from(w, pool));
        },
        (None, None) => {},
    }
}

/// The nodes from `idx` up to `end` form one tree: the root first, then the left operand, then the right one. The root
/// has the depth `dep`, and each operand is one level deeper.
pub open spec fn is_tree(nodes: Seq<Flat>, depth: Seq<usize>, idx: int, end: int, dep: int) -> bool
    decreases end - idx,
{
    &&& 0 <= idx < end <= nodes.len()
    &&& depth[idx] == dep
    &&& match nodes[idx] {
        Flat::Leaf(_) => end == idx + 1,
        Flat::Op(_, a, c) => a == idx + 1 && a < c < end && is_tree(nodes, depth, a as int, c as int, dep + 1) && is_tree(
            nodes,
            depth,
            c as int,
            end,
            dep + 1,
        ),
    }
}

/// Reads a tree from the node `idx` on; the result is the index behind it.
fn tree_end(nodes: &[Flat], depth: &[usize], idx: usize, dep: usize) -> (r: Option<usize>)
    requires
        depth@.len() >= nodes@.len(),
        dep <= idx <= nodes@.len(),
    ensures
        r matches Some(end) ==> is_tree(nodes@, depth@, idx as int, end as int, dep as int),
    decreases nodes@.len() - idx,
{
    if idx == nodes.len() || depth[idx] != dep {
        return None;
    }
    match &nodes[idx] {
        Flat::Leaf(_) => Some(idx + 1),
        Flat::Op(_, a, c) => {
            if *a != idx + 1 {
                return None;
            }
            match tree_end(nodes, depth, idx + 1, dep + 1) {
                Some(mid) => if mid == *c && mid < nodes.len() {
                    tree_end(nodes, depth, mid, dep + 1)
                } else {
                    None
                },
                None => None,
            }
        },
    }
}

/// The operands of the root of a tree are trees, one level deeper.
proof fn operands_are_trees(nodes: Seq<Flat>, depth: Seq<usize>, idx: int, end: int, dep: int)
    requires
        is_tree(nodes, depth, idx, end, dep),
    ensures
        nodes[idx] matches Flat::Op(_, a, c) ==> {
            &&& depth[a as int] == dep + 1 && is_tree(nodes, depth, a as int, c as int, dep + 1)
            &&& depth[c as int] == dep + 1 && is_tree(nodes, depth, c as int, end, dep + 1)
        },
{
    if let Flat::Op(_, a, c) = nodes[idx] {
        assert(is_tree(nodes, depth, a as int, c as int, dep + 1));
        assert(is_tree(nodes, depth, c as int, end, dep + 1));
    }
}

/// Below the root of a tree all is deeper, by no more than there are nodes between.
proof fn tree_depths(nodes: Seq<Flat>, depth: Seq<usize>, idx: int, end: int, dep: int)
    requires
        is_tree(nodes, depth, idx, end, dep),
    ensures
        forall|i: int| idx <= i < end ==> dep <= #[trigger] depth[i] <= dep + (i - idx) && (i > idx ==> dep < depth[i]),
    decreases end - idx,
{
    if let Flat::Op(_, a, c) = nodes[idx] {
        tree_depths(nodes, depth, a as int, c as int, dep + 1);
        tree_depths(nodes, depth, c as int, end, dep + 1);
        assert forall|i: int| idx <= i < end implies dep <= #[trigger] depth[i] <= dep + (i - idx) && (i > idx ==> dep
            < depth[i]) by {
            if i == idx {
            } else if i < c {
                assert(depth[i] <= dep + 1 + (i - a));
            } else {
                assert(depth[i] <= dep + 1 + (i - c));
            }
        }
    }
}

/// The operator nodes at depth `d` from `lo` up to `hi`.
spec fn cuts_between(nodes: Seq<Flat>, depth: Seq<usize>, d: int, lo: int, hi: int) -> Seq<usize>
    decreases hi - lo,
{
    if hi <= lo {
        Seq::empty()
    } else {
        let rest = cuts_between(nodes, depth, d, lo, hi - 1);
        if (depth[hi - 1] as i64) as int == d && nodes[hi - 1] is Op {
            rest.push((hi - 1) as usize)
        } else {
            rest
        }
    }
}

proof fn cuts_are_frontier(nodes: Seq<Flat>, depth: Seq<usize>, d: int, hi: int)
    requires
        0 <= hi,
    ensures
        cuts_between(nodes, depth, d, 0, hi) == frontier(nodes, depth, d, hi),
    decreases hi,
{
    if hi > 0 {
        cuts_are_frontier(nodes, depth, d, hi - 1);
    }
}

spec fn rising(cut: Seq<usize>) -> bool {
    forall|i: int, j: int| 0 <= i < j < cut.len() ==> cut[i] < cut[j]
}

spec fn lies_within(cut: Seq<usize>, lo: int, hi: int) -> bool {
    forall|i: int| 0 <= i < cut.len() ==> lo <= #[trigger] cut[i] < hi
}

proof fn cuts_in_order(nodes: Seq<Flat>, depth: Seq<usize>, d: int, lo: int, hi: int)
    requires
        0 <= lo <= hi <= usize::MAX,
    ensures
        lies_within(cuts_between(nodes, depth, d, lo, hi), lo, hi),
        rising(cuts_between(nodes, depth, d, lo, hi)),
    decreases hi - lo,
{
    if lo < hi {
        cuts_in_order(nodes, depth, d, lo, hi - 1);
        let rest = cuts_between(nodes, depth, d, lo, hi - 1);
        let all = cuts_between(nodes, depth, d, lo, hi);
        assert forall|i: int| 0 <= i < all.len() implies lo <= #[trigger] all[i] < hi by {
            if i < rest.len() {
                assert(all[i] == rest[i]);
            }
        }
    }
}

proof fn cuts_split(nodes: Seq<Flat>, depth: Seq<usize>, d: int, lo: int, mid: int, hi: int)
    requires
        lo <= mid <= hi,
    ensures
        cuts_between(nodes, depth, d, lo, hi) == cuts_between(nodes, depth, d, lo, mid) + cuts_between(nodes, depth, d, mid, hi),
    decreases hi - mid,
{
    if mid < hi {
        cuts_split(nodes, depth, d, lo, mid, hi - 1);
    }
    assert(cuts_between(nodes, depth, d, lo, hi) =~= cuts_between(nodes, depth, d, lo, mid) + cuts_between(
        nodes,
        depth,
        d,
        mid,
        hi,
    ));
}

proof fn no_cuts(nodes: Seq<Flat>, depth: Seq<usize>, d: int, lo: int, hi: int)
    requires
        forall|i: int| lo <= i < hi ==> (#[trigger] depth[i] as i64) != d,
    ensures
        cuts_between(nodes, depth, d, lo, hi) == Seq::<usize>::empty(),
    decreases hi - lo,
{
    if lo < hi {
        no_cuts(nodes, depth, d, lo, hi - 1);
        assert((depth[hi - 1] as i64) != d);
    }
}

proof fn assigned_at(cut: Seq<usize>, vals: Seq<i64>, i: int)
    requires
        rising(cut),
        0 <= i < vals.len() <= cut.len(),
    ensures
        assigned(cut, vals).contains_key(cut[i]),
        assigned(cut, vals)[cut[i]] == vals[i],
    decreases vals.len(),
{
    if i < vals.len() - 1 {
        assigned_at(cut, vals.drop_last(), i);
        assert(cut[i] < cut[vals.len() - 1]);
    }
}

proof fn assigned_nowhere(cut: Seq<usize>, vals: Seq<i64>, x: usize)
    requires
        forall|i: int| 0 <= i < vals.len() ==> #[trigger] cut[i] != x,
    ensures
        !assigned(cut, vals).contains_key(x),
    decreases vals.len(),
{
    if vals.len() > 0 {
        assigned_nowhere(cut, vals.drop_last(), x);
        assert(cut[vals.len() - 1] != x);
    }
}

/// Two maps have the same values for the nodes from `lo` up to `hi`.
spec fn agree(m: Map<usize, i64>, n: Map<usize, i64>, lo: int, hi: int) -> bool {
    forall|x: usize|
        lo <= x < hi ==> (#[trigger] m.contains_key(x) == n.contains_key(x)) && (m.contains_key(x) ==> m[x] == n[x])
}

/// The value of a tree depends on the values of its own cut nodes alone.
proof fn value_is_local(
    nodes: Seq<Flat>,
    depth: Seq<usize>,
    idx: int,
    end: int,
    dep: int,
    b: int,
    m: Map<usize, i64>,
    n: Map<usize, i64>,
)
    requires
        is_tree(nodes, depth, idx, end, dep),
        nodes.len() <= usize::MAX,
        agree(m, n, idx, end),
    ensures
        flat_value(nodes, idx, b, m) == flat_value(nodes, idx, b, n),
    decreases end - idx,
{
    if let Flat::Op(_, a, c) = nodes[idx] {
        if b <= 0 {
            assert(m.contains_key(idx as usize) == n.contains_key(idx as usize));
        } else {
            value_is_local(nodes, depth, a as int, c as int, dep + 1, b - 1, m, n);
            value_is_local(nodes, depth, c as int, end, dep + 1, b - 1, m, n);
        }
    }
}

/// A part of the values is assigned as it is within the whole.
proof fn parts_agree(left: Seq<usize>, right: Seq<usize>, a: Seq<i64>, b: Seq<i64>, lo: int, mid: int, hi: int)
    requires
        a.len() == left.len(),
        b.len() == right.len(),
        rising(left),
        rising(right),
        lo <= mid <= hi,
        lies_within(left, lo, mid),
        lies_within(right, mid, hi),
    ensures
        agree(assigned(left + right, a + b), assigned(left, a), lo, mid),
        agree(assigned(left + right, a + b), assigned(right, b), mid, hi),
{
    let cut = left + right;
    let vals = a + b;
    assert forall|i: int, j: int| 0 <= i < j < cut.len() implies cut[i] < cut[j] by {
        if i < left.len() {
            assert(cut[i] == left[i]);
        }
        if j >= left.len() {
            assert(cut[j] == right[j - left.len()]);
        }
    }
    assert forall|x: usize| lo <= x < mid implies (#[trigger] assigned(cut, vals).contains_key(x) == assigned(
        left,
        a,
    ).contains_key(x)) && (assigned(cut, vals).contains_key(x) ==> assigned(cut, vals)[x] == assigned(left, a)[x]) by {
        if exists|i: int| 0 <= i < left.len() && left[i] == x {
            let i = choose|i: int| 0 <= i < left.len() && left[i] == x;
            assert(cut[i] == x && vals[i] == a[i]);
            assigned_at(cut, vals, i);
            assigned_at(left, a, i);
        } else {
            assert forall|i: int| 0 <= i < vals.len() implies #[trigger] cut[i] != x by {
                if i < left.len() {
                    assert(cut[i] == left[i]);
                } else {
                    assert(cut[i] == right[i - left.len()]);
                }
            }
            assigned_nowhere(cut, vals, x);
            assigned_nowhere(left, a, x);
        }
    }
    assert forall|x: usize| mid <= x < hi implies (#[trigger] assigned(cut, vals).contains_key(x) == assigned(
        right,
        b,
    ).contains_key(x)) && (assigned(cut, vals).contains_key(x) ==> assigned(cut, vals)[x] == assigned(right, b)[x]) by {
        if exists|i: int| 0 <= i < right.len() && right[i] == x {
            let i = choose|i: int| 0 <= i < right.len() && right[i] == x;
            assert(cut[left.len() + i] == x && vals[left.len() + i] == b[i]);
            assigned_at(cut, vals, left.len() + i);
            assigned_at(right, b, i);
        } else {
            assert forall|i: int| 0 <= i < vals.len() implies #[trigger] cut[i] != x by {
                if i < left.len() {
                    assert(cut[i] == left[i]);
                } else {
                    assert(cut[i] == right[i - left.len()]);
                }
            }
            assigned_nowhere(cut, vals, x);
            assigned_nowhere(right, b, x);
        }
    }
}

/// The value that a node has with these values at the cut nodes.
spec fn value_with(nodes: Seq<Flat>, idx: int, b: int, cut: Seq<usize>, vals: Seq<i64>) -> Outcome {
    flat_value(nodes, idx, b, assigned(cut, vals))
}

/// What an operator makes of the values of its operands.
spec fn made_of(op: char, x: Outcome, y: Outcome) -> Outcome {
    match x {
        Outcome::Value(x) => match y {
            Outcome::Value(y) => applied(op, x, y),
            o => o,
        },
        o => o,
    }
}

/// The tree from `idx` up to `end` begins with an operator above the depth `d`.
spec fn is_above_cut(nodes: Seq<Flat>, depth: Seq<usize>, d: int, idx: int, end: int) -> bool {
    &&& nodes.len() <= usize::MAX && nodes.len() <= i64::MAX
    &&& is_tree(nodes, depth, idx, end, depth[idx] as int)
    &&& depth[idx] <= idx
    &&& depth[idx] < d
    &&& nodes[idx] is Op
}

/// Above the cut, the cut nodes of an operator are those of its operands, and its value is made of theirs.
proof fn value_splits(nodes: Seq<Flat>, depth: Seq<usize>, d: int, idx: int, end: int, a: Seq<i64>, b: Seq<i64>)
    requires
        is_above_cut(nodes, depth, d, idx, end),
    ensures
        ({
            let (op, l, r) = (nodes[idx]->Op_0, nodes[idx]->Op_1 as int, nodes[idx]->Op_2 as int);
            let left = cuts_between(nodes, depth, d, l, r);
            let right = cuts_between(nodes, depth, d, r, end);
            let k = d - depth[idx];
            &&& cuts_between(nodes, depth, d, idx, end) == left + right
            &&& a.len() == left.len() && b.len() == right.len() ==> value_with(nodes, idx, k, left + right, a + b)
                == made_of(op, value_with(nodes, l, k - 1, left, a), value_with(nodes, r, k - 1, right, b))
        }),
{
    let (l, r) = (nodes[idx]->Op_1 as int, nodes[idx]->Op_2 as int);
    let left = cuts_between(nodes, depth, d, l, r);
    let right = cuts_between(nodes, depth, d, r, end);
    let dep = depth[idx] as int;
    cuts_split(nodes, depth, d, idx, l, end);
    cuts_split(nodes, depth, d, l, r, end);
    no_cuts(nodes, depth, d, idx, l);
    assert(cuts_between(nodes, depth, d, idx, end) =~= left + right);
    if a.len() == left.len() && b.len() == right.len() {
        cuts_in_order(nodes, depth, d, l, r);
        cuts_in_order(nodes, depth, d, r, end);
        parts_agree(left, right, a, b, l, r, end);
        let whole = assigned(left + right, a + b);
        value_is_local(nodes, depth, l, r, dep + 1, d - dep - 1, whole, assigned(left, a));
        value_is_local(nodes, depth, r, end, dep + 1, d - dep - 1, whole, assigned(right, b));
    }
}

/// A value, and the choice for the cut nodes that gives it.
type Entry = (i64, Vec<i64>);

/// The choices stand in lexicographic order.
spec fn in_order(t: Seq<Entry>) -> bool {
    forall|i: int, j: int| 0 <= i < j < t.len() ==> precedes((#[trigger] t[i]).1@, (#[trigger] t[j]).1@)
}

/// Some entry has the value, and a choice that does not come behind `w`.
spec fn has_by(t: Seq<Entry>, v: i64, w: Seq<i64>) -> bool {
    exists|k: int| 0 <= k < t.len() && (#[trigger] t[k]).0 == v && at_most(t[k].1@, w)
}

/// The entry is a choice for the cut nodes, and gives its value.
spec fn is_entry(nodes: Seq<Flat>, idx: int, b: int, cut: Seq<usize>, pool: Seq<i64>, e: Entry) -> bool {
    e.1@.len() == cut.len() && drawn_from(e.1@, pool) && value_with(nodes, idx, b, cut, e.1@) == Outcome::Value(e.0)
}

/// The table of a node: each value that it can have, by the first choice that gives it.
spec fn is_table(nodes: Seq<Flat>, idx: int, b: int, cut: Seq<usize>, pool: Seq<i64>, t: Seq<Entry>) -> bool {
    &&& in_order(t)
    &&& forall|k: int| 0 <= k < t.len() ==> is_entry(nodes, idx, b, cut, pool, #[trigger] t[k])
    &&& forall|w: Seq<i64>|
        w.len() == cut.len() && #[trigger] drawn_from(w, pool) ==> (value_with(nodes, idx, b, cut, w) matches Outcome::Value(
            v,
        ) ==> has_by(t, v, w))
}

/// The choice that is made of two choices.
spec fn pair(left: Seq<Entry>, right: Seq<Entry>, p: int, q: int) -> Seq<i64> {
    left[p].1@ + right[q].1@
}

/// What the operator makes of two entries.
spec fn pair_value(op: char, left: Seq<Entry>, right: Seq<Entry>, p: int, q: int) -> Outcome {
    applied(op, left[p].0, right[q].0)
}

/// The entry is made of the entries `p` and `q`, a pair that comes before the pair `(i, j)`.
spec fn is_pair(op: char, left: Seq<Entry>, right: Seq<Entry>, i: int, j: int, p: int, q: int, e: Entry) -> bool {
    &&& 0 <= p < left.len() && 0 <= q < right.len() && (p < i || (p == i && q < j))
    &&& e.1@ == pair(left, right, p, q)
    &&& pair_value(op, left, right, p, q) == Outcome::Value(e.0)
}

spec fn is_some_pair(op: char, left: Seq<Entry>, right: Seq<Entry>, i: int, j: int, e: Entry) -> bool {
    exists|p: int, q: int| #[trigger] is_pair(op, left, right, i, j, p, q, e)
}

/// The value that the pair makes, if any, is in the table, by no later choice.
spec fn is_covered(op: char, left: Seq<Entry>, right: Seq<Entry>, t: Seq<Entry>, p: int, q: int) -> bool {
    pair_value(op, left, right, p, q) matches Outcome::Value(v) ==> has_by(t, v, pair(left, right, p, q))
}

/// The table holds the pairs before `(i, j)`, each value once, by the first pair that makes it.
spec fn is_joined(op: char, left: Seq<Entry>, right: Seq<Entry>, t: Seq<Entry>, i: int, j: int) -> bool {
    &&& in_order(t)
    &&& forall|k: int| 0 <= k < t.len() ==> is_some_pair(op, left, right, i, j, #[trigger] t[k])
    &&& forall|p: int, q: int|
        0 <= p < left.len() && 0 <= q < right.len() && (p < i || (p == i && q < j)) ==> #[trigger] is_covered(
            op,
            left,
            right,
            t,
            p,
            q,
        )
}

/// Earlier pairs make earlier choices.
proof fn pairs_in_order(op: char, left: Seq<Entry>, right: Seq<Entry>, i: int, j: int, e: Entry)
    requires
        in_order(left),
        in_order(right),
        0 <= i < left.len(),
        0 <= j < right.len(),
        is_some_pair(op, left, right, i, j, e),
    ensures
        precedes(e.1@, pair(left, right, i, j)),
{
    let (p, q) = choose|p: int, q: int| #[trigger] is_pair(op, left, right, i, j, p, q, e);
    if p < i {
        assert(precedes(left[p].1@, left[i].1@));
    } else {
        assert(precedes(right[q].1@, right[j].1@));
    }
    joined_in_order(left[p].1@, right[q].1@, left[i].1@, right[j].1@);
}

/// The pair makes nothing, or its value is there already.
proof fn pair_passed_over(op: char, left: Seq<Entry>, right: Seq<Entry>, t: Seq<Entry>, i: int, j: int)
    requires
        in_order(left),
        in_order(right),
        0 <= i < left.len(),
        0 <= j < right.len(),
        is_joined(op, left, right, t, i, j),
        pair_value(op, left, right, i, j) matches Outcome::Value(v) ==> exists|k: int|
            0 <= k < t.len() && (#[trigger] t[k]).0 == v,
    ensures
        is_joined(op, left, right, t, i, j + 1),
{
    assert forall|k: int| 0 <= k < t.len() implies is_some_pair(op, left, right, i, j + 1, #[trigger] t[k]) by {
        let (p, q) = choose|p: int, q: int| #[trigger] is_pair(op, left, right, i, j, p, q, t[k]);
        assert(is_pair(op, left, right, i, j + 1, p, q, t[k]));
    }
    assert forall|p: int, q: int|
        0 <= p < left.len() && 0 <= q < right.len() && (p < i || (p == i && q < j + 1)) implies #[trigger] is_covered(
        op,
        left,
        right,
        t,
        p,
        q,
    ) by {
        if p == i && q == j {
            if let Outcome::Value(v) = pair_value(op, left, right, i, j) {
                let k = choose|k: int| 0 <= k < t.len() && (#[trigger] t[k]).0 == v;
                pairs_in_order(op, left, right, i, j, t[k]);
            }
        } else {
            assert(p < i || (p == i && q < j));
        }
    }
}

/// The pair makes a value for the first time.
proof fn pair_added(op: char, left: Seq<Entry>, right: Seq<Entry>, t: Seq<Entry>, i: int, j: int, e: Entry)
    requires
        in_order(left),
        in_order(right),
        0 <= i < left.len(),
        0 <= j < right.len(),
        is_joined(op, left, right, t, i, j),
        pair_value(op, left, right, i, j) == Outcome::Value(e.0),
        e.1@ == pair(left, right, i, j),
    ensures
        is_joined(op, left, right, t.push(e), i, j + 1),
{
    let u = t.push(e);
    assert forall|k: int| 0 <= k < u.len() implies is_some_pair(op, left, right, i, j + 1, #[trigger] u[k]) by {
        if k < t.len() {
            assert(u[k] == t[k]);
            let (p, q) = choose|p: int, q: int| #[trigger] is_pair(op, left, right, i, j, p, q, t[k]);
            assert(is_pair(op, left, right, i, j + 1, p, q, u[k]));
        } else {
            assert(is_pair(op, left, right, i, j + 1, i, j, u[k]));
        }
    }
    assert forall|a: int, b: int| 0 <= a < b < u.len() implies precedes((#[trigger] u[a]).1@, (#[trigger] u[b]).1@) by {
        assert(u[a] == t[a]);
        if b == t.len() {
            pairs_in_order(op, left, right, i, j, t[a]);
        } else {
            assert(u[b] == t[b]);
        }
    }
    assert forall|p: int, q: int|
        0 <= p < left.len() && 0 <= q < right.len() && (p < i || (p == i && q < j + 1)) implies #[trigger] is_covered(
        op,
        left,
        right,
        u,
        p,
        q,
    ) by {
        if p == i && q == j {
            assert(u[t.len() as int].0 == e.0);
        } else {
            assert(is_covered(op, left, right, t, p, q));
            if let Outcome::Value(v) = pair_value(op, left, right, p, q) {
                let w = pair(left, right, p, q);
                let k = choose|k: int| 0 <= k < t.len() && (#[trigger] t[k]).0 == v && at_most(t[k].1@, w);
                assert(u[k] == t[k]);
            }
        }
    }
}

/// All pairs with one left entry are done.
proof fn row_done(op: char, left: Seq<Entry>, right: Seq<Entry>, t: Seq<Entry>, i: int)
    requires
        is_joined(op, left, right, t, i, right.len() as int),
    ensures
        is_joined(op, left, right, t, i + 1, 0),
{
    assert forall|k: int| 0 <= k < t.len() implies is_some_pair(op, left, right, i + 1, 0, #[trigger] t[k]) by {
        let (p, q) = choose|p: int, q: int| #[trigger] is_pair(op, left, right, i, right.len() as int, p, q, t[k]);
        assert(is_pair(op, left, right, i + 1, 0, p, q, t[k]));
    }
}

fn joined(a: &Vec<i64>, b: &Vec<i64>) -> (r: Vec<i64>)
    ensures
        r@ == a@ + b@,
{
    let mut r: Vec<i64> = Vec::new();
    for i in 0..a.len()
        invariant
            r@ == a@.take(i as int),
    {
        r.push(a[i]);
    }
    for i in 0..b.len()
        invariant
            r@ == a@ + b@.take(i as int),
    {
        r.push(b[i]);
    }
    assert(r@ =~= a@ + b@);
    r
}

/// Joins the tables of two operands.
fn join(op: char, left: &Vec<Entry>, right: &Vec<Entry>) -> (t: Vec<Entry>)
    requires
        in_order(left@),
        in_order(right@),
    ensures
        is_joined(op, left@, right@, t@, left@.len() as int, 0),
{
    let mut t: Vec<Entry> = Vec::new();
    let mut seen: HashSet<i64> = HashSet::new();
    let mut i: usize = 0;
    while i < left.len()
        invariant
            i <= left@.len(),
            in_order(left@),
            in_order(right@),
            is_joined(op, left@, right@, t@, i as int, 0),
            forall|v: i64| #[trigger] seen@.contains(v) ==> exists|k: int| 0 <= k < t@.len() && (#[trigger] t@[k]).0 == v,
        decreases left.len() - i,
    {
        let mut j: usize = 0;
        while j < right.len()
            invariant
                i < left@.len(),
                j <= right@.len(),
                in_order(left@),
                in_order(right@),
                is_joined(op, left@, right@, t@, i as int, j as int),
                forall|v: i64| #[trigger]
                    seen@.contains(v) ==> exists|k: int| 0 <= k < t@.len() && (#[trigger] t@[k]).0 == v,
            decreases right.len() - j,
        {
            let ghost was = t@;
            match apply(op, left[i].0, right[j].0) {
                Outcome::Value(v) => {
                    if seen.contains(&v) {
                        proof {
                            pair_passed_over(op, left@, right@, was, i as int, j as int);
                        }
                    } else {
                        let e: Entry = (v, joined(&left[i].1, &right[j].1));
                        proof {
                            pair_added(op, left@, right@, was, i as int, j as int, e);
                        }
                        t.push(e);
                        seen.insert(v);
                        assert forall|x: i64| #[trigger] seen@.contains(x) implies exists|k: int|
                            0 <= k < t@.len() && (#[trigger] t@[k]).0 == x by {
                            if x == v {
                                assert(t@[was.len() as int].0 == v);
                            } else {
                                let k = choose|k: int| 0 <= k < was.len() && (#[trigger] was[k]).0 == x;
                                assert(t@[k].0 == x);
                            }
                        }
                    }
                },
                _ => {
                    proof {
                        pair_passed_over(op, left@, right@, was, i as int, j as int);
                    }
                },
            }
            j += 1;
        }
        proof {
            row_done(op, left@, right@, t@, i as int);
        }
        i += 1;
    }
    t
}

/// These are the tables of the operands of an operator.
spec fn are_operands(
    nodes: Seq<Flat>,
    depth: Seq<usize>,
    d: int,
    idx: int,
    end: int,
    pool: Seq<i64>,
    left: Seq<Entry>,
    right: Seq<Entry>,
) -> bool {
    let (l, r) = (nodes[idx]->Op_1 as int, nodes[idx]->Op_2 as int);
    let b = d - depth[idx] - 1;
    &&& is_table(nodes, l, b, cuts_between(nodes, depth, d, l, r), pool, left)
    &&& is_table(nodes, r, b, cuts_between(nodes, depth, d, r, end), pool, right)
}

/// The joined tables of its operands are the table of an operator above the cut.
proof fn joined_is_table(
    nodes: Seq<Flat>,
    depth: Seq<usize>,
    d: int,
    idx: int,
    end: int,
    pool: Seq<i64>,
    left: Seq<Entry>,
    right: Seq<Entry>,
    t: Seq<Entry>,
)
    requires
        is_above_cut(nodes, depth, d, idx, end),
        are_operands(nodes, depth, d, idx, end, pool, left, right),
        is_joined(nodes[idx]->Op_0, left, right, t, left.len() as int, 0),
    ensures
        is_table(nodes, idx, d - depth[idx], cuts_between(nodes, depth, d, idx, end), pool, t),
{
    let op = nodes[idx]->Op_0;
    let b = d - depth[idx];
    let cut = cuts_between(nodes, depth, d, idx, end);
    assert forall|k: int| 0 <= k < t.len() implies is_entry(nodes, idx, b, cut, pool, #[trigger] t[k]) by {
        let (p, q) = choose|p: int, q: int| #[trigger] is_pair(op, left, right, left.len() as int, 0, p, q, t[k]);
        pair_is_entry(nodes, depth, d, idx, end, pool, left, right, p, q, t[k]);
    }
    assert forall|w: Seq<i64>| w.len() == cut.len() && #[trigger] drawn_from(w, pool) implies (value_with(
        nodes,
        idx,
        b,
        cut,
        w,
    ) matches Outcome::Value(v) ==> has_by(t, v, w)) by {
        if let Outcome::Value(v) = value_with(nodes, idx, b, cut, w) {
            let (p, q) = choice_is_paired(nodes, depth, d, idx, end, pool, left, right, w);
            assert(is_covered(op, left, right, t, p, q));
            let k = choose|k: int|
                0 <= k < t.len() && (#[trigger] t[k]).0 == v && at_most(t[k].1@, pair(left, right, p, q));
            precedes_carries(t[k].1@, pair(left, right, p, q), w);
        }
    }
}

/// Two entries of the operands' tables make an entry for the operator.
proof fn pair_is_entry(
    nodes: Seq<Flat>,
    depth: Seq<usize>,
    d: int,
    idx: int,
    end: int,
    pool: Seq<i64>,
    left: Seq<Entry>,
    right: Seq<Entry>,
    p: int,
    q: int,
    e: Entry,
)
    requires
        is_above_cut(nodes, depth, d, idx, end),
        are_operands(nodes, depth, d, idx, end, pool, left, right),
        0 <= p < left.len(),
        0 <= q < right.len(),
        e.1@ == pair(left, right, p, q),
        pair_value(nodes[idx]->Op_0, left, right, p, q) == Outcome::Value(e.0),
    ensures
        is_entry(nodes, idx, d - depth[idx], cuts_between(nodes, depth, d, idx, end), pool, e),
{
    let (l, r) = (nodes[idx]->Op_1 as int, nodes[idx]->Op_2 as int);
    let b = d - depth[idx];
    assert(is_entry(nodes, l, b - 1, cuts_between(nodes, depth, d, l, r), pool, left[p]));
    assert(is_entry(nodes, r, b - 1, cuts_between(nodes, depth, d, r, end), pool, right[q]));
    value_splits(nodes, depth, d, idx, end, left[p].1@, right[q].1@);
    assert forall|i: int| 0 <= i < e.1@.len() implies pool.contains(#[trigger] e.1@[i]) by {
        if i < left[p].1@.len() {
            assert(e.1@[i] == left[p].1@[i]);
        } else {
            assert(e.1@[i] == right[q].1@[i - left[p].1@.len()]);
        }
    }
}

/// For each choice that gives the operator a value, two entries make the same value by a choice that does not come
/// behind it.
proof fn choice_is_paired(
    nodes: Seq<Flat>,
    depth: Seq<usize>,
    d: int,
    idx: int,
    end: int,
    pool: Seq<i64>,
    left: Seq<Entry>,
    right: Seq<Entry>,
    w: Seq<i64>,
) -> (at: (int, int))
    requires
        is_above_cut(nodes, depth, d, idx, end),
        are_operands(nodes, depth, d, idx, end, pool, left, right),
        w.len() == cuts_between(nodes, depth, d, idx, end).len(),
        drawn_from(w, pool),
        value_with(nodes, idx, d - depth[idx], cuts_between(nodes, depth, d, idx, end), w) is Value,
    ensures
        0 <= at.0 < left.len(),
        0 <= at.1 < right.len(),
        pair_value(nodes[idx]->Op_0, left, right, at.0, at.1) == value_with(
            nodes,
            idx,
            d - depth[idx],
            cuts_between(nodes, depth, d, idx, end),
            w,
        ),
        at_most(pair(left, right, at.0, at.1), w),
{
    let (l, r) = (nodes[idx]->Op_1 as int, nodes[idx]->Op_2 as int);
    let b = d - depth[idx];
    let lc = cuts_between(nodes, depth, d, l, r);
    let rc = cuts_between(nodes, depth, d, r, end);
    let a = w.take(lc.len() as int);
    let c = w.skip(lc.len() as int);
    value_splits(nodes, depth, d, idx, end, a, c);
    assert(a + c =~= w);
    assert(drawn_from(a, pool));
    assert forall|i: int| 0 <= i < c.len() implies pool.contains(#[trigger] c[i]) by {
        assert(pool.contains(w[lc.len() + i]));
    }
    assert(drawn_from(c, pool));
    let x = value_with(nodes, l, b - 1, lc, a)->Value_0;
    let y = value_with(nodes, r, b - 1, rc, c)->Value_0;
    assert(has_by(left, x, a));
    assert(has_by(right, y, c));
    let p = choose|k: int| 0 <= k < left.len() && (#[trigger] left[k]).0 == x && at_most(left[k].1@, a);
    let q = choose|k: int| 0 <= k < right.len() && (#[trigger] right[k]).0 == y && at_most(right[k].1@, c);
    joined_in_order(left[p].1@, right[q].1@, a, c);
    (p, q)
}

/// The table of a leaf: its number, by no choice at all.
proof fn leaf_is_table(nodes: Seq<Flat>, depth: Seq<usize>, d: int, idx: int, b: int, pool: Seq<i64>, e: Entry)
    requires
        nodes[idx] == Flat::Leaf(e.0),
        e.1@.len() == 0,
    ensures
        is_table(nodes, idx, b, cuts_between(nodes, depth, d, idx, idx + 1), pool, seq![e]),
{
    let cut = cuts_between(nodes, depth, d, idx, idx + 1);
    let t = seq![e];
    assert(cuts_between(nodes, depth, d, idx, idx) =~= Seq::<usize>::empty());
    assert(cut =~= Seq::<usize>::empty());
    assert forall|w: Seq<i64>| w.len() == cut.len() && #[trigger] drawn_from(w, pool) implies (value_with(
        nodes,
        idx,
        b,
        cut,
        w,
    ) matches Outcome::Value(v) ==> has_by(t, v, w)) by {
        assert(w =~= e.1@);
        assert(t[0].0 == e.0);
    }
}

/// The table of a cut node: the numbers of the pool.
proof fn cut_is_table(nodes: Seq<Flat>, depth: Seq<usize>, d: int, idx: int, end: int, pool: Seq<i64>, t: Seq<Entry>)
    requires
        nodes.len() <= usize::MAX,
        nodes.len() <= i64::MAX,
        is_tree(nodes, depth, idx, end, depth[idx] as int),
        depth[idx] <= idx,
        depth[idx] == d,
        nodes[idx] is Op,
        increasing(pool),
        t.len() == pool.len(),
        forall|k: int| 0 <= k < t.len() ==> (#[trigger] t[k]).0 == pool[k] && t[k].1@ == seq![pool[k]],
    ensures
        is_table(nodes, idx, 0, cuts_between(nodes, depth, d, idx, end), pool, t),
{
    let cut = cuts_between(nodes, depth, d, idx, end);
    tree_depths(nodes, depth, idx, end, d);
    no_cuts(nodes, depth, d, idx + 1, end);
    cuts_split(nodes, depth, d, idx, idx + 1, end);
    assert(cuts_between(nodes, depth, d, idx, idx) =~= Seq::<usize>::empty());
    assert(cut =~= seq![idx as usize]);
    assert forall|w: Seq<i64>| w.len() == 1 implies #[trigger] value_with(nodes, idx, 0, cut, w) == Outcome::Value(w[0]) by {
        assert(assigned(cut, w.drop_last()) =~= Map::empty());
        assert(assigned(cut, w).contains_key(idx as usize));
    }
    assert forall|i: int, j: int| 0 <= i < j < t.len() implies precedes((#[trigger] t[i]).1@, (#[trigger] t[j]).1@) by {
        assert(pool[i] < pool[j]);
        assert(parts_at(t[i].1@, t[j].1@, 0));
    }
    assert forall|k: int| 0 <= k < t.len() implies is_entry(nodes, idx, 0, cut, pool, #[trigger] t[k]) by {
        assert(pool.contains(pool[k]));
    }
    assert forall|w: Seq<i64>| w.len() == cut.len() && #[trigger] drawn_from(w, pool) implies (value_with(
        nodes,
        idx,
        0,
        cut,
        w,
    ) matches Outcome::Value(v) ==> has_by(t, v, w)) by {
        assert(pool.contains(w[0]));
        let k = choose|k: int| 0 <= k < pool.len() && pool[k] == w[0];
        assert(t[k].1@ =~= w);
    }
}

/// Tabulates the tree from `idx` up to `end` under a cut at depth `d`.
fn tabulate(nodes: &[Flat], depth: &[usize], d: i64, idx: usize, end: usize, pool: &[i64]) -> (t: Vec<Entry>)
    requires
        depth@.len() >= nodes@.len(),
        nodes@.len() <= i64::MAX,
        is_tree(nodes@, depth@, idx as int, end as int, depth@[idx as int] as int),
        depth@[idx as int] <= idx,
        depth@[idx as int] <= d,
        increasing(pool@),
    ensures
        is_table(
            nodes@,
            idx as int,
            d - depth@[idx as int],
            cuts_between(nodes@, depth@, d as int, idx as int, end as int),
            pool@,
            t@,
        ),
    decreases end - idx,
{
    let count: usize = nodes.len();
    proof {
        operands_are_trees(nodes@, depth@, idx as int, end as int, depth@[idx as int] as int);
    }
    match &nodes[idx] {
        Flat::Leaf(v) => {
            let e: Entry = (*v, Vec::new());
            proof {
                leaf_is_table(nodes@, depth@, d as int, idx as int, d - depth@[idx as int], pool@, e);
            }
            let mut t: Vec<Entry> = Vec::new();
            t.push(e);
            assert(t@ =~= seq![e]);
            t
        },
        Flat::Op(op, a, c) => {
            if depth[idx] as i64 == d {
                let mut t: Vec<Entry> = Vec::new();
                for k in 0..pool.len()
                    invariant
                        t@.len() == k,
                        forall|i: int| 0 <= i < k ==> (#[trigger] t@[i]).0 == pool@[i] && t@[i].1@ == seq![pool@[i]],
                {
                    let e: Entry = (pool[k], vec![pool[k]]);
                    assert(e.1@ =~= seq![pool@[k as int]]);
                    t.push(e);
                }
                proof {
                    cut_is_table(nodes@, depth@, d as int, idx as int, end as int, pool@, t@);
                }
                t
            } else {
                let left = tabulate(nodes, depth, d, *a, *c, pool);
                let right = tabulate(nodes, depth, d, *c, end, pool);
                let t = join(*op, &left, &right);
                proof {
                    joined_is_table(nodes@, depth@, d as int, idx as int, end as int, pool@, left@, right@, t@);
                }
                t
            }
        },
    }
}

/// The first pair of entries that makes the answer.
fn first_pair(op: char, left: &Vec<Entry>, right: &Vec<Entry>, answer: i64) -> (r: Option<Vec<i64>>)
    requires
        in_order(left@),
        in_order(right@),
    ensures
        match r {
            Some(v) => exists|p: int, q: int| #[trigger]
                is_first_pair(op, left@, right@, answer, p, q) && v@ == pair(left@, right@, p, q),
            None => forall|p: int, q: int|
                0 <= p < left@.len() && 0 <= q < right@.len() ==> #[trigger] pair_value(op, left@, right@, p, q)
                    != Outcome::Value(answer),
        },
{
    let mut i: usize = 0;
    while i < left.len()
        invariant
            i <= left@.len(),
            in_order(left@),
            in_order(right@),
            forall|p: int, q: int|
                0 <= p < i && 0 <= q < right@.len() ==> #[trigger] pair_value(op, left@, right@, p, q) != Outcome::Value(
                    answer,
                ),
        decreases left.len() - i,
    {
        let mut j: usize = 0;
        while j < right.len()
            invariant
                i < left@.len(),
                j <= right@.len(),
                in_order(left@),
                in_order(right@),
                forall|p: int, q: int|
                    0 <= p <= i && 0 <= q < right@.len() && (p < i || q < j) ==> #[trigger] pair_value(
                        op,
                        left@,
                        right@,
                        p,
                        q,
                    ) != Outcome::Value(answer),
            decreases right.len() - j,
        {
            if apply(op, left[i].0, right[j].0) == Outcome::Value(answer) {
                proof {
                    assert forall|p: int, q: int|
                        0 <= p < left@.len() && 0 <= q < right@.len() && #[trigger] pair_value(op, left@, right@, p, q)
                            == Outcome::Value(answer) implies at_most(
                        pair(left@, right@, i as int, j as int),
                        pair(left@, right@, p, q),
                    ) by {
                        assert(p > i || (p == i && q >= j));
                        if p > i {
                            assert(precedes(left@[i as int].1@, left@[p].1@));
                        } else if q > j {
                            assert(precedes(right@[j as int].1@, right@[q].1@));
                        }
                        joined_in_order(
                            left@[i as int].1@,
                            right@[j as int].1@,
                            left@[p].1@,
                            right@[q].1@,
                        );
                    }
                    assert(is_first_pair(op, left@, right@, answer, i as int, j as int));
                }
                return Some(joined(&left[i].1, &right[j].1));
            }
            j += 1;
        }
        i += 1;
    }
    None
}

/// The pair makes the answer, and no other one does so by an earlier choice.
spec fn is_first_pair(op: char, left: Seq<Entry>, right: Seq<Entry>, answer: i64, p: int, q: int) -> bool {
    &&& 0 <= p < left.len() && 0 <= q < right.len()
    &&& pair_value(op, left, right, p, q) == Outcome::Value(answer)
    &&& forall|m: int, n: int|
        0 <= m < left.len() && 0 <= n < right.len() && #[trigger] pair_value(op, left, right, m, n) == Outcome::Value(
            answer,
        ) ==> at_most(pair(left, right, p, q), pair(left, right, m, n))
}

/// Searches a tree by the tables of its subtrees.
fn search_tree(nodes: &[Flat], depth: &[usize], d: i64, answer: i64, pool: &[i64]) -> (r: Option<Vec<i64>>)
    requires
        depth@.len() >= nodes@.len(),
        nodes@.len() <= i64::MAX,
        is_tree(nodes@, depth@, 0, nodes@.len() as int, 0),
        d >= 0,
        increasing(pool@),
    ensures
        searched(
            r,
            first_values(nodes@, d as int, answer, frontier(nodes@, depth@, d as int, nodes@.len() as int), pool@),
        ),
{
    let end: usize = nodes.len();
    let ghost cut = frontier(nodes@, depth@, d as int, end as int);
    proof {
        cuts_are_frontier(nodes@, depth@, d as int, end as int);
        operands_are_trees(nodes@, depth@, 0, end as int, 0);
        first_is_first(nodes@, d as int, answer, cut, pool@);
    }
    let r: Option<Vec<i64>> = match &nodes[0] {
        Flat::Op(op, a, c) if d > 0 => {
            let left = tabulate(nodes, depth, d, *a, *c, pool);
            let right = tabulate(nodes, depth, d, *c, end, pool);
            let r = first_pair(*op, &left, &right, answer);
            proof {
                first_pair_is_first(nodes@, depth@, d as int, end as int, pool@, left@, right@, answer, r);
            }
            r
        },
        _ => {
            let t = tabulate(nodes, depth, d, 0, end, pool);
            let r = first_entry(&t, answer);
            proof {
                first_entry_is_first(nodes@, depth@, d as int, end as int, pool@, t@, answer, r);
            }
            r
        },
    };
    proof {
        first_is_one(nodes@, d as int, answer, cut, pool@, viewed(r), first_values(nodes@, d as int, answer, cut, pool@));
    }
    r
}

spec fn viewed(r: Option<Vec<i64>>) -> Option<Seq<i64>> {
    match r {
        Some(v) => Some(v@),
        None => None,
    }
}

proof fn first_pair_is_first(
    nodes: Seq<Flat>,
    depth: Seq<usize>,
    d: int,
    end: int,
    pool: Seq<i64>,
    left: Seq<Entry>,
    right: Seq<Entry>,
    answer: i64,
    r: Option<Vec<i64>>,
)
    requires
        is_above_cut(nodes, depth, d, 0, end),
        depth[0] == 0,
        are_operands(nodes, depth, d, 0, end, pool, left, right),
        match r {
            Some(v) => exists|p: int, q: int| #[trigger]
                is_first_pair(nodes[0]->Op_0, left, right, answer, p, q) && v@ == pair(left, right, p, q),
            None => forall|p: int, q: int|
                0 <= p < left.len() && 0 <= q < right.len() ==> #[trigger] pair_value(nodes[0]->Op_0, left, right, p, q)
                    != Outcome::Value(answer),
        },
    ensures
        is_first(nodes, d, answer, cuts_between(nodes, depth, d, 0, end), pool, viewed(r)),
{
    let op = nodes[0]->Op_0;
    let cut = cuts_between(nodes, depth, d, 0, end);
    if let Some(v) = r {
        let (p, q) = choose|p: int, q: int| #[trigger]
            is_first_pair(op, left, right, answer, p, q) && v@ == pair(left, right, p, q);
        pair_is_entry(nodes, depth, d, 0, end, pool, left, right, p, q, (answer, v));
    }
    assert forall|w: Seq<i64>|
        w.len() == cut.len() && #[trigger] drawn_from(w, pool) && gives(nodes, d, answer, cut, w) implies r is Some
        && at_most((r->0)@, w) by {
        let (p, q) = choice_is_paired(nodes, depth, d, 0, end, pool, left, right, w);
        assert(pair_value(op, left, right, p, q) == Outcome::Value(answer));
        precedes_carries((r->0)@, pair(left, right, p, q), w);
    }
}

/// The first entry with the answer.
fn first_entry(t: &Vec<Entry>, answer: i64) -> (r: Option<Vec<i64>>)
    ensures
        match r {
            Some(v) => exists|k: int| #[trigger] is_first_entry(t@, answer, k) && v@ == t@[k].1@,
            None => forall|k: int| 0 <= k < t@.len() ==> (#[trigger] t@[k]).0 != answer,
        },
{
    let mut i: usize = 0;
    while i < t.len()
        invariant
            i <= t@.len(),
            forall|k: int| 0 <= k < i ==> (#[trigger] t@[k]).0 != answer,
        decreases t.len() - i,
    {
        if t[i].0 == answer {
            let none: Vec<i64> = Vec::new();
            let v = joined(&t[i].1, &none);
            assert(v@ =~= t@[i as int].1@);
            assert(is_first_entry(t@, answer, i as int));
            return Some(v);
        }
        i += 1;
    }
    None
}

spec fn is_first_entry(t: Seq<Entry>, answer: i64, k: int) -> bool {
    0 <= k < t.len() && t[k].0 == answer && forall|m: int| 0 <= m < k ==> (#[trigger] t[m]).0 != answer
}

proof fn first_entry_is_first(
    nodes: Seq<Flat>,
    depth: Seq<usize>,
    d: int,
    end: int,
    pool: Seq<i64>,
    t: Seq<Entry>,
    answer: i64,
    r: Option<Vec<i64>>,
)
    requires
        is_table(nodes, 0, d, cuts_between(nodes, depth, d, 0, end), pool, t),
        match r {
            Some(v) => exists|k: int| #[trigger] is_first_entry(t, answer, k) && v@ == t[k].1@,
            None => forall|k: int| 0 <= k < t.len() ==> (#[trigger] t[k]).0 != answer,
        },
    ensures
        is_first(nodes, d, answer, cuts_between(nodes, depth, d, 0, end), pool, viewed(r)),
{
    let cut = cuts_between(nodes, depth, d, 0, end);
    if let Some(v) = r {
        let k = choose|k: int| #[trigger] is_first_entry(t, answer, k) && v@ == t[k].1@;
        assert(is_entry(nodes, 0, d, cut, pool, t[k]));
    }
    assert forall|w: Seq<i64>|
        w.len() == cut.len() && #[trigger] drawn_from(w, pool) && gives(nodes, d, answer, cut, w) implies r is Some
        && at_most((r->0)@, w) by {
        assert(has_by(t, answer, w));
        let m = choose|m: int| 0 <= m < t.len() && (#[trigger] t[m]).0 == answer && at_most(t[m].1@, w);
        let k = choose|k: int| #[trigger] is_first_entry(t, answer, k) && (r->0)@ == t[k].1@;
        if k < m {
            assert(precedes(t[k].1@, t[m].1@));
            precedes_carries(t[k].1@, t[m].1@, w);
        }
    }
}

/// Finds the first values of the pool that give the answer at the cut nodes.
pub(crate) fn search_values(nodes: &[Flat], depth: &[usize], d: i64, answer: i64, cut: &[usize], pool: &[i64]) -> (r: Option<
    Vec<i64>,
>)
    requires
        nodes@.len() > 0,
        depth@.len() >= nodes@.len(),
        links_ok(nodes@),
        d >= 0,
        cut@ == frontier(nodes@, depth@, d as int, nodes@.len() as int),
        increasing(pool@),
    ensures
        searched(r, first_values(nodes@, d as int, answer, cut@, pool@)),
{
    if nodes.len() as u64 <= 0x7fff_ffff_ffff_ffff && tree_end(nodes, depth, 0, 0) == Some(nodes.len()) {
        return search_tree(nodes, depth, d, answer, pool);
    }
    let mut chosen: Vec<i64> = Vec::new();
    assert(chosen@ =~= Seq::empty());
    search_choices(nodes, d, answer, cut, pool, &mut chosen)
}

/// A search in vectors came out as its model says.
pub open spec fn searched(r: Option<Vec<i64>>, s: Option<Seq<i64>>) -> bool {
    match (r, s) {
        (Some(v), Some(w)) => v@ == w,
        (None, None) => true,
        _ => false,
    }
}

/// Tries the values of the pool at the cut nodes behind the chosen ones, one choice after the other.
fn search_choices(nodes: &[Flat], d: i64, answer: i64, cut: &[usize], pool: &[i64], chosen: &mut Vec<i64>) -> (r: Option<
    Vec<i64>,
>)
    requires
        nodes@.len() > 0,
        links_ok(nodes@),
        old(chosen)@.len() <= cut@.len(),
    ensures
        searched(r, first_from(nodes@, d as int, answer, cut@, pool@, old(chosen)@)),
        final(chosen)@ == old(chosen)@,
    decreases cut@.len() - old(chosen)@.len(),
{
    if chosen.len() == cut.len() {
        let mut cuts: HashMap<usize, i64> = HashMap::new();
        let mut found: Vec<i64> = Vec::new();
        assert(cuts@ =~= assigned(cut@, chosen@.take(0)));
        for i in 0..chosen.len()
            invariant
                chosen@.len() == cut@.len(),
                found@ == chosen@.take(i as int),
                cuts@ == assigned(cut@, chosen@.take(i as int)),
        {
            assert(chosen@.take(i + 1).drop_last() =~= chosen@.take(i as int));
            cuts.insert(cut[i], chosen[i]);
            found.push(chosen[i]);
        }
        assert(chosen@.take(chosen@.len() as int) =~= chosen@);
        return if eval_bounded(nodes, 0, d, &cuts) == Outcome::Value(answer) { Some(found) } else { None };
    }
    let ghost start = chosen@;
    let mut i: usize = 0;
    while i < pool.len()
        invariant
            i <= pool@.len(),
            nodes@.len() > 0,
            links_ok(nodes@),
            start == old(chosen)@,
            chosen@ == start,
            start.len() < cut@.len(),
            first_from(nodes@, d as int, answer, cut@, pool@, start) == first_among(
                nodes@,
                d as int,
                answer,
                cut@,
                pool@,
                start,
                i as int,
            ),
        decreases pool.len() - i,
    {
        chosen.push(pool[i]);
        let r = search_choices(nodes, d, answer, cut, pool, chosen);
        chosen.pop();
        assert(chosen@ =~= start);
        if r.is_some() {
            return r;
        }
        i += 1;
    }
    None
}

} // verus!
