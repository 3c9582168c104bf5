//! What holds of every count: the parts of what is counted add up, and each thing counts for what it is.
use vstd::prelude::*;
use crate::kernel::late_start;
use crate::knockout::{deep, of_kind, pairs, rescued_at, Rescue};
use crate::manifest::{integers, pair_of, pairs_in};
use crate::retrieval::{bi_successors, induction_hit, prediction, quad_successors, tri_successors, StoreModel};
use crate::shortcircuit::{hybrid_time, matches_in, sureness, taken_of, Lookup};
use crate::text::dec;
use crate::value_flow::{kind_of, ReadKind};
use crate::words::has_prefix;
use crate::working_set::{most_used, private_of, uses_of, Circuit};

verus! {

/// What a gate lets through adds up. One lookup passes where it is sure enough and chose among few enough, and counts as
/// right where it is.
pub proof fn lookups_add_up(a: Seq<Lookup>, b: Seq<Lookup>, one: Lookup, order: u8, fan: usize)
    ensures
        taken_of(a + b, order, fan).0 == taken_of(a, order, fan).0 + taken_of(b, order, fan).0,
        taken_of(a + b, order, fan).1 == taken_of(a, order, fan).1 + taken_of(b, order, fan).1,
        taken_of(seq![one], order, fan).1 == (if one.order >= order && one.fan <= fan { 1nat } else { 0 }),
        taken_of(seq![one], order, fan).0 == (if one.order >= order && one.fan <= fan && one.right { 1nat } else { 0 }),
    decreases b.len(),
{
    reveal_with_fuel(taken_of, 2);
    assert(seq![one].drop_last() =~= Seq::empty());
    if b.len() == 0 {
        assert(a + b =~= a);
    } else {
        assert((a + b).drop_last() =~= a + b.drop_last());
        assert((a + b).last() == b.last());
        lookups_add_up(a, b.drop_last(), one, order, fan);
    }
}

/// Times add up. Every lookup costs its time, and one that is not taken the time of the forward pass as well.
pub proof fn times_add_up(
    a: Seq<(Lookup, u64, u64)>,
    b: Seq<(Lookup, u64, u64)>,
    one: (Lookup, u64, u64),
    order: u8,
    fan: usize,
)
    ensures
        hybrid_time(a + b, order, fan) == hybrid_time(a, order, fan) + hybrid_time(b, order, fan),
        hybrid_time(seq![one], order, fan) == one.1 + (if one.0.order >= order && one.0.fan <= fan { 0 } else { one.2 as int }),
    decreases b.len(),
{
    reveal_with_fuel(hybrid_time, 2);
    assert(seq![one].drop_last() =~= Seq::empty());
    if b.len() == 0 {
        assert(a + b =~= a);
    } else {
        assert((a + b).drop_last() =~= a + b.drop_last());
        assert((a + b).last() == b.last());
        times_add_up(a, b.drop_last(), one, order, fan);
    }
}

/// Two trajectories agree at each other's places; they agree at all of them exactly where they are the same, and at none
/// exactly where every place differs.
pub proof fn places_agree(a: Seq<i64>, b: Seq<i64>, n: nat)
    requires
        n <= a.len(),
        n <= b.len(),
    ensures
        matches_in(a, b, n) == matches_in(b, a, n),
        matches_in(a, b, n) <= n,
        matches_in(a, b, n) == n <==> a.take(n as int) == b.take(n as int),
        matches_in(a, b, n) == 0 <==> forall|i: int| 0 <= i < n ==> #[trigger] a[i] != b[i],
    decreases n,
{
    if n > 0 {
        let k = (n - 1) as nat;
        places_agree(a, b, k);
        if a.take(n as int) == b.take(n as int) {
            assert forall|i: int| 0 <= i < n implies #[trigger] a[i] == b[i] by {
                assert(a.take(n as int)[i] == b.take(n as int)[i]);
            }
            assert(a.take(k as int) =~= b.take(k as int));
        }
        if matches_in(a, b, n) == n {
            assert forall|i: int| 0 <= i < n implies #[trigger] a[i] == b[i] by {
                if i < k {
                    assert(a.take(k as int)[i] == b.take(k as int)[i]);
                }
            }
            assert(a.take(n as int) =~= b.take(n as int));
        }
    } else {
        assert(a.take(0) =~= b.take(0));
    }
}

/// Every flip is foretold or not, and comes or does not: the four counts add up to all of them, and each is the same from
/// either side.
pub proof fn confusions_add_up(foretold: Seq<bool>, flips: Seq<bool>, n: nat, a: bool, b: bool)
    requires
        n <= foretold.len(),
        n <= flips.len(),
    ensures
        pairs(foretold, flips, n, true, true) + pairs(foretold, flips, n, true, false) + pairs(foretold, flips, n, false, true)
            + pairs(foretold, flips, n, false, false) == n,
        pairs(foretold, flips, n, a, b) == pairs(flips, foretold, n, b, a),
    decreases n,
{
    if n > 0 {
        confusions_add_up(foretold, flips, (n - 1) as nat, a, b);
    }
}

/// The chosen circuits are parted in order: each is a head or a neuron, and goes with its layer and its index.
pub proof fn circuits_are_parted(circuits: Seq<Circuit>, a: Seq<usize>, b: Seq<usize>, one: usize, heads: bool)
    ensures
        of_kind(circuits, a + b, heads) == of_kind(circuits, a, heads) + of_kind(circuits, b, heads),
        of_kind(circuits, seq![one], heads) == (if (circuits[one as int].kind == 0) == heads {
            seq![(circuits[one as int].layer, circuits[one as int].idx)]
        } else {
            Seq::empty()
        }),
        of_kind(circuits, a, true).len() + of_kind(circuits, a, false).len() == a.len(),
    decreases a.len() + b.len(),
{
    reveal_with_fuel(of_kind, 2);
    assert(seq![one].drop_last() =~= Seq::empty());
    let c = circuits[one as int];
    assert(Seq::<(usize, usize)>::empty().push((c.layer, c.idx)) =~= seq![(c.layer, c.idx)]);
    if b.len() > 0 {
        assert((a + b).drop_last() =~= a + b.drop_last());
        assert((a + b).last() == b.last());
        circuits_are_parted(circuits, a, b.drop_last(), one, heads);
        let h = of_kind(circuits, a, heads);
        let t = of_kind(circuits, b.drop_last(), heads);
        let d = circuits[b.last() as int];
        assert((h + t).push((d.layer, d.idx)) =~= h + t.push((d.layer, d.idx)));
    } else {
        assert(a + b =~= a);
        assert(of_kind(circuits, a, heads) + of_kind(circuits, b, heads) =~= of_kind(circuits, a, heads));
        if a.len() > 0 {
            circuits_are_parted(circuits, a.drop_last(), b, one, heads);
        }
    }
}

/// A rescue at a depth is one of the sweeps that reach it; fewer reach deeper, and more blocks rescue more.
pub proof fn rescues_stay_within(sweeps: Seq<Vec<Rescue>>, n: nat, depth: int, attention: bool, neurons: bool)
    ensures
        rescued_at(sweeps, n, depth, attention, neurons) <= deep(sweeps, n, depth) <= n,
        deep(sweeps, n, depth + 1) <= deep(sweeps, n, depth),
        rescued_at(sweeps, n, depth, attention, neurons) <= rescued_at(sweeps, n, depth, true, true),
        rescued_at(sweeps, n, depth, true, true) <= rescued_at(sweeps, n, depth, true, false) + rescued_at(
            sweeps,
            n,
            depth,
            false,
            true,
        ),
        rescued_at(sweeps, n, depth, false, false) == 0,
    decreases n,
{
    if n > 0 {
        rescues_stay_within(sweeps, (n - 1) as nat, depth, attention, neurons);
    }
}

/// Integers are kept in order, and what is none is dropped.
pub proof fn integers_are_kept(a: Seq<Option<i64>>, b: Seq<Option<i64>>, v: i64)
    ensures
        integers(a + b) == integers(a) + integers(b),
        integers(seq![Some(v)]) == seq![v],
        integers(seq![None::<i64>]) == Seq::<i64>::empty(),
    decreases b.len(),
{
    reveal_with_fuel(integers, 2);
    assert(seq![Some(v)].drop_last() =~= Seq::empty());
    assert(seq![None::<i64>].drop_last() =~= Seq::empty());
    assert(Seq::<i64>::empty().push(v) =~= seq![v]);
    if b.len() == 0 {
        assert(a + b =~= a);
        assert(integers(a) + integers(b) =~= integers(a));
    } else {
        assert((a + b).drop_last() =~= a + b.drop_last());
        assert((a + b).last() == b.last());
        integers_are_kept(a, b.drop_last(), v);
        if let Some(n) = b.last() {
            assert((integers(a) + integers(b.drop_last())).push(n) =~= integers(a) + integers(b.drop_last()).push(n));
        }
    }
}

/// Pairs are kept in order: the first two items of a list, where both are numbers; what is no pair is dropped.
pub proof fn pairs_are_kept(
    a: Seq<Option<Seq<Option<u64>>>>,
    b: Seq<Option<Seq<Option<u64>>>>,
    x: u64,
    y: u64,
    more: Seq<Option<u64>>,
)
    ensures
        pairs_in(a + b) == pairs_in(a) + pairs_in(b),
        pairs_in(seq![Some(seq![Some(x), Some(y)] + more)]) == seq![(x as usize, y as usize)],
        pairs_in(seq![Some(seq![Some(x)])]).len() == 0,
        pairs_in(seq![Some(seq![None, Some(y)] + more)]).len() == 0,
        pairs_in(seq![Some(seq![Some(x), None] + more)]).len() == 0,
        pairs_in(seq![None::<Seq<Option<u64>>>]).len() == 0,
    decreases b.len(),
{
    reveal_with_fuel(pairs_in, 2);
    let p = seq![Some(x), Some(y)] + more;
    assert(seq![Some(p)].drop_last() =~= Seq::empty());
    assert(p[0] == Some(x) && p[1] == Some(y));
    assert(seq![Some(seq![Some(x)])].drop_last() =~= Seq::empty());
    let q = seq![None, Some(y)] + more;
    assert(seq![Some(q)].drop_last() =~= Seq::empty());
    assert(q[0] == None::<u64>);
    let r = seq![Some(x), None] + more;
    assert(seq![Some(r)].drop_last() =~= Seq::empty());
    assert(r[1] == None::<u64>);
    assert(seq![None::<Seq<Option<u64>>>].drop_last() =~= Seq::empty());
    assert(Seq::<(usize, usize)>::empty().push((x as usize, y as usize)) =~= seq![(x as usize, y as usize)]);
    if b.len() == 0 {
        assert(a + b =~= a);
        assert(pairs_in(a) + pairs_in(b) =~= pairs_in(a));
    } else {
        assert((a + b).drop_last() =~= a + b.drop_last());
        assert((a + b).last() == b.last());
        pairs_are_kept(a, b.drop_last(), x, y, more);
        if let Some(n) = pair_of(b.last()) {
            assert((pairs_in(a) + pairs_in(b.drop_last())).push(n) =~= pairs_in(a) + pairs_in(b.drop_last()).push(n));
        }
    }
}

/// The greatest number of uses is that of some circuit, and none has more.
pub proof fn most_uses_are_greatest(m: Seq<(Circuit, usize)>)
    ensures
        forall|i: int| 0 <= i < m.len() ==> (#[trigger] m[i]).1 <= most_used(m),
        most_used(m) > 0 ==> exists|i: int| 0 <= i < m.len() && (#[trigger] m[i]).1 == most_used(m),
        m.len() == 0 ==> most_used(m) == 0,
    decreases m.len(),
{
    if m.len() > 0 {
        let h = m.drop_last();
        most_uses_are_greatest(h);
        assert forall|i: int| 0 <= i < m.len() implies (#[trigger] m[i]).1 <= most_used(m) by {
            if i < h.len() {
                assert(h[i] == m[i]);
            }
        }
        if most_used(m) > 0 {
            if m.last().1 > most_used(h) {
                assert(m[m.len() - 1].1 == most_used(m));
            } else {
                let i = choose|i: int| 0 <= i < h.len() && (#[trigger] h[i]).1 == most_used(h);
                assert(m[i].1 == most_used(m));
            }
        }
    }
}

/// Uses add up, and so do the circuits that are used once.
pub proof fn circuits_add_up(a: Seq<(Circuit, usize)>, b: Seq<(Circuit, usize)>, one: (Circuit, usize))
    ensures
        uses_of(a + b) == uses_of(a) + uses_of(b),
        uses_of(seq![one]) == one.1,
        private_of(a + b) == private_of(a) + private_of(b),
        private_of(seq![one]) == (if one.1 == 1 { 1nat } else { 0 }),
    decreases b.len(),
{
    reveal_with_fuel(uses_of, 2);
    reveal_with_fuel(private_of, 2);
    assert(seq![one].drop_last() =~= Seq::empty());
    if b.len() == 0 {
        assert(a + b =~= a);
    } else {
        assert((a + b).drop_last() =~= a + b.drop_last());
        assert((a + b).last() == b.last());
        circuits_add_up(a, b.drop_last(), one);
    }
}

/// The late layers begin where two thirds are passed.
pub proof fn last_third_is_late(n: int)
    requires
        0 <= n,
    ensures
        3 * late_start(n) <= 2 * n < 3 * (late_start(n) + 1),
        0 <= late_start(n) <= n,
{
}

/// A number that is read is what it is first: the true value, else an operand, else the answer, else something other.
pub proof fn readings_are_told(r: i64, truth: Option<i64>, leaves: Seq<i64>, answer: Option<i64>)
    ensures
        kind_of(None, truth, leaves, answer) == ReadKind::Nothing,
        kind_of(Some(r), Some(r), leaves, answer) == ReadKind::Textbook,
        kind_of(Some(r), truth, leaves, answer) == ReadKind::Textbook ==> truth == Some(r),
        kind_of(Some(r), truth, leaves, answer) == ReadKind::Operand <==> truth != Some(r) && leaves.contains(r),
        kind_of(Some(r), truth, leaves, answer) == ReadKind::Answer <==> truth != Some(r) && !leaves.contains(r) && answer
            == Some(r),
        kind_of(Some(r), truth, leaves, answer) == ReadKind::Other <==> truth != Some(r) && !leaves.contains(r) && answer
            != Some(r),
{
}

/// A prediction is as sure as its context is long: three tokens for a quad, two for a trigram, one for a bigram, and none for
/// the grammar and the floor; a copy is surer than all of them.
pub proof fn longer_contexts_are_surer(m: StoreModel, ctx: Seq<i64>)
    requires
        prediction(m, ctx) is Some,
    ensures
        sureness((prediction(m, ctx)->0).1) == (if induction_hit(ctx, ctx.len() - 1, m.min_accept) is Some {
            4u8
        } else if quad_successors(m, ctx).len() > 0 {
            3
        } else if tri_successors(m, ctx).len() > 0 {
            2
        } else if bi_successors(m, ctx).len() > 0 {
            1
        } else {
            0
        }),
{
    reveal_strlit("induction");
    reveal_strlit("induction-");
    reveal_strlit("quad");
    reveal_strlit("tri");
    reveal_strlit("trigram");
    reveal_strlit("bi");
    reveal_strlit("bigram");
    reveal_strlit("grammar-");
    reveal_strlit("unigram");
    let tag = (prediction(m, ctx)->0).1;
    assert(has_prefix(tag, "induction"@) ==> tag.take(9)[0] == tag[0]);
    assert(has_prefix(tag, "quad"@) ==> tag.take(4)[0] == tag[0]);
    assert(has_prefix(tag, "tri"@) ==> tag.take(3)[0] == tag[0]);
    assert(has_prefix(tag, "bi"@) ==> tag.take(2)[0] == tag[0]);
    match induction_hit(ctx, ctx.len() - 1, m.min_accept) {
        Some((t, span)) => {
            assert(("induction-"@ + dec(span as nat)).take(9) =~= "induction"@);
        },
        None => {
            assert("quad"@.take(4) =~= "quad"@);
            assert("trigram"@.take(3) =~= "tri"@);
            assert("bigram"@.take(2) =~= "bi"@);
            assert(("grammar-"@ + dec(3))[0] == 'g' && ("grammar-"@ + dec(2))[0] == 'g');
        },
    }
}

} // verus!
