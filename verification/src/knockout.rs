//! What a decision rests on, tested by knocking circuits out: the strongest ones together, and, where the decision
//! outlives the loss of the strongest, the layers and heads behind it that rescued it.
use crate::routing::{all_below, is_top, top_k};
use crate::working_set::Circuit;
use vstd::prelude::*;

verus! {

/// The kind of a circuit that is an attention head; any other is a neuron.
pub const HEAD: u8 = 0;

/// The layers and indices of those of the chosen circuits that are heads, or of those that are neurons.
pub open spec fn of_kind(circuits: Seq<Circuit>, chosen: Seq<usize>, heads: bool) -> Seq<(usize, usize)>
    decreases chosen.len(),
{
    if chosen.len() == 0 {
        Seq::empty()
    } else {
        let rest = of_kind(circuits, chosen.drop_last(), heads);
        let c = circuits[chosen.last() as int];
        if (c.kind == HEAD) == heads { rest.push((c.layer, c.idx)) } else { rest }
    }
}

/// Parts the chosen circuits into heads and neurons, each in the order of the choice.
pub fn part(circuits: &[Circuit], chosen: &[usize]) -> (r: (Vec<(usize, usize)>, Vec<(usize, usize)>))
    requires
        forall|i: int| 0 <= i < chosen@.len() ==> (#[trigger] chosen@[i]) < circuits@.len(),
    ensures
        r.0@ == of_kind(circuits@, chosen@, true),
        r.1@ == of_kind(circuits@, chosen@, false),
{
    let mut heads: Vec<(usize, usize)> = Vec::new();
    let mut neurons: Vec<(usize, usize)> = Vec::new();
    assert(chosen@.take(0) =~= Seq::empty());
    for k in 0..chosen.len()
        invariant
            forall|i: int| 0 <= i < chosen@.len() ==> (#[trigger] chosen@[i]) < circuits@.len(),
            heads@ == of_kind(circuits@, chosen@.take(k as int), true),
            neurons@ == of_kind(circuits@, chosen@.take(k as int), false),
    {
        assert(chosen@[k as int] < circuits@.len());
        assert(chosen@.take(k + 1).drop_last() =~= chosen@.take(k as int));
        assert(chosen@.take(k + 1).last() == chosen@[k as int]);
        let c: Circuit = circuits[chosen[k]];
        if c.kind == HEAD {
            heads.push((c.layer, c.idx));
        } else {
            neurons.push((c.layer, c.idx));
        }
    }
    assert(chosen@.take(chosen@.len() as int) =~= chosen@);
    (heads, neurons)
}

/// A run of the model without the given heads and neurons decides otherwise, or not, as told.
pub open spec fn is_flip<F: Fn(&[(usize, usize)], &[(usize, usize)]) -> Option<i64>>(
    run: F,
    heads: Seq<(usize, usize)>,
    neurons: Seq<(usize, usize)>,
    decided: i64,
    flip: bool,
) -> bool {
    exists|h: &[(usize, usize)], n: &[(usize, usize)], p: Option<i64>| #[trigger]
        call_ensures(run, (h, n), p) && h@ == heads && n@ == neurons && flip == (p != Some(decided))
}

/// The run without the `k` strongest circuits.
pub open spec fn is_coalition_flip<F: Fn(&[(usize, usize)], &[(usize, usize)]) -> Option<i64>>(
    run: F,
    circuits: Seq<Circuit>,
    keys: Seq<i64>,
    k: nat,
    decided: i64,
    flip: bool,
) -> bool {
    exists|top: Seq<usize>| #[trigger]
        is_top(top, all_below(keys.len()), keys, k) && is_flip(
            run,
            of_kind(circuits, top, true),
            of_kind(circuits, top, false),
            decided,
            flip,
        )
}

fn differs(p: Option<i64>, decided: i64) -> (r: bool)
    ensures
        r == (p != Some(decided)),
{
    match p {
        Some(x) => x != decided,
        None => true,
    }
}

/// Knocks out the strongest circuits together, in coalitions of the given sizes, and tells for each whether the
/// decision flips. A size beyond all circuits knocks out all of them.
pub fn knock_out<F: Fn(&[(usize, usize)], &[(usize, usize)]) -> Option<i64>>(
    circuits: &[Circuit],
    keys: &[i64],
    sizes: &[usize],
    decided: i64,
    run: &F,
) -> (flips: Vec<bool>)
    requires
        circuits@.len() == keys@.len(),
        forall|h: &[(usize, usize)], n: &[(usize, usize)]| #[trigger] call_requires(*run, (h, n)),
    ensures
        flips@.len() == sizes@.len(),
        forall|i: int|
            0 <= i < sizes@.len() ==> is_coalition_flip(
                *run,
                circuits@,
                keys@,
                sizes@[i] as nat,
                decided,
                #[trigger] flips@[i],
            ),
{
    let mut flips: Vec<bool> = Vec::new();
    for i in 0..sizes.len()
        invariant
            circuits@.len() == keys@.len(),
            forall|h: &[(usize, usize)], n: &[(usize, usize)]| #[trigger] call_requires(*run, (h, n)),
            flips@.len() == i,
            forall|j: int|
                0 <= j < i ==> is_coalition_flip(
                    *run,
                    circuits@,
                    keys@,
                    sizes@[j] as nat,
                    decided,
                    #[trigger] flips@[j],
                ),
    {
        let top = top_k(keys, sizes[i]);
        let (heads, neurons) = part(circuits, top.as_slice());
        let h: &[(usize, usize)] = heads.as_slice();
        let n: &[(usize, usize)] = neurons.as_slice();
        let p = run(h, n);
        let flip = differs(p, decided);
        assert(is_flip(*run, of_kind(circuits@, top@, true), of_kind(circuits@, top@, false), decided, flip));
        flips.push(flip);
    }
    flips
}

/// How the flips that the scores foretell and those that happen agree.
#[derive(Clone, Copy, PartialEq, Eq, Structural)]
pub struct Confusion {
    pub both: usize,
    pub neither: usize,
    pub foretold: usize,
    pub unforeseen: usize,
}

/// How many of the first `n` pairs are this one.
pub open spec fn pairs(foretold: Seq<bool>, flips: Seq<bool>, n: nat, a: bool, b: bool) -> nat
    decreases n,
{
    if n == 0 {
        0
    } else {
        pairs(foretold, flips, (n - 1) as nat, a, b) + if foretold[n - 1] == a && flips[n - 1] == b { 1nat } else { 0 }
    }
}

pub open spec fn is_confusion(c: Confusion, foretold: Seq<bool>, flips: Seq<bool>, n: nat) -> bool {
    &&& c.both == pairs(foretold, flips, n, true, true)
    &&& c.neither == pairs(foretold, flips, n, false, false)
    &&& c.foretold == pairs(foretold, flips, n, true, false)
    &&& c.unforeseen == pairs(foretold, flips, n, false, true)
}

/// Counts how foretold flips and flips agree.
pub fn confusion(foretold: &[bool], flips: &[bool]) -> (c: Confusion)
    requires
        foretold@.len() == flips@.len(),
    ensures
        is_confusion(c, foretold@, flips@, flips@.len()),
        c.both + c.neither + c.foretold + c.unforeseen == flips@.len(),
{
    let mut c = Confusion { both: 0, neither: 0, foretold: 0, unforeseen: 0 };
    for i in 0..flips.len()
        invariant
            foretold@.len() == flips@.len(),
            is_confusion(c, foretold@, flips@, i as nat),
            c.both + c.neither + c.foretold + c.unforeseen == i,
    {
        let (a, b) = (foretold[i], flips[i]);
        if a && b {
            c = Confusion { both: c.both + 1, ..c };
        } else if a {
            c = Confusion { foretold: c.foretold + 1, ..c };
        } else if b {
            c = Confusion { unforeseen: c.unforeseen + 1, ..c };
        } else {
            c = Confusion { neither: c.neither + 1, ..c };
        }
    }
    c
}

/// A layer behind the strongest circuit, and whether the decision flips without its attention or its neurons.
#[derive(Clone, Copy, PartialEq, Eq, Structural)]
pub struct Rescue {
    pub layer: usize,
    pub attention: bool,
    pub neurons: bool,
}

/// The runs without the strongest circuit and one block of a layer: its attention, or its neurons.
pub open spec fn is_rescue<F: Fn(usize, bool) -> Option<i64>>(run: F, r: Rescue, decided: i64) -> bool {
    &&& exists|p: Option<i64>| #[trigger]
        call_ensures(run, (r.layer, true), p) && r.attention == (p != Some(decided))
    &&& exists|p: Option<i64>| #[trigger]
        call_ensures(run, (r.layer, false), p) && r.neurons == (p != Some(decided))
}

/// Looks for what rescued a decision that the loss of a circuit in layer `from` should have flipped: each layer
/// behind it is knocked out too, its attention and its neurons apart.
pub fn find_rescue<F: Fn(usize, bool) -> Option<i64>>(from: usize, layers: usize, decided: i64, run: &F) -> (v: Vec<
    Rescue,
>)
    requires
        forall|l: usize, attention: bool|
            from < l < layers ==> #[trigger] call_requires(*run, (l, attention)),
    ensures
        v@.len() == if from < layers { layers - from - 1 } else { 0 },
        forall|i: int|
            0 <= i < v@.len() ==> (#[trigger] v@[i]).layer == from + 1 + i && is_rescue(*run, v@[i], decided),
{
    let mut v: Vec<Rescue> = Vec::new();
    if from >= layers {
        return v;
    }
    for l in from + 1..layers
        invariant
            from < layers,
            forall|l: usize, attention: bool|
                from < l < layers ==> #[trigger] call_requires(*run, (l, attention)),
            v@.len() == l - from - 1,
            forall|i: int|
                0 <= i < v@.len() ==> (#[trigger] v@[i]).layer == from + 1 + i && is_rescue(*run, v@[i], decided),
    {
        let p = run(l, true);
        let q = run(l, false);
        let r = Rescue { layer: l, attention: differs(p, decided), neurons: differs(q, decided) };
        assert(is_rescue(*run, r, decided));
        v.push(r);
    }
    v
}

/// A layer of the sweep rescued the decision with the blocks that are asked about.
pub open spec fn breaks(v: Seq<Rescue>, attention: bool, neurons: bool) -> bool {
    exists|i: int| 0 <= i < v.len() && rescues(#[trigger] v[i], attention, neurons)
}

pub open spec fn rescues(r: Rescue, attention: bool, neurons: bool) -> bool {
    (attention && r.attention) || (neurons && r.neurons)
}

/// How many of the first `n` rescues the loss of a single block behind them breaks.
pub open spec fn broken(sweeps: Seq<Vec<Rescue>>, n: nat, attention: bool, neurons: bool) -> nat
    decreases n,
{
    if n == 0 {
        0
    } else {
        broken(sweeps, (n - 1) as nat, attention, neurons) + if breaks(sweeps[n - 1]@, attention, neurons) {
            1nat
        } else {
            0
        }
    }
}

fn has_break(v: &[Rescue], attention: bool, neurons: bool) -> (r: bool)
    ensures
        r == breaks(v@, attention, neurons),
{
    for i in 0..v.len()
        invariant
            forall|j: int| 0 <= j < i ==> !rescues(#[trigger] v@[j], attention, neurons),
    {
        if (attention && v[i].attention) || (neurons && v[i].neurons) {
            assert(rescues(v@[i as int], attention, neurons));
            return true;
        }
    }
    false
}

/// How many rescues a single block breaks: one of attention, one of neurons, one of either.
pub fn breakable(sweeps: &[Vec<Rescue>]) -> (r: (usize, usize, usize))
    ensures
        r.0 == broken(sweeps@, sweeps@.len(), true, false),
        r.1 == broken(sweeps@, sweeps@.len(), false, true),
        r.2 == broken(sweeps@, sweeps@.len(), true, true),
{
    let (mut a, mut b, mut c): (usize, usize, usize) = (0, 0, 0);
    for i in 0..sweeps.len()
        invariant
            a == broken(sweeps@, i as nat, true, false) <= i,
            b == broken(sweeps@, i as nat, false, true) <= i,
            c == broken(sweeps@, i as nat, true, true) <= i,
    {
        let v: &[Rescue] = sweeps[i].as_slice();
        if has_break(v, true, false) {
            a += 1;
        }
        if has_break(v, false, true) {
            b += 1;
        }
        if has_break(v, true, true) {
            c += 1;
        }
    }
    (a, b, c)
}

/// A rescue that both kinds of blocks break counts once: those that either breaks are no fewer than those that one
/// kind breaks, and no more than both counts together.
pub proof fn breaks_overlap(sweeps: Seq<Vec<Rescue>>, n: nat)
    requires
        n <= sweeps.len(),
    ensures
        broken(sweeps, n, true, false) <= broken(sweeps, n, true, true) <= n,
        broken(sweeps, n, false, true) <= broken(sweeps, n, true, true),
        broken(sweeps, n, true, true) <= broken(sweeps, n, true, false) + broken(sweeps, n, false, true),
    decreases n,
{
    if n > 0 {
        breaks_overlap(sweeps, (n - 1) as nat);
        let v = sweeps[n - 1]@;
        if breaks(v, true, false) {
            let i = choose|i: int| 0 <= i < v.len() && rescues(#[trigger] v[i], true, false);
            assert(rescues(v[i], true, true));
        }
        if breaks(v, false, true) {
            let i = choose|i: int| 0 <= i < v.len() && rescues(#[trigger] v[i], false, true);
            assert(rescues(v[i], true, true));
        }
        if breaks(v, true, true) {
            let i = choose|i: int| 0 <= i < v.len() && rescues(#[trigger] v[i], true, true);
            assert(rescues(v[i], true, false) || rescues(v[i], false, true));
        }
    }
}

/// How many of the first `n` sweeps reach the layer `depth` behind the circuit.
pub open spec fn deep(sweeps: Seq<Vec<Rescue>>, n: nat, depth: int) -> nat
    decreases n,
{
    if n == 0 {
        0
    } else {
        deep(sweeps, (n - 1) as nat, depth) + if sweeps[n - 1]@.len() >= depth { 1nat } else { 0 }
    }
}

/// How many of the first `n` sweeps have that layer rescue the decision with the blocks that are asked about.
pub open spec fn rescued_at(sweeps: Seq<Vec<Rescue>>, n: nat, depth: int, attention: bool, neurons: bool) -> nat
    decreases n,
{
    if n == 0 {
        0
    } else {
        rescued_at(sweeps, (n - 1) as nat, depth, attention, neurons) + if sweeps[n - 1]@.len() >= depth && rescues(
            sweeps[n - 1]@[depth - 1],
            attention,
            neurons,
        ) {
            1nat
        } else {
            0
        }
    }
}

/// Counts over all sweeps the layers `depth` behind the circuit: how many there are, how many rescued with their
/// attention, how many with their neurons.
pub fn at_depth(sweeps: &[Vec<Rescue>], depth: usize) -> (r: (usize, usize, usize))
    requires
        depth > 0,
    ensures
        r.0 == deep(sweeps@, sweeps@.len(), depth as int),
        r.1 == rescued_at(sweeps@, sweeps@.len(), depth as int, true, false),
        r.2 == rescued_at(sweeps@, sweeps@.len(), depth as int, false, true),
{
    let (mut all, mut a, mut b): (usize, usize, usize) = (0, 0, 0);
    for i in 0..sweeps.len()
        invariant
            depth > 0,
            all == deep(sweeps@, i as nat, depth as int) <= i,
            a == rescued_at(sweeps@, i as nat, depth as int, true, false) <= i,
            b == rescued_at(sweeps@, i as nat, depth as int, false, true) <= i,
    {
        if sweeps[i].len() >= depth {
            let r: Rescue = sweeps[i][depth - 1];
            all += 1;
            if r.attention {
                a += 1;
            }
            if r.neurons {
                b += 1;
            }
        }
    }
    (all, a, b)
}

/// The run without the strongest circuit and one head behind it decides otherwise, or not, as told.
pub open spec fn is_head_flip<F: Fn(usize, usize) -> Option<i64>>(
    run: F,
    layer: usize,
    head: usize,
    decided: i64,
    flip: bool,
) -> bool {
    exists|p: Option<i64>| #[trigger] call_ensures(run, (layer, head), p) && flip == (p != Some(decided))
}

/// Knocks out, with the strongest circuit of layer `from`, every single head of the layers behind it, and tells for
/// each layer and each of its heads whether the decision flips.
pub fn sweep_heads<F: Fn(usize, usize) -> Option<i64>>(
    from: usize,
    layers: usize,
    heads: usize,
    decided: i64,
    run: &F,
) -> (v: Vec<Vec<bool>>)
    requires
        forall|l: usize, h: usize| from < l < layers && h < heads ==> #[trigger] call_requires(*run, (l, h)),
    ensures
        v@.len() == if from < layers { layers - from - 1 } else { 0 },
        forall|i: int| 0 <= i < v@.len() ==> (#[trigger] v@[i])@.len() == heads,
        forall|i: int, h: int|
            0 <= i < v@.len() && 0 <= h < heads ==> is_head_flip(
                *run,
                (from + 1 + i) as usize,
                h as usize,
                decided,
                #[trigger] v@[i]@[h],
            ),
{
    let mut v: Vec<Vec<bool>> = Vec::new();
    if from >= layers {
        return v;
    }
    for l in from + 1..layers
        invariant
            from < layers,
            forall|l: usize, h: usize| from < l < layers && h < heads ==> #[trigger] call_requires(*run, (l, h)),
            v@.len() == l - from - 1,
            forall|i: int| 0 <= i < v@.len() ==> (#[trigger] v@[i])@.len() == heads,
            forall|i: int, h: int|
                0 <= i < v@.len() && 0 <= h < heads ==> is_head_flip(
                    *run,
                    (from + 1 + i) as usize,
                    h as usize,
                    decided,
                    #[trigger] v@[i]@[h],
                ),
    {
        let mut row: Vec<bool> = Vec::new();
        for h in 0..heads
            invariant
                from < l < layers,
                forall|l: usize, h: usize| from < l < layers && h < heads ==> #[trigger] call_requires(*run, (l, h)),
                row@.len() == h,
                forall|k: int| 0 <= k < h ==> is_head_flip(*run, l, k as usize, decided, #[trigger] row@[k]),
        {
            let p = run(l, h);
            let flip = differs(p, decided);
            assert(is_head_flip(*run, l, h, decided, flip));
            row.push(flip);
        }
        v.push(row);
    }
    v
}

} // verus!
