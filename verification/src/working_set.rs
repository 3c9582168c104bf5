//! The circuits that a query uses: the circuits of its tokens put together, how often each is used, and which are
//! shared by many tokens.
use vstd::prelude::*;

verus! {

/// A circuit of a model: an attention head, or a neuron.
#[derive(Clone, Copy, PartialEq, Eq, Structural)]
pub struct Circuit {
    pub kind: u8,
    pub layer: usize,
    pub idx: usize,
}

/// All uses, token by token.
pub open spec fn uses(atoms: Seq<Vec<Circuit>>, n: nat) -> Seq<Circuit>
    decreases n,
{
    if n == 0 {
        Seq::empty()
    } else {
        uses(atoms, (n - 1) as nat) + atoms[n - 1]@
    }
}

/// How often a circuit is used.
pub open spec fn used(s: Seq<Circuit>, c: Circuit) -> nat
    decreases s.len(),
{
    if s.len() == 0 {
        0
    } else {
        used(s.drop_last(), c) + if s.last() == c { 1nat } else { 0 }
    }
}

/// Every circuit that is used stands once, with how often it is used.
pub open spec fn is_count(m: Seq<(Circuit, usize)>, s: Seq<Circuit>) -> bool {
    &&& forall|i: int, j: int| 0 <= i < j < m.len() ==> (#[trigger] m[i]).0 != (#[trigger] m[j]).0
    &&& forall|i: int| 0 <= i < m.len() ==> (#[trigger] m[i]).1 == used(s, m[i].0) && m[i].1 > 0
    &&& forall|c: Circuit| #[trigger] used(s, c) > 0 ==> exists|i: int| 0 <= i < m.len() && (#[trigger] m[i]).0 == c
}

/// Adds one use.
fn count_use(m: &mut Vec<(Circuit, usize)>, c: Circuit, s: Ghost<Seq<Circuit>>)
    requires
        is_count(old(m)@, s@),
        s@.len() < usize::MAX,
    ensures
        is_count(final(m)@, s@.push(c)),
{
    let ghost was = m@;
    let ghost t = s@.push(c);
    proof {
        assert(t.drop_last() =~= s@);
        used_bounded(s@, c);
    }
    let n: usize = m.len();
    for i in 0..n
        invariant
            n == m@.len(),
            m@ == was,
            is_count(was, s@),
            t == s@.push(c),
            t.drop_last() == s@,
            used(s@, c) <= s@.len() < usize::MAX,
            forall|k: int| 0 <= k < i ==> (#[trigger] was[k]).0 != c,
    {
        if m[i].0 == c {
            let k: usize = m[i].1;
            m.set(i, (c, k + 1));
            proof {
                assert forall|j: int| 0 <= j < m@.len() implies (#[trigger] m@[j]).1 == used(t, m@[j].0) && m@[j].1 > 0 by {
                    if j != i {
                        assert(m@[j] == was[j]);
                        assert(was[j].0 != was[i as int].0) by {
                            if j < i {
                                assert(was[j].0 != was[i as int].0);
                            } else {
                                assert(was[i as int].0 != was[j].0);
                            }
                        }
                    }
                }
                assert forall|d: Circuit| #[trigger] used(t, d) > 0 implies exists|j: int|
                    0 <= j < m@.len() && (#[trigger] m@[j]).0 == d by {
                    if d == c {
                        assert(m@[i as int].0 == d);
                    } else {
                        assert(used(s@, d) > 0);
                        let j = choose|j: int| 0 <= j < was.len() && (#[trigger] was[j]).0 == d;
                        assert(m@[j].0 == d);
                    }
                }
                assert forall|a: int, b: int| 0 <= a < b < m@.len() implies (#[trigger] m@[a]).0 != (#[trigger] m@[b]).0 by {
                    assert(was[a].0 != was[b].0);
                    assert(m@[a].0 == was[a].0 && m@[b].0 == was[b].0);
                }
            }
            return;
        }
    }
    m.push((c, 1));
    proof {
        assert(used(s@, c) == 0) by {
            if used(s@, c) > 0 {
                let j = choose|j: int| 0 <= j < was.len() && (#[trigger] was[j]).0 == c;
                assert(was[j].0 != c);
            }
        }
        assert forall|j: int| 0 <= j < m@.len() implies (#[trigger] m@[j]).1 == used(t, m@[j].0) && m@[j].1 > 0 by {
            if j < was.len() {
                assert(m@[j] == was[j]);
                assert(was[j].0 != c);
            }
        }
        assert forall|d: Circuit| #[trigger] used(t, d) > 0 implies exists|j: int|
            0 <= j < m@.len() && (#[trigger] m@[j]).0 == d by {
            if d == c {
                assert(m@[n as int].0 == d);
            } else {
                assert(used(s@, d) > 0);
                let j = choose|j: int| 0 <= j < was.len() && (#[trigger] was[j]).0 == d;
                assert(m@[j].0 == d);
            }
        }
        assert forall|a: int, b: int| 0 <= a < b < m@.len() implies (#[trigger] m@[a]).0 != (#[trigger] m@[b]).0 by {
            if b < was.len() {
                assert(was[a].0 != was[b].0);
            } else {
                assert(was[a].0 != c);
            }
        }
    }
}

proof fn used_bounded(s: Seq<Circuit>, c: Circuit)
    ensures
        used(s, c) <= s.len(),
    decreases s.len(),
{
    if s.len() > 0 {
        used_bounded(s.drop_last(), c);
    }
}

/// The working set of a query: its circuits with how often each is used, all uses, and the greatest number of uses.
pub struct WorkingSet {
    pub circuits: Vec<(Circuit, usize)>,
    pub total: usize,
    pub most: usize,
}

/// The greatest number of uses.
pub open spec fn most_used(m: Seq<(Circuit, usize)>) -> nat
    decreases m.len(),
{
    if m.len() == 0 {
        0
    } else {
        let rest = most_used(m.drop_last());
        if m.last().1 > rest { m.last().1 as nat } else { rest }
    }
}

/// Puts the circuits of the tokens of a query together.
pub fn working_set(atoms: &[Vec<Circuit>]) -> (w: WorkingSet)
    requires
        uses(atoms@, atoms@.len()).len() <= usize::MAX,
    ensures
        is_count(w.circuits@, uses(atoms@, atoms@.len())),
        w.total == uses(atoms@, atoms@.len()).len(),
        w.most == most_used(w.circuits@),
{
    let mut m: Vec<(Circuit, usize)> = Vec::new();
    let mut total: usize = 0;
    for t in 0..atoms.len()
        invariant
            uses(atoms@, atoms@.len()).len() <= usize::MAX,
            is_count(m@, uses(atoms@, t as nat)),
            total == uses(atoms@, t as nat).len(),
    {
        let ghost before = uses(atoms@, t as nat);
        let ghost a = atoms@[t as int]@;
        proof {
            uses_grow(atoms@, (t + 1) as nat, atoms@.len());
            assert(before + a.take(0) =~= before);
        }
        let k: usize = atoms[t].len();
        for i in 0..k
            invariant
                t < atoms@.len(),
                a == atoms@[t as int]@,
                k == a.len(),
                before.len() + k <= usize::MAX,
                is_count(m@, before + a.take(i as int)),
        {
            assert(before + a.take(i + 1) =~= (before + a.take(i as int)).push(a[i as int]));
            count_use(&mut m, atoms[t][i], Ghost(before + a.take(i as int)));
        }
        assert(before + a.take(k as int) =~= uses(atoms@, (t + 1) as nat));
        total += k;
    }
    let mut most: usize = 0;
    for i in 0..m.len()
        invariant
            most == most_used(m@.take(i as int)),
    {
        assert(m@.take(i + 1).drop_last() =~= m@.take(i as int));
        if m[i].1 > most {
            most = m[i].1;
        }
    }
    assert(m@.take(m.len() as int) =~= m@);
    WorkingSet { circuits: m, total, most }
}

proof fn uses_grow(atoms: Seq<Vec<Circuit>>, a: nat, b: nat)
    requires
        a <= b,
    ensures
        uses(atoms, a).len() <= uses(atoms, b).len(),
    decreases b,
{
    if a < b {
        uses_grow(atoms, a, (b - 1) as nat);
    }
}

/// How many circuits are used exactly once: they are private to a token.
pub open spec fn private_of(m: Seq<(Circuit, usize)>) -> nat
    decreases m.len(),
{
    if m.len() == 0 {
        0
    } else {
        private_of(m.drop_last()) + if m.last().1 == 1 { 1nat } else { 0 }
    }
}

pub fn private_circuits(m: &[(Circuit, usize)]) -> (n: usize)
    ensures
        n == private_of(m@),
        n <= m@.len(),
{
    let mut n: usize = 0;
    for i in 0..m.len()
        invariant
            n == private_of(m@.take(i as int)),
            n <= i,
    {
        assert(m@.take(i + 1).drop_last() =~= m@.take(i as int));
        if m[i].1 == 1 {
            n += 1;
        }
    }
    assert(m@.take(m.len() as int) =~= m@);
    n
}

/// The hub: the circuits that are used at least so often, the most used first.
pub open spec fn is_hub(h: Seq<(Circuit, usize)>, m: Seq<(Circuit, usize)>, least: nat) -> bool {
    &&& forall|i: int, j: int| 0 <= i < j < h.len() ==> (#[trigger] h[i]).1 >= (#[trigger] h[j]).1
    &&& h.to_multiset() == m.filter(|x: (Circuit, usize)| x.1 >= least).to_multiset()
}

pub fn hub(m: &[(Circuit, usize)], least: usize) -> (h: Vec<(Circuit, usize)>)
    ensures
        is_hub(h@, m@, least as nat),
{
    let ghost keep = |x: (Circuit, usize)| x.1 >= least as nat;
    let mut h: Vec<(Circuit, usize)> = Vec::new();
    proof {
        broadcast use vstd::seq_lib::group_to_multiset_ensures;

        assert(m@.take(0).filter(keep) =~= Seq::empty()) by {
            reveal(Seq::filter);
        }
        assert(h@ =~= m@.take(0).filter(keep));
    }
    for k in 0..m.len()
        invariant
            keep == (|x: (Circuit, usize)| x.1 >= least as nat),
            forall|i: int, j: int| 0 <= i < j < h@.len() ==> (#[trigger] h@[i]).1 >= (#[trigger] h@[j]).1,
            h@.to_multiset() == m@.take(k as int).filter(keep).to_multiset(),
    {
        let x = m[k];
        let ghost (s, t) = (m@.take(k as int), m@.take(k + 1));
        proof {
            assert(t.drop_last() =~= s);
            assert(t.last() == x);
            reveal(Seq::filter);
            assert(t.filter(keep) == if keep(x) { s.filter(keep).push(x) } else { s.filter(keep) });
        }
        if x.1 >= least {
            let n: usize = h.len();
            let mut at: usize = n;
            while at > 0 && h[at - 1].1 < x.1
                invariant
                    at <= n == h@.len(),
                    forall|i: int| at <= i < n ==> (#[trigger] h@[i]).1 < x.1,
                decreases at,
            {
                at -= 1;
            }
            let ghost was = h@;
            h.insert(at, x);
            proof {
                assert(h@ =~= was.insert(at as int, x));
                broadcast use vstd::seq_lib::group_to_multiset_ensures;

                assert(h@.to_multiset() =~= t.filter(keep).to_multiset());
                assert forall|i: int, j: int| 0 <= i < j < h@.len() implies (#[trigger] h@[i]).1 >= (#[trigger] h@[j]).1 by {
                    let bi = if i < at { i } else { i - 1 };
                    let bj = if j < at { j } else { j - 1 };
                    if i != at {
                        assert(h@[i] == was[bi]);
                    }
                    if j != at {
                        assert(h@[j] == was[bj]);
                    }
                    if j == at && i < at {
                        if i < at - 1 {
                            assert(was[i].1 >= was[at - 1].1);
                        }
                    }
                }
            }
        }
    }
    assert(m@.take(m.len() as int) =~= m@);
    h
}

/// All uses of the circuits of a list.
pub open spec fn uses_of(m: Seq<(Circuit, usize)>) -> nat
    decreases m.len(),
{
    if m.len() == 0 {
        0
    } else {
        uses_of(m.drop_last()) + m.last().1 as nat
    }
}

/// The uses in a list by circuits of another list.
spec fn uses_among(m: Seq<(Circuit, usize)>, s: Seq<Circuit>) -> nat
    decreases m.len(),
{
    if m.len() == 0 {
        0
    } else {
        uses_among(m.drop_last(), s) + used(s, m.last().0)
    }
}

proof fn counted_uses(m: Seq<(Circuit, usize)>, s: Seq<Circuit>)
    requires
        forall|i: int| 0 <= i < m.len() ==> (#[trigger] m[i]).1 == used(s, m[i].0),
    ensures
        uses_of(m) == uses_among(m, s),
    decreases m.len(),
{
    if m.len() > 0 {
        let init = m.drop_last();
        assert forall|i: int| 0 <= i < init.len() implies (#[trigger] init[i]).1 == used(s, init[i].0) by {
            assert(init[i] == m[i]);
        }
        counted_uses(init, s);
        assert(m[m.len() - 1].1 == used(s, m[m.len() - 1].0));
    }
}

proof fn one_more_use(m: Seq<(Circuit, usize)>, s: Seq<Circuit>, k: int)
    requires
        s.len() > 0,
        forall|i: int, j: int| 0 <= i < j < m.len() ==> (#[trigger] m[i]).0 != (#[trigger] m[j]).0,
        0 <= k <= m.len(),
        k < m.len() ==> m[k].0 == s.last(),
        k == m.len() ==> forall|i: int| 0 <= i < m.len() ==> (#[trigger] m[i]).0 != s.last(),
    ensures
        uses_among(m, s) == uses_among(m, s.drop_last()) + if k < m.len() { 1nat } else { 0 },
    decreases m.len(),
{
    if m.len() > 0 {
        let init = m.drop_last();
        assert forall|i: int, j: int| 0 <= i < j < init.len() implies (#[trigger] init[i]).0 != (#[trigger] init[j]).0 by {
            assert(m[i].0 != m[j].0);
        }
        assert(m[m.len() - 1] == m.last());
        if k == m.len() - 1 {
            assert forall|i: int| 0 <= i < init.len() implies (#[trigger] init[i]).0 != s.last() by {
                assert(m[i].0 != m[k].0);
            }
            one_more_use(init, s, init.len() as int);
        } else if k < m.len() {
            assert(m[k].0 != m[m.len() - 1].0);
            one_more_use(init, s, k);
        } else {
            assert forall|i: int| 0 <= i < init.len() implies (#[trigger] init[i]).0 != s.last() by {
                assert(m[i].0 != s.last());
            }
            one_more_use(init, s, init.len() as int);
        }
    }
}

proof fn no_uses_of_nothing(m: Seq<(Circuit, usize)>)
    ensures
        uses_among(m, Seq::empty()) == 0,
    decreases m.len(),
{
    if m.len() > 0 {
        no_uses_of_nothing(m.drop_last());
    }
}

/// A circuit stands in a list.
spec fn lists(m: Seq<(Circuit, usize)>, c: Circuit) -> bool {
    exists|i: int| 0 <= i < m.len() && (#[trigger] m[i]).0 == c
}

proof fn uses_are_covered(m: Seq<(Circuit, usize)>, s: Seq<Circuit>)
    requires
        forall|i: int, j: int| 0 <= i < j < m.len() ==> (#[trigger] m[i]).0 != (#[trigger] m[j]).0,
        forall|k: int| 0 <= k < s.len() ==> lists(m, #[trigger] s[k]),
    ensures
        uses_among(m, s) == s.len(),
    decreases s.len(),
{
    if s.len() == 0 {
        assert(s =~= Seq::empty());
        no_uses_of_nothing(m);
    } else {
        let init = s.drop_last();
        assert forall|k: int| 0 <= k < init.len() implies lists(m, #[trigger] init[k]) by {
            assert(init[k] == s[k]);
        }
        uses_are_covered(m, init);
        assert(lists(m, s[s.len() - 1]));
        let k = choose|i: int| 0 <= i < m.len() && (#[trigger] m[i]).0 == s[s.len() - 1];
        one_more_use(m, s, k);
    }
}

proof fn present_is_used(s: Seq<Circuit>, k: int)
    requires
        0 <= k < s.len(),
    ensures
        used(s, s[k]) > 0,
    decreases s.len(),
{
    if k < s.len() - 1 {
        present_is_used(s.drop_last(), k);
        assert(s.drop_last()[k] == s[k]);
    }
}

/// No use is lost: the uses of the circuits add up to all uses.
pub proof fn uses_add_up(m: Seq<(Circuit, usize)>, s: Seq<Circuit>)
    requires
        is_count(m, s),
    ensures
        uses_of(m) == s.len(),
{
    counted_uses(m, s);
    assert forall|k: int| 0 <= k < s.len() implies lists(m, #[trigger] s[k]) by {
        present_is_used(s, k);
        assert(used(s, s[k]) > 0);
    }
    uses_are_covered(m, s);
}

proof fn uses_within_budget(m: Seq<(Circuit, usize)>)
    ensures
        uses_of(m) <= m.len() * most_used(m),
    decreases m.len(),
{
    if m.len() > 0 {
        let init = m.drop_last();
        uses_within_budget(init);
        let (n, a, b) = (init.len() as int, most_used(init) as int, most_used(m) as int);
        assert(n * a <= n * b && (n + 1) * b == n * b + b) by (nonlinear_arith)
            requires
                0 <= n,
                0 <= a <= b,
        ;
    }
}

/// The budget of a query: with no circuit used more than `d` times, the number of different circuits is at least the
/// number of all uses divided by `d`.
pub proof fn distinct_budget(m: Seq<(Circuit, usize)>, s: Seq<Circuit>)
    requires
        is_count(m, s),
    ensures
        s.len() <= m.len() * most_used(m),
        m.len() <= s.len(),
{
    uses_add_up(m, s);
    uses_within_budget(m);
    each_is_used(m);
}

proof fn each_is_used(m: Seq<(Circuit, usize)>)
    requires
        forall|i: int| 0 <= i < m.len() ==> (#[trigger] m[i]).1 > 0,
    ensures
        m.len() <= uses_of(m),
    decreases m.len(),
{
    if m.len() > 0 {
        let init = m.drop_last();
        assert forall|i: int| 0 <= i < init.len() implies (#[trigger] init[i]).1 > 0 by {
            assert(init[i] == m[i]);
        }
        each_is_used(init);
        assert(m[m.len() - 1].1 > 0);
    }
}

} // verus!
