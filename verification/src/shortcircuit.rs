//! Looking a token up in place of computing it: which lookups are sure enough, and what taking them costs and
//! changes.
use vstd::prelude::*;
use crate::battery::Tally;
use crate::model::{common_prefix, greedy};
use crate::text::{chars_of, spells};
use crate::words::{has_prefix, starts_with};

verus! {

/// How sure a lookup is, by the idiom that made it: a copy is surest, then the longer contexts.
pub open spec fn sureness(source: Seq<char>) -> u8 {
    if has_prefix(source, "induction"@) {
        4
    } else if has_prefix(source, "quad"@) {
        3
    } else if has_prefix(source, "tri"@) {
        2
    } else if has_prefix(source, "bi"@) {
        1
    } else {
        0
    }
}

pub fn source_order(source: &str) -> (n: u8)
    ensures
        n == sureness(source@),
{
    let s = chars_of(source);
    if starts_with(s.as_slice(), "induction") {
        4
    } else if starts_with(s.as_slice(), "quad") {
        3
    } else if starts_with(s.as_slice(), "tri") {
        2
    } else if starts_with(s.as_slice(), "bi") {
        1
    } else {
        0
    }
}

/// The least sureness that is asked for by name; any other name asks for none.
pub fn gate_order(name: &str) -> (n: u8)
    ensures
        n == (if name@ == "induction"@ {
            4u8
        } else if name@ == "quad"@ {
            3
        } else if name@ == "tri"@ {
            2
        } else if name@ == "bi"@ {
            1
        } else {
            0
        }),
{
    let s = chars_of(name);
    if spells(s.as_slice(), "induction") {
        4
    } else if spells(s.as_slice(), "quad") {
        3
    } else if spells(s.as_slice(), "tri") {
        2
    } else if spells(s.as_slice(), "bi") {
        1
    } else {
        0
    }
}

/// A lookup: how sure its idiom is, among how many tokens it chose, and whether it was what the model decides.
#[derive(Clone, Copy, PartialEq, Eq, Structural)]
pub struct Lookup {
    pub order: u8,
    pub fan: usize,
    pub right: bool,
}

/// A lookup is taken: it is sure enough, and it chose among few enough.
pub open spec fn taken(l: Lookup, order: u8, fan: usize) -> bool {
    l.order >= order && l.fan <= fan
}

pub fn gate(l: Lookup, order: u8, fan: usize) -> (r: bool)
    ensures
        r == taken(l, order, fan),
{
    l.order >= order && l.fan <= fan
}

/// How many lookups are taken, and how many of those are right: `(right, taken)`.
pub open spec fn taken_of(ls: Seq<Lookup>, order: u8, fan: usize) -> (nat, nat)
    decreases ls.len(),
{
    if ls.len() == 0 {
        (0, 0)
    } else {
        let (right, n) = taken_of(ls.drop_last(), order, fan);
        let l = ls.last();
        if taken(l, order, fan) { (if l.right { right + 1 } else { right }, n + 1) } else { (right, n) }
    }
}

/// Counts what a gate lets through, and how much of it is right.
pub fn gate_tally(ls: &[Lookup], order: u8, fan: usize) -> (t: Tally)
    ensures
        taken_of(ls@, order, fan) == (t.right as nat, t.total as nat),
        t.right <= t.total <= ls@.len(),
{
    let mut t = Tally::new();
    for i in 0..ls.len()
        invariant
            taken_of(ls@.take(i as int), order, fan) == (t.right as nat, t.total as nat),
            t.right <= t.total <= i,
    {
        assert(ls@.take(i + 1).drop_last() =~= ls@.take(i as int));
        if gate(ls[i], order, fan) {
            t.count(ls[i].right);
        }
    }
    assert(ls@.take(ls.len() as int) =~= ls@);
    t
}

/// The time that a run takes when lookups are taken: every lookup, and the forward pass where none was taken. Each
/// entry has the lookup, the time to look up, and the time of the forward pass.
pub open spec fn hybrid_time(ls: Seq<(Lookup, u64, u64)>, order: u8, fan: usize) -> nat
    decreases ls.len(),
{
    if ls.len() == 0 {
        0
    } else {
        let (l, look, forward) = ls.last();
        hybrid_time(ls.drop_last(), order, fan) + look as nat + if taken(l, order, fan) { 0 } else { forward as nat }
    }
}

pub fn hybrid_cost(ls: &[(Lookup, u64, u64)], order: u8, fan: usize) -> (t: u128)
    requires
        ls@.len() <= 0xffff_ffff_ffff,
    ensures
        t == hybrid_time(ls@, order, fan),
{
    let mut t: u128 = 0;
    for i in 0..ls.len()
        invariant
            ls@.len() <= 0xffff_ffff_ffff,
            t == hybrid_time(ls@.take(i as int), order, fan),
            t <= i * 0x2_0000_0000_0000_0000,
    {
        assert(ls@.take(i + 1).drop_last() =~= ls@.take(i as int));
        let (l, look, forward) = ls[i];
        t = t + look as u128;
        if !gate(l, order, fan) {
            t = t + forward as u128;
        }
    }
    assert(ls@.take(ls.len() as int) =~= ls@);
    t
}

/// How many places of two trajectories hold the same token.
pub open spec fn matches_in(a: Seq<i64>, b: Seq<i64>, n: nat) -> nat
    decreases n,
{
    if n == 0 {
        0
    } else {
        matches_in(a, b, (n - 1) as nat) + if a[n - 1] == b[n - 1] { 1nat } else { 0 }
    }
}

/// Compares two trajectories: how far they are the same from the start, and at how many places.
pub fn drift(a: &[i64], b: &[i64]) -> (r: (usize, usize))
    requires
        a@.len() == b@.len(),
    ensures
        r.0 == common_prefix(a@, b@),
        r.1 == matches_in(a@, b@, a@.len()),
{
    let n: usize = a.len();
    let mut lcp: usize = 0;
    assert(a@.skip(0) =~= a@ && b@.skip(0) =~= b@);
    while lcp < n && a[lcp] == b[lcp]
        invariant
            n == a@.len() == b@.len(),
            lcp <= n,
            common_prefix(a@, b@) == lcp + common_prefix(a@.skip(lcp as int), b@.skip(lcp as int)),
        decreases n - lcp,
    {
        assert(a@.skip(lcp as int).skip(1) =~= a@.skip(lcp + 1));
        assert(b@.skip(lcp as int).skip(1) =~= b@.skip(lcp + 1));
        lcp += 1;
    }
    let mut matched: usize = 0;
    for i in 0..n
        invariant
            n == a@.len() == b@.len(),
            matched == matches_in(a@, b@, i as nat),
            matched <= i,
    {
        if a[i] == b[i] {
            matched += 1;
        }
    }
    (lcp, matched)
}

/// A text that is written with lookups taken: the looked-up token where a gate lets it through, else the model's.
pub struct Hybrid {
    ctx: Vec<i64>,
    out: Vec<i64>,
    gated: usize,
    agreed: usize,
}

impl Hybrid {
    pub closed spec fn context(self) -> Seq<i64> {
        self.ctx@
    }

    pub closed spec fn output(self) -> Seq<i64> {
        self.out@
    }

    /// How many lookups were taken, and how many of those the model agrees with.
    pub closed spec fn counts(self) -> (nat, nat) {
        (self.gated as nat, self.agreed as nat)
    }

    pub fn start(prompt: &[i64]) -> (h: Hybrid)
        ensures
            h.context() == prompt@,
            h.output() == Seq::<i64>::empty(),
            h.counts() == (0nat, 0nat),
    {
        let mut ctx: Vec<i64> = Vec::new();
        for i in 0..prompt.len()
            invariant
                ctx@ == prompt@.take(i as int),
        {
            ctx.push(prompt[i]);
            assert(ctx@ =~= prompt@.take(i + 1));
        }
        assert(ctx@ =~= prompt@);
        Hybrid { ctx, out: Vec::new(), gated: 0, agreed: 0 }
    }

    pub fn context_ids(&self) -> (c: &[i64])
        ensures
            c@ == self.context(),
    {
        self.ctx.as_slice()
    }

    /// Writes the next token: what was looked up, if it is taken, else what the model decides.
    pub fn write(&mut self, lookup: Option<i64>, decided: i64)
        requires
            old(self).counts().0 <= old(self).output().len(),
            old(self).counts().1 <= old(self).counts().0,
            old(self).output().len() < usize::MAX,
        ensures
            ({
                let t = match lookup {
                    Some(t) => t,
                    None => decided,
                };
                &&& final(self).context() == old(self).context().push(t)
                &&& final(self).output() == old(self).output().push(t)
            }),
            final(self).counts().0 == old(self).counts().0 + if lookup is Some { 1nat } else { 0 },
            final(self).counts().1 == old(self).counts().1 + if lookup == Some(decided) { 1nat } else { 0 },
    {
        let t: i64 = match lookup {
            Some(t) => {
                self.gated = self.gated + 1;
                if t == decided {
                    self.agreed = self.agreed + 1;
                }
                t
            },
            None => decided,
        };
        self.ctx.push(t);
        self.out.push(t);
    }

    pub fn finish(self) -> (r: (Vec<i64>, usize, usize))
        ensures
            r.0@ == self.output(),
            self.counts() == (r.1 as nat, r.2 as nat),
    {
        (self.out, self.gated, self.agreed)
    }
}

/// A whole text with lookups taken; `look` gives the lookup for a context, if one is taken there.
pub open spec fn hybrid_text(
    f: spec_fn(Seq<i64>) -> i64,
    look: spec_fn(Seq<i64>) -> Option<i64>,
    ctx: Seq<i64>,
    n: nat,
) -> Seq<i64>
    decreases n,
{
    if n == 0 {
        Seq::empty()
    } else {
        let t = match look(ctx) {
            Some(t) => t,
            None => f(ctx),
        };
        seq![t] + hybrid_text(f, look, ctx.push(t), (n - 1) as nat)
    }
}

/// Where every lookup that is taken is what the model decides there, taking lookups changes nothing: the text is the
/// model's own.
pub proof fn faithful_lookups_change_nothing(
    f: spec_fn(Seq<i64>) -> i64,
    look: spec_fn(Seq<i64>) -> Option<i64>,
    ctx: Seq<i64>,
    n: nat,
)
    requires
        forall|c: Seq<i64>| (#[trigger] look(c)) is Some ==> look(c) == Some(f(c)),
    ensures
        hybrid_text(f, look, ctx, n) == greedy(f, ctx, n, Seq::empty()),
    decreases n,
{
    if n > 0 {
        faithful_lookups_change_nothing(f, look, ctx.push(f(ctx)), (n - 1) as nat);
    }
}

/// A stricter gate takes no more lookups: asking for more sureness, or for fewer choices, never raises the coverage.
pub proof fn stricter_gates_take_less(ls: Seq<Lookup>, order: u8, fan: usize, stricter: u8, fewer: usize)
    requires
        order <= stricter,
        fewer <= fan,
    ensures
        taken_of(ls, stricter, fewer).1 <= taken_of(ls, order, fan).1,
        taken_of(ls, stricter, fewer).0 <= taken_of(ls, order, fan).0,
    decreases ls.len(),
{
    if ls.len() > 0 {
        stricter_gates_take_less(ls.drop_last(), order, fan, stricter, fewer);
    }
}

} // verus!
