//! Retrieval: next-token prediction from a flat store, without a network.
//!
//! Induction copies what followed the longest recurring tail of the context; the n-gram tables back off from four
//! tokens to one; the grammar table looks up the context with content tokens collapsed to one symbol; the most
//! frequent token is the floor.
use vstd::prelude::*;
use std::collections::HashSet;
use vstd::hash_map::StringHashMap;
use crate::text::{dec, int_text, push_i64, push_usize};

verus! {

broadcast use vstd::std_specs::hash::group_hash_axioms;

/// How many tokens each source may contribute to a candidate set.
#[derive(Clone, Copy)]
pub struct CandCfg {
    pub recent: usize,
    pub induction: usize,
    pub quad: usize,
    pub tri: usize,
    pub bi: usize,
    pub skel: usize,
    pub uni: usize,
    pub closed: bool,
}

/// A successor table: keys with their successors, best first.
pub type Table = Map<Seq<char>, Seq<i64>>;

/// What a store holds.
pub struct StoreModel {
    pub quad: Table,
    pub tri: Table,
    pub bi: Table,
    pub skel: Table,
    pub uni: Seq<i64>,
    /// The length of a clear match, as the store names it. It bounds nothing: induction takes the longest tail.
    pub min_induction: nat,
    /// The shortest tail that induction accepts.
    pub min_accept: nat,
    pub closed_ids: Seq<i64>,
}

pub struct Store {
    quad: StringHashMap<Vec<i64>>,
    tri: StringHashMap<Vec<i64>>,
    bi: StringHashMap<Vec<i64>>,
    skel: StringHashMap<Vec<i64>>,
    uni: Vec<i64>,
    min_induction: usize,
    min_accept: usize,
    closed_ids: Vec<i64>,
    closed: HashSet<i64>,
}

pub open spec fn contents(m: Map<Seq<char>, Vec<i64>>) -> Table {
    m.map_values(|v: Vec<i64>| v@)
}

impl View for Store {
    type V = StoreModel;

    closed spec fn view(&self) -> StoreModel {
        StoreModel {
            quad: contents(self.quad@),
            tri: contents(self.tri@),
            bi: contents(self.bi@),
            skel: contents(self.skel@),
            uni: self.uni@,
            min_induction: self.min_induction as nat,
            min_accept: self.min_accept as nat,
            closed_ids: self.closed_ids@,
        }
    }
}

/// The table that the entries make; of two entries with one key the later counts.
pub open spec fn table_of(entries: Seq<(String, Vec<i64>)>) -> Table
    decreases entries.len(),
{
    if entries.len() == 0 {
        Map::empty()
    } else {
        table_of(entries.drop_last()).insert(entries.last().0@, entries.last().1@)
    }
}

fn build_table(entries: Vec<(String, Vec<i64>)>) -> (m: StringHashMap<Vec<i64>>)
    ensures
        contents(m@) == table_of(entries@),
{
    let mut m: StringHashMap<Vec<i64>> = StringHashMap::new();
    let ghost all = entries@;
    assert(contents(m@) =~= table_of(all.take(0)));
    for e in it: entries
        invariant
            it.seq() == all,
            contents(m@) == table_of(all.take(it.index() as int)),
    {
        let ghost before = m@;
        assert(all.take(it.index() + 1).drop_last() =~= all.take(it.index() as int));
        let (k, v) = e;
        m.insert(k, v);
        assert(contents(m@) =~= contents(before).insert(k@, v@));
    }
    assert(all.take(all.len() as int) =~= all);
    m
}

/// The length of a tail that counts as a clear match, when the store does not say.
pub fn default_min_induction() -> (n: usize)
    ensures
        n == 3,
{
    3
}

/// The shortest tail that induction accepts, when the store does not say.
pub fn default_min_accept() -> (n: usize)
    ensures
        n == 2,
{
    2
}

/// The first `j` of a sequence, or all of it.
pub open spec fn top(s: Seq<i64>, j: nat) -> Seq<i64> {
    if j < s.len() {
        s.take(j as int)
    } else {
        s
    }
}

/// The last distinct tokens of the context, at most `n`, the last one first.
pub open spec fn recent_tokens(ctx: Seq<i64>, n: nat) -> Seq<i64> {
    top(first_occurrences(ctx.reverse()), n)
}

/// The tail of `span` tokens occurs at `i`.
pub open spec fn recurs(ctx: Seq<i64>, span: int, i: int) -> bool {
    ctx.subrange(i, i + span) == ctx.subrange(ctx.len() - span, ctx.len() as int)
}

/// What followed the earlier occurrences of the tail of `span` tokens, from `i` back to the start.
pub open spec fn followers(ctx: Seq<i64>, span: int, i: int) -> Seq<i64>
    decreases i + 1,
{
    if i < 0 {
        Seq::empty()
    } else if recurs(ctx, span, i) {
        seq![ctx[i + span]] + followers(ctx, span, i - 1)
    } else {
        followers(ctx, span, i - 1)
    }
}

/// The followers of the tails of `span` tokens and fewer, down to one; longer tails first.
pub open spec fn all_followers(ctx: Seq<i64>, span: int) -> Seq<i64>
    decreases span,
{
    if span <= 0 {
        Seq::empty()
    } else {
        followers(ctx, span, ctx.len() - span - 1) + all_followers(ctx, span - 1)
    }
}

/// The longest tail that is looked for among the candidates.
pub open spec fn longest_span(n: int) -> int {
    if n - 1 < 0 {
        0
    } else if n - 1 < 3 {
        n - 1
    } else {
        3
    }
}

/// The candidates that the context alone gives.
pub open spec fn context_tokens(ctx: Seq<i64>, recent: nat, induction: nat) -> Seq<i64> {
    recent_tokens(ctx, recent) + top(all_followers(ctx, longest_span(ctx.len() as int)), induction)
}

fn tail_recurs(ctx: &[i64], span: usize, i: usize) -> (r: bool)
    requires
        i + span <= ctx@.len(),
    ensures
        r == recurs(ctx@, span as int, i as int),
{
    let n: usize = ctx.len();
    let ghost here = ctx@.subrange(i as int, i + span);
    let ghost tail = ctx@.subrange(n - span, n as int);
    let mut k: usize = 0;
    while k < span
        invariant
            k <= span,
            i + span <= ctx@.len() == n,
            here == ctx@.subrange(i as int, i + span),
            tail == ctx@.subrange(n - span, n as int),
            forall|j: int| 0 <= j < k ==> #[trigger] here[j] == tail[j],
        decreases span - k,
    {
        assert(here[k as int] == ctx@[i + k] && tail[k as int] == ctx@[n - span + k]);
        if ctx[i + k] != ctx[n - span + k] {
            return false;
        }
        k += 1;
    }
    assert(here =~= tail);
    true
}

/// Appends the last distinct tokens.
fn push_recent(ctx: &[i64], recent: usize, out: &mut Vec<i64>)
    ensures
        final(out)@ == old(out)@ + recent_tokens(ctx@, recent as nat),
{
    let n: usize = ctx.len();
    let ghost back = ctx@.reverse();
    let mut seen: HashSet<i64> = HashSet::new();
    let mut found: usize = 0;
    let mut k: usize = 0;
    assert(first_occurrences(back.take(0)) =~= Seq::empty());
    assert(out@ =~= old(out)@ + first_occurrences(back.take(0)));
    while k < n && found < recent
        invariant
            n == ctx@.len(),
            k <= n,
            found <= k,
            found <= recent,
            back == ctx@.reverse(),
            found == first_occurrences(back.take(k as int)).len(),
            out@ == old(out)@ + first_occurrences(back.take(k as int)),
            forall|t: i64| seen@.contains(t) <==> back.take(k as int).contains(t),
        decreases n - k,
    {
        let t: i64 = ctx[n - 1 - k];
        proof {
            seen_grows(back, k as int);
            assert(back.take(k + 1).drop_last() =~= back.take(k as int));
            assert(back.take(k + 1).last() == t);
        }
        if seen.insert(t) {
            out.push(t);
            found += 1;
            assert(out@ =~= old(out)@ + first_occurrences(back.take(k + 1)));
        }
        k += 1;
    }
    proof {
        first_occurrences_start(back, k as int);
        let all = first_occurrences(back);
        let part = first_occurrences(back.take(k as int));
        if k == n {
            assert(back.take(n as int) =~= back);
        }
        assert(top(all, recent as nat) =~= part);
    }
}

/// Candidates from the context: the recent tokens, each once, then what followed earlier occurrences of its tail.
pub fn context_candidates(ctx: &[i64], recent: usize, induction: usize, out: &mut Vec<i64>)
    ensures
        final(out)@ == old(out)@ + context_tokens(ctx@, recent as nat, induction as nat),
{
    let n: usize = ctx.len();
    push_recent(ctx, recent, out);
    let ghost base = out@;
    let ghost goal = all_followers(ctx@, longest_span(n as int));
    let mut span: usize = if n == 0 { 0 } else if n - 1 < 3 { n - 1 } else { 3 };
    let mut found: usize = 0;
    if induction == 0 {
        assert(top(goal, 0) =~= Seq::empty());
        assert(out@ =~= old(out)@ + context_tokens(ctx@, recent as nat, induction as nat));
        return;
    }
    let ghost done = Seq::<i64>::empty();
    assert(goal =~= done + all_followers(ctx@, span as int));
    while span > 0
        invariant
            n == ctx@.len(),
            span <= 3,
            span < n || span == 0,
            found < induction,
            found == done.len(),
            out@ == base + done,
            goal == done + all_followers(ctx@, span as int),
            base == old(out)@ + recent_tokens(ctx@, recent as nat),
            goal == all_followers(ctx@, longest_span(n as int)),
        decreases span,
    {
        let ghost later = all_followers(ctx@, span - 1);
        let mut i: usize = n - span;
        assert(goal =~= done + followers(ctx@, span as int, i - 1) + later);
        while i > 0
            invariant
                n == ctx@.len(),
                0 < span < n,
                i <= n - span,
                found < induction,
                found == done.len(),
                out@ == base + done,
                goal == done + followers(ctx@, span as int, i - 1) + later,
                base == old(out)@ + recent_tokens(ctx@, recent as nat),
                goal == all_followers(ctx@, longest_span(n as int)),
            decreases i,
        {
            i -= 1;
            if tail_recurs(ctx, span, i) {
                let t: i64 = ctx[i + span];
                let ghost rest = followers(ctx@, span as int, i - 1);
                assert(done + (seq![t] + rest) + later =~= done.push(t) + rest + later);
                out.push(t);
                found += 1;
                proof {
                    done = done.push(t);
                    assert(out@ =~= base + done);
                }
                if found >= induction {
                    proof {
                        assert(goal.take(induction as int) =~= done);
                        assert(top(goal, induction as nat) =~= done);
                        assert(out@ =~= old(out)@ + context_tokens(ctx@, recent as nat, induction as nat));
                    }
                    return;
                }
            }
        }
        span -= 1;
        assert(done + Seq::<i64>::empty() + later =~= done + later);
    }
    assert(goal =~= done);
    assert(out@ =~= old(out)@ + context_tokens(ctx@, recent as nat, induction as nat));
}

pub open spec fn quad_key(a: i64, b: i64, c: i64) -> Seq<char> {
    int_text(a as int) + seq![','] + int_text(b as int) + seq![','] + int_text(c as int)
}

pub open spec fn tri_key(a: i64, b: i64) -> Seq<char> {
    int_text(a as int) + seq![','] + int_text(b as int)
}

/// A token in a grammatical skeleton: itself if it is of the closed class, else the symbol for content.
pub open spec fn skeleton_part(t: i64, closed_ids: Seq<i64>) -> Seq<char> {
    if closed_ids.contains(t) {
        int_text(t as int)
    } else {
        seq!['O']
    }
}

/// The parts of a skeleton, with slashes between them.
pub open spec fn skeleton(tokens: Seq<i64>, closed_ids: Seq<i64>) -> Seq<char>
    decreases tokens.len(),
{
    if tokens.len() == 0 {
        Seq::empty()
    } else if tokens.len() == 1 {
        skeleton_part(tokens[0], closed_ids)
    } else {
        skeleton(tokens.drop_last(), closed_ids) + seq!['/'] + skeleton_part(tokens.last(), closed_ids)
    }
}

/// The key of the skeleton of the last `n` tokens.
pub open spec fn skeleton_key(ctx: Seq<i64>, n: nat, closed_ids: Seq<i64>) -> Seq<char> {
    dec(n) + seq![':'] + skeleton(ctx.skip(ctx.len() - n), closed_ids)
}

/// The successors of the key, none when the table does not have it.
pub open spec fn successors(table: Table, key: Seq<char>) -> Seq<i64> {
    if table.contains_key(key) {
        table[key]
    } else {
        Seq::empty()
    }
}

/// The successors of the last three tokens' key; none for a shorter context. The other n-gram orders are alike.
pub open spec fn quad_successors(m: StoreModel, ctx: Seq<i64>) -> Seq<i64> {
    let n = ctx.len();
    if n >= 3 {
        successors(m.quad, quad_key(ctx[n - 3], ctx[n - 2], ctx[n - 1]))
    } else {
        Seq::empty()
    }
}

pub open spec fn tri_successors(m: StoreModel, ctx: Seq<i64>) -> Seq<i64> {
    let n = ctx.len();
    if n >= 2 {
        successors(m.tri, tri_key(ctx[n - 2], ctx[n - 1]))
    } else {
        Seq::empty()
    }
}

pub open spec fn bi_successors(m: StoreModel, ctx: Seq<i64>) -> Seq<i64> {
    let n = ctx.len();
    if n >= 1 {
        successors(m.bi, int_text(ctx[n - 1] as int))
    } else {
        Seq::empty()
    }
}

pub open spec fn skel_successors(m: StoreModel, ctx: Seq<i64>, n: nat) -> Seq<i64> {
    if ctx.len() >= n {
        successors(m.skel, skeleton_key(ctx, n, m.closed_ids))
    } else {
        Seq::empty()
    }
}

/// The sequence without repetitions: each item stays where it occurs first.
pub open spec fn first_occurrences(s: Seq<i64>) -> Seq<i64>
    decreases s.len(),
{
    if s.len() == 0 {
        Seq::empty()
    } else {
        let rest = first_occurrences(s.drop_last());
        if s.drop_last().contains(s.last()) {
            rest
        } else {
            rest.push(s.last())
        }
    }
}

/// What a longer part of a sequence has: what the shorter one has, and the next token.
proof fn seen_grows(s: Seq<i64>, k: int)
    requires
        0 <= k < s.len(),
    ensures
        forall|x: i64| #[trigger] s.take(k + 1).contains(x) <==> s.take(k).contains(x) || x == s[k],
{
    let (prefix, longer) = (s.take(k), s.take(k + 1));
    assert forall|x: i64| #[trigger] longer.contains(x) <==> prefix.contains(x) || x == s[k] by {
        if prefix.contains(x) {
            let i = choose|i: int| 0 <= i < prefix.len() && prefix[i] == x;
            assert(longer[i] == x);
        }
        assert(longer[k] == s[k]);
        if longer.contains(x) && x != s[k] {
            let i = choose|i: int| 0 <= i < longer.len() && longer[i] == x;
            assert(prefix[i] == x);
        }
    }
}

/// The first occurrences in the start of a sequence are the first of those in all of it.
pub(crate) proof fn first_occurrences_start(s: Seq<i64>, k: int)
    requires
        0 <= k <= s.len(),
    ensures
        first_occurrences(s.take(k)).len() <= first_occurrences(s).len(),
        first_occurrences(s).take(first_occurrences(s.take(k)).len() as int) == first_occurrences(s.take(k)),
    decreases s.len(),
{
    if k == s.len() {
        assert(s.take(k) =~= s);
        assert(first_occurrences(s).take(first_occurrences(s).len() as int) =~= first_occurrences(s));
    } else {
        let head = s.drop_last();
        first_occurrences_start(head, k);
        assert(head.take(k) =~= s.take(k));
        let part = first_occurrences(s.take(k));
        assert(first_occurrences(s).take(part.len() as int) =~= first_occurrences(head).take(part.len() as int));
    }
}

/// All that the sources contribute, the most valuable source first. The two skeletons are one source.
pub open spec fn contributions(m: StoreModel, ctx: Seq<i64>, cfg: CandCfg) -> Seq<i64> {
    context_tokens(ctx, cfg.recent as nat, cfg.induction as nat) + top(quad_successors(m, ctx), cfg.quad as nat) + top(
        tri_successors(m, ctx),
        cfg.tri as nat,
    ) + top(bi_successors(m, ctx), cfg.bi as nat) + top(
        skel_successors(m, ctx, 3) + skel_successors(m, ctx, 2),
        cfg.skel as nat,
    ) + (if cfg.closed { m.closed_ids } else { Seq::empty() }) + top(m.uni, cfg.uni as nat)
}

/// The first of two sequences behind one another: the second gives what the first leaves of the number.
proof fn tops_of_sum(a: Seq<i64>, b: Seq<i64>, j: nat)
    ensures
        top(a, j).len() <= j,
        top(a + b, j) == top(a, j) + top(b, (j - top(a, j).len()) as nat),
{
    assert(top(a + b, j) =~= top(a, j) + top(b, (j - top(a, j).len()) as nat));
}

fn push_top(out: &mut Vec<i64>, v: &[i64], j: usize)
    ensures
        final(out)@ == old(out)@ + top(v@, j as nat),
{
    let take: usize = if j < v.len() { j } else { v.len() };
    assert(out@ =~= old(out)@ + v@.take(0));
    for i in 0..take
        invariant
            take <= v@.len(),
            out@ == old(out)@ + v@.take(i as int),
    {
        out.push(v[i]);
        assert(out@ =~= old(out)@ + v@.take(i + 1));
    }
    assert(v@.take(take as int) =~= top(v@, j as nat));
}

pub fn dedup(s: &[i64]) -> (out: Vec<i64>)
    ensures
        out@ == first_occurrences(s@),
{
    let mut out: Vec<i64> = Vec::new();
    let mut seen: HashSet<i64> = HashSet::new();
    for i in 0..s.len()
        invariant
            out@ == first_occurrences(s@.take(i as int)),
            forall|t: i64| seen@.contains(t) <==> s@.take(i as int).contains(t),
    {
        let t: i64 = s[i];
        proof {
            seen_grows(s@, i as int);
            assert(s@.take(i + 1).drop_last() =~= s@.take(i as int));
            assert(s@.take(i + 1).last() == t);
        }
        if seen.insert(t) {
            out.push(t);
        }
    }
    assert(s@.take(s.len() as int) =~= s@);
    out
}

/// The latest earlier occurrence, at `i` or before, of the tail of `span` tokens.
pub open spec fn latest_recurrence(ctx: Seq<i64>, span: int, i: int) -> Option<int>
    decreases i + 1,
{
    if i < 0 {
        None
    } else if recurs(ctx, span, i) {
        Some(i)
    } else {
        latest_recurrence(ctx, span, i - 1)
    }
}

/// The induction hit for tails of `span` tokens down to the shortest accepted: what followed, and the span.
pub open spec fn induction_hit(ctx: Seq<i64>, span: int, min_accept: nat) -> Option<(i64, int)>
    decreases span + 1,
{
    if span < 0 || span < min_accept {
        None
    } else {
        let hit = if ctx.len() > span {
            latest_recurrence(ctx, span, ctx.len() - span - 1)
        } else {
            None
        };
        match hit {
            Some(i) => Some((ctx[i + span], span)),
            None => induction_hit(ctx, span - 1, min_accept),
        }
    }
}

/// What the tables say, the longest n-gram first, then the grammar, and the floor when all of them fail; none when the
/// floor is empty too.
pub open spec fn backoff(m: StoreModel, ctx: Seq<i64>) -> Option<(i64, Seq<char>)> {
    if quad_successors(m, ctx).len() > 0 {
        Some((quad_successors(m, ctx)[0], "quad"@))
    } else if tri_successors(m, ctx).len() > 0 {
        Some((tri_successors(m, ctx)[0], "trigram"@))
    } else if bi_successors(m, ctx).len() > 0 {
        Some((bi_successors(m, ctx)[0], "bigram"@))
    } else if skel_successors(m, ctx, 3).len() > 0 {
        Some((skel_successors(m, ctx, 3)[0], "grammar-"@ + dec(3)))
    } else if skel_successors(m, ctx, 2).len() > 0 {
        Some((skel_successors(m, ctx, 2)[0], "grammar-"@ + dec(2)))
    } else if m.uni.len() > 0 {
        Some((m.uni[0], "unigram"@))
    } else {
        None
    }
}

/// The prediction and the name of the idiom that made it: the induction hit, if there is one, else what the tables say;
/// none for an empty context.
pub open spec fn prediction(m: StoreModel, ctx: Seq<i64>) -> Option<(i64, Seq<char>)> {
    if ctx.len() == 0 {
        None
    } else {
        match induction_hit(ctx, ctx.len() - 1, m.min_accept) {
            Some((t, span)) => Some((t, "induction-"@ + dec(span as nat))),
            None => backoff(m, ctx),
        }
    }
}

/// The successors of a key, as a slice.
fn lookup<'a>(table: &'a StringHashMap<Vec<i64>>, key: &str) -> (r: Option<&'a Vec<i64>>)
    ensures
        match r {
            Some(v) => successors(contents(table@), key@) == v@,
            None => successors(contents(table@), key@) == Seq::<i64>::empty(),
        },
{
    table.get(key)
}

impl Store {
    /// The set of closed-class tokens holds the listed ones.
    #[verifier::type_invariant]
    spec fn consistent(self) -> bool {
        forall|t: i64| #[trigger] self.closed@.contains(t) <==> self.closed_ids@.contains(t)
    }

    /// A store of the given tables; where a bound of induction is not given, its default holds.
    pub fn new(
        quad: Vec<(String, Vec<i64>)>,
        tri: Vec<(String, Vec<i64>)>,
        bi: Vec<(String, Vec<i64>)>,
        uni: Vec<i64>,
        min_induction: Option<usize>,
        min_accept: Option<usize>,
        closed_ids: Vec<i64>,
        skel: Vec<(String, Vec<i64>)>,
    ) -> (s: Store)
        ensures
            s@ == (StoreModel {
                quad: table_of(quad@),
                tri: table_of(tri@),
                bi: table_of(bi@),
                skel: table_of(skel@),
                uni: uni@,
                min_induction: match min_induction {
                    Some(n) => n as nat,
                    None => 3,
                },
                min_accept: match min_accept {
                    Some(n) => n as nat,
                    None => 2,
                },
                closed_ids: closed_ids@,
            }),
    {
        let mut closed: HashSet<i64> = HashSet::new();
        for i in 0..closed_ids.len()
            invariant
                forall|t: i64| #[trigger] closed@.contains(t) <==> closed_ids@.take(i as int).contains(t),
        {
            let ghost prefix = closed_ids@.take(i as int);
            let ghost longer = closed_ids@.take(i + 1);
            let t: i64 = closed_ids[i];
            closed.insert(t);
            proof {
                assert forall|x: i64| #[trigger] closed@.contains(x) <==> longer.contains(x) by {
                    if prefix.contains(x) {
                        let k = choose|k: int| 0 <= k < prefix.len() && prefix[k] == x;
                        assert(longer[k] == x);
                    }
                    assert(longer[i as int] == t);
                    if longer.contains(x) && x != t {
                        let k = choose|k: int| 0 <= k < longer.len() && longer[k] == x;
                        assert(prefix[k] == x);
                    }
                }
            }
        }
        assert(closed_ids@.take(closed_ids.len() as int) =~= closed_ids@);
        Store {
            quad: build_table(quad),
            tri: build_table(tri),
            bi: build_table(bi),
            skel: build_table(skel),
            uni,
            min_induction: match min_induction {
                Some(n) => n,
                None => default_min_induction(),
            },
            min_accept: match min_accept {
                Some(n) => n,
                None => default_min_accept(),
            },
            closed_ids,
            closed,
        }
    }

    /// The key of the skeleton of the last `n` tokens.
    fn skeleton_text(&self, ctx: &[i64], n: usize) -> (key: String)
        requires
            1 <= n <= ctx@.len(),
        ensures
            key@ == skeleton_key(ctx@, n as nat, self@.closed_ids),
    {
        proof {
            use_type_invariant(self);
        }
        let len: usize = ctx.len();
        let ghost tail = ctx@.skip(len - n);
        let mut key = String::new();
        push_usize(&mut key, n);
        key.push(':');
        let ghost head = dec(n as nat) + seq![':'];
        assert(key@ =~= head + skeleton(tail.take(0), self@.closed_ids));
        let mut i: usize = 0;
        while i < n
            invariant
                i <= n <= len == ctx@.len(),
                tail == ctx@.skip(len - n),
                key@ == head + skeleton(tail.take(i as int), self@.closed_ids),
                forall|t: i64| #[trigger] self.closed@.contains(t) <==> self@.closed_ids.contains(t),
            decreases n - i,
        {
            let t: i64 = ctx[len - n + i];
            let ghost before = key@;
            assert(tail.take(i + 1).drop_last() =~= tail.take(i as int));
            assert(tail.take(i + 1).last() == t);
            if i > 0 {
                key.push('/');
            }
            if self.closed.contains(&t) {
                push_i64(&mut key, t);
            } else {
                key.push('O');
            }
            assert(key@ =~= head + skeleton(tail.take(i + 1), self@.closed_ids));
            i += 1;
        }
        assert(tail.take(n as int) =~= tail);
        key
    }

    /// The tokens that the store and the context propose, each once, the most valuable sources first.
    pub fn candidates(&self, ctx: &[i64], cfg: &CandCfg) -> (r: Vec<i64>)
        ensures
            r@ == first_occurrences(contributions(self@, ctx@, *cfg)),
    {
        let mut out: Vec<i64> = Vec::new();
        let n: usize = ctx.len();
        context_candidates(ctx, cfg.recent, cfg.induction, &mut out);
        assert(out@ =~= context_tokens(ctx@, cfg.recent as nat, cfg.induction as nat));
        if n >= 3 {
            let mut key = String::new();
            push_i64(&mut key, ctx[n - 3]);
            key.push(',');
            push_i64(&mut key, ctx[n - 2]);
            key.push(',');
            push_i64(&mut key, ctx[n - 1]);
            assert(key@ =~= quad_key(ctx@[n - 3], ctx@[n - 2], ctx@[n - 1]));
            if let Some(v) = lookup(&self.quad, key.as_str()) {
                push_top(&mut out, v.as_slice(), cfg.quad);
            }
        }
        let ghost g1 = context_tokens(ctx@, cfg.recent as nat, cfg.induction as nat) + top(
            quad_successors(self@, ctx@),
            cfg.quad as nat,
        );
        assert(out@ =~= g1);
        if n >= 2 {
            let mut key = String::new();
            push_i64(&mut key, ctx[n - 2]);
            key.push(',');
            push_i64(&mut key, ctx[n - 1]);
            assert(key@ =~= tri_key(ctx@[n - 2], ctx@[n - 1]));
            if let Some(v) = lookup(&self.tri, key.as_str()) {
                push_top(&mut out, v.as_slice(), cfg.tri);
            }
        }
        let ghost g2 = g1 + top(tri_successors(self@, ctx@), cfg.tri as nat);
        assert(out@ =~= g2);
        if n >= 1 {
            let mut key = String::new();
            push_i64(&mut key, ctx[n - 1]);
            assert(key@ =~= int_text(ctx@[n - 1] as int));
            if let Some(v) = lookup(&self.bi, key.as_str()) {
                push_top(&mut out, v.as_slice(), cfg.bi);
            }
        }
        let ghost g3 = g2 + top(bi_successors(self@, ctx@), cfg.bi as nat);
        assert(out@ =~= g3);
        let ghost (s3, s2) = (skel_successors(self@, ctx@, 3), skel_successors(self@, ctx@, 2));
        let before: usize = out.len();
        if n >= 3 {
            let key = self.skeleton_text(ctx, 3);
            if let Some(v) = lookup(&self.skel, key.as_str()) {
                push_top(&mut out, v.as_slice(), cfg.skel);
            }
        }
        assert(out@ =~= g3 + top(s3, cfg.skel as nat));
        let left: usize = cfg.skel - (out.len() - before);
        if n >= 2 {
            let key = self.skeleton_text(ctx, 2);
            if let Some(v) = lookup(&self.skel, key.as_str()) {
                push_top(&mut out, v.as_slice(), left);
            }
        }
        let ghost g5 = g3 + top(s3 + s2, cfg.skel as nat);
        proof {
            tops_of_sum(s3, s2, cfg.skel as nat);
            assert(out@ =~= g3 + (top(s3, cfg.skel as nat) + top(s2, left as nat)));
        }
        if cfg.closed {
            push_top(&mut out, self.closed_ids.as_slice(), self.closed_ids.len());
        }
        let ghost g6 = g5 + (if cfg.closed { self@.closed_ids } else { Seq::empty() });
        assert(out@ =~= g6);
        push_top(&mut out, self.uni.as_slice(), cfg.uni);
        assert(out@ =~= contributions(self@, ctx@, *cfg));
        dedup(out.as_slice())
    }

    /// Copies what followed the latest earlier occurrence of the longest recurring tail.
    fn induction(&self, ctx: &[i64]) -> (r: Option<(i64, String)>)
        requires
            ctx@.len() > 0,
        ensures
            match r {
                Some((t, tag)) => induction_hit(ctx@, ctx@.len() - 1, self@.min_accept) matches Some(
                    (u, span),
                ) && t == u && tag@ == "induction-"@ + dec(span as nat),
                None => induction_hit(ctx@, ctx@.len() - 1, self@.min_accept) is None,
            },
    {
        let n: usize = ctx.len();
        let mut span: usize = n - 1;
        while span >= self.min_accept
            invariant
                n == ctx@.len() > 0,
                induction_hit(ctx@, ctx@.len() - 1, self@.min_accept) == induction_hit(
                    ctx@,
                    span as int,
                    self@.min_accept,
                ),
            decreases span,
        {
            if n > span {
                let mut i: usize = n - span;
                while i > 0
                    invariant
                        n == ctx@.len(),
                        span < n,
                        i <= n - span,
                        span >= self.min_accept,
                        induction_hit(ctx@, ctx@.len() - 1, self@.min_accept) == induction_hit(
                            ctx@,
                            span as int,
                            self@.min_accept,
                        ),
                        latest_recurrence(ctx@, span as int, n - span - 1) == latest_recurrence(
                            ctx@,
                            span as int,
                            i - 1,
                        ),
                    decreases i,
                {
                    i -= 1;
                    if tail_recurs(ctx, span, i) {
                        let mut tag = String::from_str("induction-");
                        push_usize(&mut tag, span);
                        return Some((ctx[i + span], tag));
                    }
                }
            }
            if span == 0 {
                proof {
                    assert(recurs(ctx@, 0, n - 1)) by {
                        assert(ctx@.subrange(n - 1, n - 1) =~= ctx@.subrange(n as int, n as int));
                    }
                }
                return None;
            }
            span -= 1;
        }
        None
    }

    /// Looks up the n-gram tables, the grammar and the floor, in that order.
    fn ngram(&self, ctx: &[i64]) -> (r: Option<(i64, String)>)
        requires
            ctx@.len() > 0,
        ensures
            match r {
                Some((t, tag)) => backoff(self@, ctx@) == Some((t, tag@)),
                None => backoff(self@, ctx@) is None,
            },
    {
        let n: usize = ctx.len();
        if n >= 3 {
            let mut key = String::new();
            push_i64(&mut key, ctx[n - 3]);
            key.push(',');
            push_i64(&mut key, ctx[n - 2]);
            key.push(',');
            push_i64(&mut key, ctx[n - 1]);
            assert(key@ =~= quad_key(ctx@[n - 3], ctx@[n - 2], ctx@[n - 1]));
            if let Some(v) = lookup(&self.quad, key.as_str()) {
                if v.len() > 0 {
                    return Some((v[0], String::from_str("quad")));
                }
            }
        }
        if n >= 2 {
            let mut key = String::new();
            push_i64(&mut key, ctx[n - 2]);
            key.push(',');
            push_i64(&mut key, ctx[n - 1]);
            assert(key@ =~= tri_key(ctx@[n - 2], ctx@[n - 1]));
            if let Some(v) = lookup(&self.tri, key.as_str()) {
                if v.len() > 0 {
                    return Some((v[0], String::from_str("trigram")));
                }
            }
        }
        let mut key = String::new();
        push_i64(&mut key, ctx[n - 1]);
        assert(key@ =~= int_text(ctx@[n - 1] as int));
        if let Some(v) = lookup(&self.bi, key.as_str()) {
            if v.len() > 0 {
                return Some((v[0], String::from_str("bigram")));
            }
        }
        if let Some(hit) = self.grammar(ctx) {
            return Some(hit);
        }
        if self.uni.len() > 0 {
            Some((self.uni[0], String::from_str("unigram")))
        } else {
            None
        }
    }

    /// Looks up the grammatical skeleton of the last three tokens, then of the last two.
    fn grammar(&self, ctx: &[i64]) -> (r: Option<(i64, String)>)
        ensures
            match r {
                Some((t, tag)) => if skel_successors(self@, ctx@, 3).len() > 0 {
                    t == skel_successors(self@, ctx@, 3)[0] && tag@ == "grammar-"@ + dec(3)
                } else {
                    skel_successors(self@, ctx@, 2).len() > 0 && t == skel_successors(self@, ctx@, 2)[0] && tag@
                        == "grammar-"@ + dec(2)
                },
                None => skel_successors(self@, ctx@, 3).len() == 0 && skel_successors(self@, ctx@, 2).len() == 0,
            },
    {
        let mut n: usize = 3;
        while n >= 2
            invariant
                1 <= n <= 3,
                n < 3 ==> skel_successors(self@, ctx@, 3).len() == 0,
                n < 2 ==> skel_successors(self@, ctx@, 2).len() == 0,
            decreases n,
        {
            if ctx.len() >= n {
                let key = self.skeleton_text(ctx, n);
                if let Some(v) = lookup(&self.skel, key.as_str()) {
                    if v.len() > 0 {
                        let mut tag = String::from_str("grammar-");
                        push_usize(&mut tag, n);
                        return Some((v[0], tag));
                    }
                }
            }
            n -= 1;
        }
        None
    }

    /// The next-token prediction for every context: the token and the idiom that fired, if there is one.
    pub fn try_predict(&self, ctx: &[i64]) -> (r: Option<(i64, String)>)
        ensures
            match r {
                Some((t, tag)) => prediction(self@, ctx@) == Some((t, tag@)),
                None => prediction(self@, ctx@) is None,
            },
    {
        if ctx.len() == 0 {
            return None;
        }
        if let Some(hit) = self.induction(ctx) {
            return Some(hit);
        }
        self.ngram(ctx)
    }

    /// The next-token prediction for a context for which the store has one: the token and the idiom that fired.
    pub fn predict(&self, ctx: &[i64]) -> (r: (i64, String))
        requires
            prediction(self@, ctx@) is Some,
        ensures
            prediction(self@, ctx@) == Some((r.0, r.1@)),
    {
        self.try_predict(ctx).unwrap()
    }
}

} // verus!
