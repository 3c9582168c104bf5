//! What holds of every store, every context and every candidate set.
use vstd::prelude::*;
use crate::retrieval::{
    all_followers, backoff, bi_successors, contributions, first_occurrences, first_occurrences_start, followers,
    induction_hit, latest_recurrence, longest_span, prediction, quad_key, quad_successors, recent_tokens, recurs,
    skel_successors, skeleton, skeleton_key, top, tri_key, tri_successors, CandCfg, StoreModel, Table,
};
use crate::text::{dec, int_text};

verus! {

/// A candidate set has no repetition, loses no token and invents none.
pub proof fn occurrences_are_distinct(s: Seq<i64>)
    ensures
        first_occurrences(s).no_duplicates(),
        forall|t: i64| #[trigger] first_occurrences(s).contains(t) <==> s.contains(t),
    decreases s.len(),
{
    if s.len() > 0 {
        let head = s.drop_last();
        let rest = first_occurrences(head);
        let all = first_occurrences(s);
        occurrences_are_distinct(head);
        if !head.contains(s.last()) {
            assert(!rest.contains(s.last()));
        }
        assert forall|t: i64| #[trigger] all.contains(t) <==> s.contains(t) by {
            if s.contains(t) {
                let k = choose|k: int| 0 <= k < s.len() && s[k] == t;
                if k < s.len() - 1 {
                    assert(head[k] == t);
                }
                if head.contains(t) {
                    assert(rest.contains(t));
                    let m = choose|m: int| 0 <= m < rest.len() && rest[m] == t;
                    assert(all[m] == t);
                } else {
                    assert(all[all.len() - 1] == t);
                }
            }
            if all.contains(t) {
                let m = choose|m: int| 0 <= m < all.len() && all[m] == t;
                if m < rest.len() {
                    assert(rest[m] == t);
                    assert(rest.contains(t));
                    let k = choose|k: int| 0 <= k < head.len() && head[k] == t;
                    assert(s[k] == t);
                } else {
                    assert(s[s.len() - 1] == t);
                }
            }
        }
    }
}

/// The order of the sources is kept: a candidate that stands before another occurred in the contributions before
/// every occurrence of the other.
pub proof fn occurrences_keep_order(s: Seq<i64>, i: int, j: int, q: int)
    requires
        0 <= i < j < first_occurrences(s).len(),
        0 <= q < s.len(),
        s[q] == first_occurrences(s)[j],
    ensures
        exists|p: int| 0 <= p < q && s[p] == first_occurrences(s)[i],
    decreases s.len(),
{
    let head = s.drop_last();
    let rest = first_occurrences(head);
    occurrences_are_distinct(s);
    occurrences_are_distinct(head);
    if j < rest.len() {
        if q < s.len() - 1 {
            assert(head[q] == s[q]);
            occurrences_keep_order(head, i, j, q);
            let p = choose|p: int| 0 <= p < q && head[p] == rest[i];
            assert(s[p] == first_occurrences(s)[i]);
        } else {
            assert(rest.contains(rest[i]));
            let p = choose|p: int| 0 <= p < head.len() && head[p] == rest[i];
            assert(s[p] == first_occurrences(s)[i]);
        }
    } else {
        assert(rest.contains(rest[i]));
        let p = choose|p: int| 0 <= p < head.len() && head[p] == rest[i];
        assert(s[p] == first_occurrences(s)[i]);
        if q < s.len() - 1 {
            assert(head[q] == s.last());
            assert(head.contains(s.last()));
        }
    }
}

proof fn recurrence_is_latest(ctx: Seq<i64>, span: int, i: int)
    ensures
        match latest_recurrence(ctx, span, i) {
            Some(k) => 0 <= k <= i && recurs(ctx, span, k) && forall|m: int|
                k < m <= i ==> !#[trigger] recurs(ctx, span, m),
            None => forall|m: int| 0 <= m <= i ==> !#[trigger] recurs(ctx, span, m),
        },
    decreases i + 1,
{
    if i >= 0 && !recurs(ctx, span, i) {
        recurrence_is_latest(ctx, span, i - 1);
    }
}

/// Induction copies what followed the latest earlier occurrence of the longest tail that recurs, within the bounds.
/// A prediction starts at the longest tail that the context allows.
pub proof fn induction_copies_the_longest_latest(ctx: Seq<i64>, longest: int, min_accept: nat)
    requires
        ctx.len() > 0,
    ensures
        match induction_hit(ctx, longest, min_accept) {
            Some((t, span)) => {
                &&& min_accept <= span <= longest
                &&& span < ctx.len()
                &&& exists|k: int|
                    0 <= k < ctx.len() - span && #[trigger] recurs(ctx, span, k) && t == ctx[k + span] && forall|m: int|
                        k < m < ctx.len() - span ==> !#[trigger] recurs(ctx, span, m)
                &&& forall|w: int, m: int|
                    span < w <= longest && 0 <= m < ctx.len() - w ==> !#[trigger] recurs(ctx, w, m)
            },
            None => forall|w: int, m: int|
                min_accept <= w <= longest && 0 <= m < ctx.len() - w ==> !#[trigger] recurs(ctx, w, m),
        },
    decreases longest + 1,
{
    if longest >= 0 && longest >= min_accept {
        recurrence_is_latest(ctx, longest, ctx.len() - longest - 1);
        induction_copies_the_longest_latest(ctx, longest - 1, min_accept);
    }
}

proof fn followers_start_with_latest(ctx: Seq<i64>, span: int, i: int)
    ensures
        match latest_recurrence(ctx, span, i) {
            Some(k) => followers(ctx, span, i).len() > 0 && followers(ctx, span, i)[0] == ctx[k + span],
            None => followers(ctx, span, i).len() == 0,
        },
    decreases i + 1,
{
    if i >= 0 && !recurs(ctx, span, i) {
        followers_start_with_latest(ctx, span, i - 1);
    }
}

proof fn followers_start_with_hit(ctx: Seq<i64>, span: int, min_accept: nat)
    requires
        1 <= min_accept,
        span < ctx.len(),
    ensures
        induction_hit(ctx, span, min_accept) matches Some((t, _)) ==> all_followers(ctx, span).len() > 0
            && all_followers(ctx, span)[0] == t,
    decreases span + 1,
{
    if span >= min_accept {
        followers_start_with_latest(ctx, span, ctx.len() - span - 1);
        followers_start_with_hit(ctx, span - 1, min_accept);
        assert(followers(ctx, span, ctx.len() - span - 1).len() == 0 ==> followers(ctx, span, ctx.len() - span - 1)
            + all_followers(ctx, span - 1) =~= all_followers(ctx, span - 1));
    }
}

/// A hit of a short tail is found as well when longer ones are not tried.
proof fn short_hits_stay(ctx: Seq<i64>, span: int, short: int, min_accept: nat)
    requires
        short <= span,
        induction_hit(ctx, span, min_accept) matches Some((_, w)) && w <= short,
    ensures
        induction_hit(ctx, short, min_accept) == induction_hit(ctx, span, min_accept),
    decreases span - short,
{
    if short < span {
        short_hits_stay(ctx, span - 1, short, min_accept);
    }
}

/// What followed an occurrence is among the followers.
proof fn followers_hold(ctx: Seq<i64>, span: int, i: int, k: int)
    requires
        0 <= k <= i,
        recurs(ctx, span, k),
    ensures
        followers(ctx, span, i).contains(ctx[k + span]),
    decreases i,
{
    let f = followers(ctx, span, i);
    if k == i {
        assert(f[0] == ctx[k + span]);
    } else {
        followers_hold(ctx, span, i - 1, k);
        let rest = followers(ctx, span, i - 1);
        let m = choose|m: int| 0 <= m < rest.len() && rest[m] == ctx[k + span];
        assert(f[f.len() - rest.len() + m] == ctx[k + span]);
    }
}

/// Where a tail recurs, its own tails do.
proof fn shorter_tails_recur(ctx: Seq<i64>, span: int, short: int, k: int)
    requires
        0 <= short <= span,
        0 <= k < ctx.len() - span,
        recurs(ctx, span, k),
    ensures
        recurs(ctx, short, k + span - short),
{
    let (a, b) = (ctx.subrange(k, k + span), ctx.subrange(ctx.len() - span, ctx.len() as int));
    let c = ctx.subrange(k + span - short, k + span);
    let d = ctx.subrange(ctx.len() - short, ctx.len() as int);
    assert forall|j: int| 0 <= j < short implies c[j] == d[j] by {
        assert(c[j] == a[span - short + j] && d[j] == b[span - short + j]);
    }
    assert(c =~= d);
}

/// The candidates hold what induction copies, where its tail is among those that the candidates look for, or where
/// every follower may be a candidate.
proof fn followers_hold_the_hit(ctx: Seq<i64>, min_accept: nat, cap: nat)
    requires
        1 <= min_accept,
        1 <= cap,
        induction_hit(ctx, ctx.len() - 1, min_accept) matches Some((_, w)) && (w <= 3 || cap >= all_followers(
            ctx,
            longest_span(ctx.len() as int),
        ).len()),
    ensures
        top(all_followers(ctx, longest_span(ctx.len() as int)), cap).contains(
            (induction_hit(ctx, ctx.len() - 1, min_accept)->0).0,
        ),
{
    let n = ctx.len() as int;
    let short = longest_span(n);
    let f = all_followers(ctx, short);
    let (t, w) = induction_hit(ctx, n - 1, min_accept)->0;
    induction_copies_the_longest_latest(ctx, n - 1, min_accept);
    if w <= 3 {
        short_hits_stay(ctx, n - 1, short, min_accept);
        followers_start_with_hit(ctx, short, min_accept);
        assert(top(f, cap)[0] == t);
    } else {
        let k = choose|k: int| 0 <= k < n - w && #[trigger] recurs(ctx, w, k) && t == ctx[k + w];
        shorter_tails_recur(ctx, w, short, k);
        followers_hold(ctx, short, n - short - 1, k + w - short);
        part_of_sum(followers(ctx, short, n - short - 1), all_followers(ctx, short - 1), t);
        assert(top(f, cap) =~= f);
    }
}

proof fn part_of_sum(a: Seq<i64>, b: Seq<i64>, t: i64)
    ensures
        a.contains(t) || b.contains(t) ==> (a + b).contains(t),
{
    if a.contains(t) {
        let k = choose|k: int| 0 <= k < a.len() && a[k] == t;
        assert((a + b)[k] == t);
    }
    if b.contains(t) {
        let k = choose|k: int| 0 <= k < b.len() && b[k] == t;
        assert((a + b)[a.len() + k] == t);
    }
}

/// Induction copies behind a tail that the candidates look for, or the cap leaves out no follower of theirs.
pub open spec fn induction_is_covered(m: StoreModel, ctx: Seq<i64>, cfg: CandCfg) -> bool {
    induction_hit(ctx, ctx.len() - 1, m.min_accept) matches Some((_, span)) ==> span <= 3 || cfg.induction
        >= all_followers(ctx, longest_span(ctx.len() as int)).len()
}

/// Where every source may contribute, the store's own prediction is among the candidates: where no empty tail is
/// accepted, and where induction copies behind a tail of at most three tokens, as the candidates do, or all followers
/// of such tails may be candidates.
pub proof fn candidates_cover_the_prediction(m: StoreModel, ctx: Seq<i64>, cfg: CandCfg)
    requires
        m.min_accept >= 1,
        induction_is_covered(m, ctx, cfg),
        cfg.induction >= 1,
        cfg.quad >= 1,
        cfg.tri >= 1,
        cfg.bi >= 1,
        cfg.skel >= 1,
        cfg.uni >= 1,
        prediction(m, ctx) is Some,
    ensures
        first_occurrences(contributions(m, ctx, cfg)).contains((prediction(m, ctx)->0).0),
{
    let t = (prediction(m, ctx)->0).0;
    let f = all_followers(ctx, longest_span(ctx.len() as int));
    let recent = recent_tokens(ctx, cfg.recent as nat);
    let s0 = recent + top(f, cfg.induction as nat);
    let s1 = s0 + top(quad_successors(m, ctx), cfg.quad as nat);
    let s2 = s1 + top(tri_successors(m, ctx), cfg.tri as nat);
    let s3 = s2 + top(bi_successors(m, ctx), cfg.bi as nat);
    let both = skel_successors(m, ctx, 3) + skel_successors(m, ctx, 2);
    let s5 = s3 + top(both, cfg.skel as nat);
    let s6 = s5 + (if cfg.closed { m.closed_ids } else { Seq::empty() });
    let s7 = s6 + top(m.uni, cfg.uni as nat);
    assert(s7 == contributions(m, ctx, cfg));
    if induction_hit(ctx, ctx.len() - 1, m.min_accept) is Some {
        followers_hold_the_hit(ctx, m.min_accept, cfg.induction as nat);
    } else if quad_successors(m, ctx).len() > 0 {
        assert(top(quad_successors(m, ctx), cfg.quad as nat)[0] == t);
    } else if tri_successors(m, ctx).len() > 0 {
        assert(top(tri_successors(m, ctx), cfg.tri as nat)[0] == t);
    } else if bi_successors(m, ctx).len() > 0 {
        assert(top(bi_successors(m, ctx), cfg.bi as nat)[0] == t);
    } else if skel_successors(m, ctx, 3).len() > 0 {
        assert(top(both, cfg.skel as nat)[0] == t);
    } else if skel_successors(m, ctx, 2).len() > 0 {
        assert(both =~= skel_successors(m, ctx, 2));
        assert(top(both, cfg.skel as nat)[0] == t);
    } else {
        assert(top(m.uni, cfg.uni as nat)[0] == t);
    }
    part_of_sum(recent, top(f, cfg.induction as nat), t);
    part_of_sum(s0, top(quad_successors(m, ctx), cfg.quad as nat), t);
    part_of_sum(s1, top(tri_successors(m, ctx), cfg.tri as nat), t);
    part_of_sum(s2, top(bi_successors(m, ctx), cfg.bi as nat), t);
    part_of_sum(s3, top(both, cfg.skel as nat), t);
    part_of_sum(s5, if cfg.closed { m.closed_ids } else { Seq::empty() }, t);
    part_of_sum(s6, top(m.uni, cfg.uni as nat), t);
    occurrences_are_distinct(s7);
}

/// The recent tokens are distinct, no more than asked for, and the latest token of the context comes first.
pub proof fn recent_tokens_are_distinct(ctx: Seq<i64>, n: nat)
    ensures
        recent_tokens(ctx, n).no_duplicates(),
        recent_tokens(ctx, n).len() <= n,
        n > 0 && ctx.len() > 0 ==> recent_tokens(ctx, n).len() > 0 && recent_tokens(ctx, n)[0] == ctx.last(),
        forall|t: i64| #[trigger] recent_tokens(ctx, n).contains(t) ==> ctx.contains(t),
{
    let back = ctx.reverse();
    let all = first_occurrences(back);
    let r = recent_tokens(ctx, n);
    occurrences_are_distinct(back);
    if ctx.len() > 0 {
        first_occurrences_start(back, 1);
        let one = back.take(1);
        assert(one.drop_last() =~= Seq::empty());
        assert(first_occurrences(one.drop_last()) =~= Seq::empty());
        assert(first_occurrences(one) =~= seq![ctx.last()]);
        assert(all.take(1)[0] == ctx.last());
    }
    assert forall|t: i64| #[trigger] r.contains(t) implies ctx.contains(t) by {
        let k = choose|k: int| 0 <= k < r.len() && r[k] == t;
        assert(all[k] == t);
        assert(all.contains(t));
        let m = choose|m: int| 0 <= m < back.len() && back[m] == t;
        assert(ctx[ctx.len() - 1 - m] == t);
    }
}

/// No source contributes more tokens than its cap.
pub proof fn sources_keep_their_caps(m: StoreModel, ctx: Seq<i64>, cfg: CandCfg)
    ensures
        contributions(m, ctx, cfg).len() <= cfg.recent + cfg.induction + cfg.quad + cfg.tri + cfg.bi + cfg.skel
            + cfg.uni + if cfg.closed { m.closed_ids.len() } else { 0 },
{
}

/// The parts behind one another, with a separator between.
pub open spec fn joined(parts: Seq<Seq<char>>, sep: char) -> Seq<char>
    decreases parts.len(),
{
    if parts.len() == 0 {
        Seq::empty()
    } else if parts.len() == 1 {
        parts[0]
    } else {
        joined(parts.drop_last(), sep) + seq![sep] + parts.last()
    }
}

/// The last `n` tokens of a context.
pub open spec fn last_tokens(ctx: Seq<i64>, n: nat) -> Seq<i64> {
    ctx.skip(ctx.len() - n)
}

/// The key of the last `n` tokens in an n-gram table: their numerals, with commas between.
pub open spec fn ngram_key(ctx: Seq<i64>, n: nat) -> Seq<char> {
    joined(last_tokens(ctx, n).map_values(|t: i64| int_text(t as int)), ',')
}

/// The key of the last `n` tokens in the grammar table: their number, a colon, and with slashes between the numerals of
/// those of the closed class, and the letter O for the others.
pub open spec fn grammar_key(closed: Seq<i64>, ctx: Seq<i64>, n: nat) -> Seq<char> {
    dec(n) + seq![':'] + joined(
        last_tokens(ctx, n).map_values(|t: i64| if closed.contains(t) { int_text(t as int) } else { seq!['O'] }),
        '/',
    )
}

/// The table lists successors under a key of the last `n` tokens.
pub open spec fn lists(table: Table, ctx: Seq<i64>, n: nat, key: Seq<char>) -> bool {
    ctx.len() >= n && table.contains_key(key) && table[key].len() > 0
}

/// The longest n-gram wins: what is said is the first successor that the table of the longest n-gram lists, under the
/// name of that table; where no n-gram table lists any, the longer skeleton, then the shorter one; where none of them
/// does, the most frequent token of all.
pub open spec fn is_longest_match(m: StoreModel, ctx: Seq<i64>, r: Option<(i64, Seq<char>)>) -> bool {
    let (k3, k2, k1) = (ngram_key(ctx, 3), ngram_key(ctx, 2), ngram_key(ctx, 1));
    let (g3, g2) = (grammar_key(m.closed_ids, ctx, 3), grammar_key(m.closed_ids, ctx, 2));
    if lists(m.quad, ctx, 3, k3) {
        r == Some((m.quad[k3][0], "quad"@))
    } else if lists(m.tri, ctx, 2, k2) {
        r == Some((m.tri[k2][0], "trigram"@))
    } else if lists(m.bi, ctx, 1, k1) {
        r == Some((m.bi[k1][0], "bigram"@))
    } else if lists(m.skel, ctx, 3, g3) {
        r == Some((m.skel[g3][0], "grammar-3"@))
    } else if lists(m.skel, ctx, 2, g2) {
        r == Some((m.skel[g2][0], "grammar-2"@))
    } else if m.uni.len() > 0 {
        r == Some((m.uni[0], "unigram"@))
    } else {
        r is None
    }
}

/// The last `w` tokens of the context stand at `k` too, with a token behind them.
pub open spec fn occurs_before(ctx: Seq<i64>, w: int, k: int) -> bool {
    0 <= w && 0 <= k < ctx.len() - w && forall|j: int| 0 <= j < w ==> ctx[k + j] == #[trigger] ctx[ctx.len() - w + j]
}

/// No tail of at least `least` tokens occurs before.
pub open spec fn nothing_recurs(ctx: Seq<i64>, least: nat) -> bool {
    forall|w: int, k: int| w >= least ==> !#[trigger] occurs_before(ctx, w, k)
}

proof fn recurs_is_occurrence(ctx: Seq<i64>, w: int, k: int)
    requires
        0 <= w,
        0 <= k < ctx.len() - w,
    ensures
        recurs(ctx, w, k) == occurs_before(ctx, w, k),
{
    let (a, b) = (ctx.subrange(k, k + w), ctx.subrange(ctx.len() - w, ctx.len() as int));
    if recurs(ctx, w, k) {
        assert forall|j: int| 0 <= j < w implies ctx[k + j] == #[trigger] ctx[ctx.len() - w + j] by {
            assert(a[j] == b[j]);
        }
    }
    if occurs_before(ctx, w, k) {
        assert forall|j: int| 0 <= j < w implies a[j] == b[j] by {
            assert(ctx[k + j] == ctx[ctx.len() - w + j]);
        }
        assert(a =~= b);
    }
}

/// The keys of the tables, part by part.
proof fn keys_are_joined(closed: Seq<i64>, ctx: Seq<i64>)
    ensures
        ctx.len() >= 3 ==> ngram_key(ctx, 3) == quad_key(
            ctx[ctx.len() - 3],
            ctx[ctx.len() - 2],
            ctx[ctx.len() - 1],
        ) && grammar_key(closed, ctx, 3) == skeleton_key(ctx, 3, closed),
        ctx.len() >= 2 ==> ngram_key(ctx, 2) == tri_key(ctx[ctx.len() - 2], ctx[ctx.len() - 1]) && grammar_key(
            closed,
            ctx,
            2,
        ) == skeleton_key(ctx, 2, closed),
        ctx.len() >= 1 ==> ngram_key(ctx, 1) == int_text(ctx[ctx.len() - 1] as int),
{
    reveal_with_fuel(joined, 4);
    let n = ctx.len() as int;
    if n >= 1 {
        assert(ngram_key(ctx, 1) =~= int_text(ctx[n - 1] as int));
    }
    if n >= 2 {
        assert(ngram_key(ctx, 2) =~= tri_key(ctx[n - 2], ctx[n - 1]));
        skeleton_is_joined(last_tokens(ctx, 2), closed);
    }
    if n >= 3 {
        assert(ngram_key(ctx, 3) =~= quad_key(ctx[n - 3], ctx[n - 2], ctx[n - 1]));
        skeleton_is_joined(last_tokens(ctx, 3), closed);
    }
}

proof fn skeleton_is_joined(ts: Seq<i64>, closed: Seq<i64>)
    ensures
        skeleton(ts, closed) == joined(
            ts.map_values(|t: i64| if closed.contains(t) { int_text(t as int) } else { seq!['O'] }),
            '/',
        ),
    decreases ts.len(),
{
    let f = |t: i64| if closed.contains(t) { int_text(t as int) } else { seq!['O'] };
    if ts.len() > 1 {
        skeleton_is_joined(ts.drop_last(), closed);
        assert(ts.map_values(f).drop_last() =~= ts.drop_last().map_values(f));
    }
}

/// The longest n-gram wins in what the tables say, and in every prediction for a context of which no accepted tail
/// occurs before.
pub proof fn longest_ngram_wins(m: StoreModel, ctx: Seq<i64>)
    requires
        ctx.len() > 0,
    ensures
        is_longest_match(m, ctx, backoff(m, ctx)),
        nothing_recurs(ctx, m.min_accept) ==> is_longest_match(m, ctx, prediction(m, ctx)),
{
    keys_are_joined(m.closed_ids, ctx);
    reveal_with_fuel(dec, 2);
    reveal_strlit("grammar-");
    reveal_strlit("grammar-3");
    reveal_strlit("grammar-2");
    assert("grammar-"@ + dec(3) =~= "grammar-3"@);
    assert("grammar-"@ + dec(2) =~= "grammar-2"@);
    assert(is_longest_match(m, ctx, backoff(m, ctx)));
    if nothing_recurs(ctx, m.min_accept) {
        induction_copies_the_longest_latest(ctx, ctx.len() - 1, m.min_accept);
        if let Some((_, span)) = induction_hit(ctx, ctx.len() - 1, m.min_accept) {
            let k = choose|k: int| 0 <= k < ctx.len() - span && #[trigger] recurs(ctx, span, k);
            recurs_is_occurrence(ctx, span, k);
        }
    }
}

/// Induction goes before all tables: where an accepted tail occurs before, the prediction is what followed the latest
/// occurrence of the longest such tail, under the name of induction with the length of that tail.
pub proof fn induction_goes_first(m: StoreModel, ctx: Seq<i64>, w: int, k: int)
    requires
        w >= m.min_accept,
        occurs_before(ctx, w, k),
        forall|j: int| k < j ==> !#[trigger] occurs_before(ctx, w, j),
        forall|v: int, j: int| v > w ==> !#[trigger] occurs_before(ctx, v, j),
    ensures
        prediction(m, ctx) == Some((ctx[k + w], "induction-"@ + dec(w as nat))),
{
    induction_copies_the_longest_latest(ctx, ctx.len() - 1, m.min_accept);
    recurs_is_occurrence(ctx, w, k);
    assert(recurs(ctx, w, k));
    match induction_hit(ctx, ctx.len() - 1, m.min_accept) {
        Some((t, span)) => {
            let i = choose|i: int|
                0 <= i < ctx.len() - span && #[trigger] recurs(ctx, span, i) && t == ctx[i + span] && forall|j: int|
                    i < j < ctx.len() - span ==> !#[trigger] recurs(ctx, span, j);
            recurs_is_occurrence(ctx, span, i);
            assert(occurs_before(ctx, span, i));
            assert(span == w);
            assert(i <= k);
        },
        None => {},
    }
}

/// There is no prediction for an empty context.
pub proof fn nothing_predicted_for_nothing(m: StoreModel)
    ensures
        prediction(m, Seq::empty()) is None,
{
}

/// The tokens that a store and a context propose.
pub open spec fn candidate_set(m: StoreModel, ctx: Seq<i64>, cfg: CandCfg) -> Seq<i64> {
    first_occurrences(contributions(m, ctx, cfg))
}

/// The first `cap` tokens of the list, or all where there are fewer, are among the candidates.
pub open spec fn proposes_first(c: Seq<i64>, list: Seq<i64>, cap: nat) -> bool {
    forall|j: int| 0 <= j < list.len() && j < cap ==> c.contains(#[trigger] list[j])
}

/// The successors listed under a key of the last `n` tokens, none where the context is shorter or the key is missing.
pub open spec fn listed(table: Table, ctx: Seq<i64>, n: nat, key: Seq<char>) -> Seq<i64> {
    if lists(table, ctx, n, key) { table[key] } else { Seq::empty() }
}

proof fn first_of_top(list: Seq<i64>, cap: nat, j: int)
    requires
        0 <= j < list.len(),
        j < cap,
    ensures
        top(list, cap).contains(list[j]),
{
    assert(top(list, cap)[j] == list[j]);
}

/// Every source proposes all that its cap allows: each of the first successors of each table, each of the first that the
/// two skeletons list together, each of the most frequent tokens, and, where they are asked for, every token of the
/// closed class.
pub proof fn sources_use_their_caps(m: StoreModel, ctx: Seq<i64>, cfg: CandCfg)
    ensures
        ({
            let c = candidate_set(m, ctx, cfg);
            &&& proposes_first(c, listed(m.quad, ctx, 3, ngram_key(ctx, 3)), cfg.quad as nat)
            &&& proposes_first(c, listed(m.tri, ctx, 2, ngram_key(ctx, 2)), cfg.tri as nat)
            &&& proposes_first(c, listed(m.bi, ctx, 1, ngram_key(ctx, 1)), cfg.bi as nat)
            &&& proposes_first(
                c,
                listed(m.skel, ctx, 3, grammar_key(m.closed_ids, ctx, 3)) + listed(
                    m.skel,
                    ctx,
                    2,
                    grammar_key(m.closed_ids, ctx, 2),
                ),
                cfg.skel as nat,
            )
            &&& proposes_first(c, m.uni, cfg.uni as nat)
            &&& cfg.closed ==> forall|i: int| 0 <= i < m.closed_ids.len() ==> c.contains(#[trigger] m.closed_ids[i])
        }),
{
    let c = candidate_set(m, ctx, cfg);
    keys_are_joined(m.closed_ids, ctx);
    let q = listed(m.quad, ctx, 3, ngram_key(ctx, 3));
    let t = listed(m.tri, ctx, 2, ngram_key(ctx, 2));
    let b = listed(m.bi, ctx, 1, ngram_key(ctx, 1));
    let g3 = listed(m.skel, ctx, 3, grammar_key(m.closed_ids, ctx, 3));
    let g2 = listed(m.skel, ctx, 2, grammar_key(m.closed_ids, ctx, 2));
    let g = g3 + g2;
    assert(q =~= quad_successors(m, ctx));
    assert(t =~= tri_successors(m, ctx));
    assert(b =~= bi_successors(m, ctx));
    assert(g3 =~= skel_successors(m, ctx, 3));
    assert(g2 =~= skel_successors(m, ctx, 2));
    assert forall|j: int| 0 <= j < q.len() && j < cfg.quad implies c.contains(#[trigger] q[j]) by {
        first_of_top(q, cfg.quad as nat, j);
        proposed_by_a_source(m, ctx, cfg, q[j]);
    }
    assert forall|j: int| 0 <= j < t.len() && j < cfg.tri implies c.contains(#[trigger] t[j]) by {
        first_of_top(t, cfg.tri as nat, j);
        proposed_by_a_source(m, ctx, cfg, t[j]);
    }
    assert forall|j: int| 0 <= j < b.len() && j < cfg.bi implies c.contains(#[trigger] b[j]) by {
        first_of_top(b, cfg.bi as nat, j);
        proposed_by_a_source(m, ctx, cfg, b[j]);
    }
    assert forall|j: int| 0 <= j < g.len() && j < cfg.skel implies c.contains(#[trigger] g[j]) by {
        first_of_top(g, cfg.skel as nat, j);
        proposed_by_a_source(m, ctx, cfg, g[j]);
    }
    assert forall|j: int| 0 <= j < m.uni.len() && j < cfg.uni implies c.contains(#[trigger] m.uni[j]) by {
        first_of_top(m.uni, cfg.uni as nat, j);
        proposed_by_a_source(m, ctx, cfg, m.uni[j]);
    }
    if cfg.closed {
        assert forall|i: int| 0 <= i < m.closed_ids.len() implies c.contains(#[trigger] m.closed_ids[i]) by {
            assert(m.closed_ids.contains(m.closed_ids[i]));
            proposed_by_a_source(m, ctx, cfg, m.closed_ids[i]);
        }
    }
}

/// What a source contributes is a candidate, and a candidate is what some source contributes.
proof fn proposed_by_a_source(m: StoreModel, ctx: Seq<i64>, cfg: CandCfg, t: i64)
    ensures
        candidate_set(m, ctx, cfg).contains(t) == {
            ||| recent_tokens(ctx, cfg.recent as nat).contains(t)
            ||| top(all_followers(ctx, longest_span(ctx.len() as int)), cfg.induction as nat).contains(t)
            ||| top(quad_successors(m, ctx), cfg.quad as nat).contains(t)
            ||| top(tri_successors(m, ctx), cfg.tri as nat).contains(t)
            ||| top(bi_successors(m, ctx), cfg.bi as nat).contains(t)
            ||| top(skel_successors(m, ctx, 3) + skel_successors(m, ctx, 2), cfg.skel as nat).contains(t)
            ||| cfg.closed && m.closed_ids.contains(t)
            ||| top(m.uni, cfg.uni as nat).contains(t)
        },
{
    let recent = recent_tokens(ctx, cfg.recent as nat);
    let f = top(all_followers(ctx, longest_span(ctx.len() as int)), cfg.induction as nat);
    let q = top(quad_successors(m, ctx), cfg.quad as nat);
    let r = top(tri_successors(m, ctx), cfg.tri as nat);
    let b = top(bi_successors(m, ctx), cfg.bi as nat);
    let g = top(skel_successors(m, ctx, 3) + skel_successors(m, ctx, 2), cfg.skel as nat);
    let k = if cfg.closed { m.closed_ids } else { Seq::empty() };
    let u = top(m.uni, cfg.uni as nat);
    parts_of_sum(recent, f, t);
    parts_of_sum(recent + f, q, t);
    parts_of_sum(recent + f + q, r, t);
    parts_of_sum(recent + f + q + r, b, t);
    parts_of_sum(recent + f + q + r + b, g, t);
    parts_of_sum(recent + f + q + r + b + g, k, t);
    parts_of_sum(recent + f + q + r + b + g + k, u, t);
    occurrences_are_distinct(contributions(m, ctx, cfg));
    assert(contributions(m, ctx, cfg).contains(t) == candidate_set(m, ctx, cfg).contains(t));
}

proof fn parts_of_sum(a: Seq<i64>, b: Seq<i64>, t: i64)
    ensures
        (a + b).contains(t) == (a.contains(t) || b.contains(t)),
{
    part_of_sum(a, b, t);
    if (a + b).contains(t) {
        let k = choose|k: int| 0 <= k < (a + b).len() && (a + b)[k] == t;
        if k < a.len() {
            assert(a[k] == t);
        } else {
            assert(b[k - a.len()] == t);
        }
    }
}

/// What the source with the number `i` proposes, within its cap. The sources are the recent tokens, what followed the
/// tail before, the tables from the longest n-gram down, the skeletons, the closed class, and the most frequent tokens.
pub open spec fn source(m: StoreModel, ctx: Seq<i64>, cfg: CandCfg, i: nat) -> Seq<i64> {
    if i == 0 {
        recent_tokens(ctx, cfg.recent as nat)
    } else if i == 1 {
        top(all_followers(ctx, longest_span(ctx.len() as int)), cfg.induction as nat)
    } else if i == 2 {
        top(listed(m.quad, ctx, 3, ngram_key(ctx, 3)), cfg.quad as nat)
    } else if i == 3 {
        top(listed(m.tri, ctx, 2, ngram_key(ctx, 2)), cfg.tri as nat)
    } else if i == 4 {
        top(listed(m.bi, ctx, 1, ngram_key(ctx, 1)), cfg.bi as nat)
    } else if i == 5 {
        top(
            listed(m.skel, ctx, 3, grammar_key(m.closed_ids, ctx, 3)) + listed(
                m.skel,
                ctx,
                2,
                grammar_key(m.closed_ids, ctx, 2),
            ),
            cfg.skel as nat,
        )
    } else if i == 6 {
        if cfg.closed { m.closed_ids } else { Seq::empty() }
    } else if i == 7 {
        top(m.uni, cfg.uni as nat)
    } else {
        Seq::empty()
    }
}

spec fn sources_up_to(m: StoreModel, ctx: Seq<i64>, cfg: CandCfg, i: nat) -> Seq<i64>
    decreases i,
{
    if i == 0 {
        source(m, ctx, cfg, 0)
    } else {
        sources_up_to(m, ctx, cfg, (i - 1) as nat) + source(m, ctx, cfg, i)
    }
}

proof fn contributions_are_sources(m: StoreModel, ctx: Seq<i64>, cfg: CandCfg)
    ensures
        contributions(m, ctx, cfg) == sources_up_to(m, ctx, cfg, 7),
{
    keys_are_joined(m.closed_ids, ctx);
    reveal_with_fuel(sources_up_to, 8);
    assert(listed(m.quad, ctx, 3, ngram_key(ctx, 3)) =~= quad_successors(m, ctx));
    assert(listed(m.tri, ctx, 2, ngram_key(ctx, 2)) =~= tri_successors(m, ctx));
    assert(listed(m.bi, ctx, 1, ngram_key(ctx, 1)) =~= bi_successors(m, ctx));
    assert(listed(m.skel, ctx, 3, grammar_key(m.closed_ids, ctx, 3)) =~= skel_successors(m, ctx, 3));
    assert(listed(m.skel, ctx, 2, grammar_key(m.closed_ids, ctx, 2)) =~= skel_successors(m, ctx, 2));
}

proof fn up_to_holds(m: StoreModel, ctx: Seq<i64>, cfg: CandCfg, i: nat, t: i64)
    ensures
        sources_up_to(m, ctx, cfg, i).contains(t) <==> exists|k: nat| k <= i && #[trigger] source(m, ctx, cfg, k).contains(t),
    decreases i,
{
    if i > 0 {
        up_to_holds(m, ctx, cfg, (i - 1) as nat, t);
        parts_of_sum(sources_up_to(m, ctx, cfg, (i - 1) as nat), source(m, ctx, cfg, i), t);
        if exists|k: nat| k <= i && #[trigger] source(m, ctx, cfg, k).contains(t) {
            let k = choose|k: nat| k <= i && #[trigger] source(m, ctx, cfg, k).contains(t);
            assert(k == i || k <= i - 1);
        }
    } else {
        if source(m, ctx, cfg, 0).contains(t) {
            assert(0nat <= i);
        }
    }
}

proof fn up_to_begins(m: StoreModel, ctx: Seq<i64>, cfg: CandCfg, i: nat, j: nat)
    requires
        i <= j,
    ensures
        sources_up_to(m, ctx, cfg, i).len() <= sources_up_to(m, ctx, cfg, j).len(),
        sources_up_to(m, ctx, cfg, j).take(sources_up_to(m, ctx, cfg, i).len() as int) == sources_up_to(m, ctx, cfg, i),
    decreases j - i,
{
    let a = sources_up_to(m, ctx, cfg, i);
    if i < j {
        up_to_begins(m, ctx, cfg, i, (j - 1) as nat);
        let b = sources_up_to(m, ctx, cfg, (j - 1) as nat);
        assert((b + source(m, ctx, cfg, j)).take(a.len() as int) =~= b.take(a.len() as int));
    } else {
        assert(a.take(a.len() as int) =~= a);
    }
}

/// The candidates are what the sources propose, and nothing else; a token that some source proposes stands before every
/// candidate that only later sources propose.
pub proof fn earlier_sources_go_first(m: StoreModel, ctx: Seq<i64>, cfg: CandCfg, i: nat, x: i64, y: i64)
    requires
        i <= 7,
        source(m, ctx, cfg, i).contains(x),
        candidate_set(m, ctx, cfg).contains(y),
        forall|k: nat| k <= i ==> !#[trigger] source(m, ctx, cfg, k).contains(y),
    ensures
        exists|k: nat| i < k <= 7 && #[trigger] source(m, ctx, cfg, k).contains(y),
        exists|p: int, q: int|
            0 <= p < q < candidate_set(m, ctx, cfg).len() && #[trigger] candidate_set(m, ctx, cfg)[p] == x
                && #[trigger] candidate_set(m, ctx, cfg)[q] == y,
{
    let c = candidate_set(m, ctx, cfg);
    let all = contributions(m, ctx, cfg);
    let part = sources_up_to(m, ctx, cfg, i);
    contributions_are_sources(m, ctx, cfg);
    up_to_holds(m, ctx, cfg, i, x);
    up_to_holds(m, ctx, cfg, i, y);
    up_to_holds(m, ctx, cfg, 7, y);
    occurrences_are_distinct(all);
    occurrences_are_distinct(part);
    assert(all.contains(y));
    let k = choose|k: nat| k <= 7 && #[trigger] source(m, ctx, cfg, k).contains(y);
    assert(i < k);
    up_to_begins(m, ctx, cfg, i, 7);
    first_occurrences_start(all, part.len() as int);
    let first = first_occurrences(part);
    assert(first.contains(x));
    let p = choose|p: int| 0 <= p < first.len() && first[p] == x;
    assert(c.take(first.len() as int)[p] == x);
    let q = choose|q: int| 0 <= q < c.len() && c[q] == y;
    if q < first.len() {
        assert(c.take(first.len() as int)[q] == y);
        assert(first.contains(y));
    }
    assert(c[p] == x && c[q] == y);
}

/// As many recent tokens are taken as are asked for, or as the context has.
pub proof fn recent_tokens_are_counted(ctx: Seq<i64>, n: nat)
    ensures
        recent_tokens(ctx, n).len() == if n < ctx.to_set().len() { n } else { ctx.to_set().len() },
{
    let back = ctx.reverse();
    let all = first_occurrences(back);
    occurrences_are_distinct(back);
    assert(all.to_set() =~= ctx.to_set()) by {
        assert forall|t: i64| all.contains(t) == ctx.contains(t) by {
            if ctx.contains(t) {
                let k = choose|k: int| 0 <= k < ctx.len() && ctx[k] == t;
                assert(back[ctx.len() - 1 - k] == t);
            }
            if back.contains(t) {
                let k = choose|k: int| 0 <= k < back.len() && back[k] == t;
                assert(ctx[ctx.len() - 1 - k] == t);
            }
        }
    }
    all.unique_seq_to_set();
}

/// The recent tokens are the latest: what stands in the context behind the last place of a recent token is a recent token
/// too, and goes before it.
pub proof fn recent_tokens_are_latest(ctx: Seq<i64>, n: nat, p: int, j: int)
    requires
        0 <= p < recent_tokens(ctx, n).len(),
        0 <= j < ctx.len(),
        forall|i: int| j <= i < ctx.len() ==> #[trigger] ctx[i] != recent_tokens(ctx, n)[p],
    ensures
        exists|q: int| 0 <= q < p && recent_tokens(ctx, n)[q] == ctx[j],
{
    let back = ctx.reverse();
    let all = first_occurrences(back);
    let r = recent_tokens(ctx, n);
    occurrences_are_distinct(back);
    let a = ctx.len() - 1 - j;
    assert(back[a] == ctx[j]);
    assert(back.contains(ctx[j]));
    assert(all.contains(ctx[j]));
    let q = choose|q: int| 0 <= q < all.len() && all[q] == ctx[j];
    assert(all[p] == r[p]);
    if q > p {
        occurrences_keep_order(back, p, q, a);
        let b = choose|b: int| 0 <= b < a && back[b] == all[p];
        assert(ctx[ctx.len() - 1 - b] == r[p]);
    }
    assert(ctx[j] != r[p]);
    assert(r[q] == ctx[j]);
}

/// What followed an earlier occurrence of the last one, two or three tokens is a candidate where the cap leaves none of
/// them out; what followed the latest occurrence of the longest such tail is one wherever the cap allows any.
pub proof fn followers_are_proposed(m: StoreModel, ctx: Seq<i64>, cfg: CandCfg, w: int, k: int)
    requires
        1 <= w <= 3,
        occurs_before(ctx, w, k),
    ensures
        cfg.induction >= 3 * ctx.len() ==> candidate_set(m, ctx, cfg).contains(ctx[k + w]),
        cfg.induction >= 1 && (forall|j: int| k < j ==> !#[trigger] occurs_before(ctx, w, j)) && (forall|v: int, j: int|
            w < v <= 3 ==> !#[trigger] occurs_before(ctx, v, j)) ==> candidate_set(m, ctx, cfg).contains(ctx[k + w]),
{
    let n = ctx.len() as int;
    let short = longest_span(n);
    let f = all_followers(ctx, short);
    let t = ctx[k + w];
    recurs_is_occurrence(ctx, w, k);
    followers_hold(ctx, w, n - w - 1, k);
    all_followers_hold(ctx, short, w, t);
    all_followers_are_few(ctx, short);
    proposed_by_a_source(m, ctx, cfg, t);
    if cfg.induction >= 3 * ctx.len() {
        assert(top(f, cfg.induction as nat) =~= f);
    }
    if cfg.induction >= 1 && (forall|j: int| k < j ==> !#[trigger] occurs_before(ctx, w, j)) && (forall|v: int, j: int|
        w < v <= 3 ==> !#[trigger] occurs_before(ctx, v, j)) {
        induction_copies_the_longest_latest(ctx, short, 1);
        followers_start_with_hit(ctx, short, 1);
        assert(recurs(ctx, w, k));
        let (u, span) = induction_hit(ctx, short, 1)->0;
        let i = choose|i: int|
            0 <= i < n - span && #[trigger] recurs(ctx, span, i) && u == ctx[i + span] && forall|j: int|
                i < j < n - span ==> !#[trigger] recurs(ctx, span, j);
        recurs_is_occurrence(ctx, span, i);
        assert(occurs_before(ctx, span, i));
        assert(span == w && i <= k);
        assert(top(f, cfg.induction as nat)[0] == t);
    }
}

proof fn all_followers_hold(ctx: Seq<i64>, span: int, w: int, t: i64)
    requires
        1 <= w <= span,
        followers(ctx, w, ctx.len() - w - 1).contains(t),
    ensures
        all_followers(ctx, span).contains(t),
    decreases span,
{
    part_of_sum(followers(ctx, span, ctx.len() - span - 1), all_followers(ctx, span - 1), t);
    if w < span {
        all_followers_hold(ctx, span - 1, w, t);
    }
}

proof fn followers_are_few(ctx: Seq<i64>, span: int, i: int)
    ensures
        followers(ctx, span, i).len() <= if i < 0 { 0 } else { i + 1 },
    decreases i + 1,
{
    if i >= 0 {
        followers_are_few(ctx, span, i - 1);
    }
}

proof fn all_followers_are_few(ctx: Seq<i64>, span: int)
    requires
        span <= 3,
    ensures
        all_followers(ctx, span).len() <= 3 * ctx.len(),
{
    reveal_with_fuel(all_followers, 4);
    followers_are_few(ctx, 1, ctx.len() - 2);
    followers_are_few(ctx, 2, ctx.len() - 3);
    followers_are_few(ctx, 3, ctx.len() - 4);
}

} // verus!
