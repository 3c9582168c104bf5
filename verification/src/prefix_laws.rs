//! What holds of decoding over a kept cache: reuse changes nothing.
use vstd::prelude::*;
use crate::model::{common_prefix, greedy, growing_chat_reuses_all_rows, never_stops, reusable, with_prefix, PrefixKv};
use crate::prefix_decode::{
    can_take, ends_with, has_taken, is_generated, is_prefix_generated, is_prefix_generated_q, is_run, may_choose, may_run, went_on, ByteRows,
    DecodeRun, PlainRows, Request,
};

verus! {

/// A forward pass works on rows: where they hold what belongs to the tokens before, they hold afterwards what belongs to
/// all tokens, and the token that is chosen is the model's next one. `most` is how many rows there are.
pub open spec fn works<R, H, F: Fn(&[i64], usize, R) -> (R, H), G: Fn(&H, &[i64]) -> i64>(
    fwd: F,
    argmax: G,
    holds: spec_fn(R, Seq<i64>) -> bool,
    next: spec_fn(Seq<i64>) -> i64,
    most: nat,
) -> bool {
    forall|known: Seq<i64>, ids: Seq<i64>, before: R, after: R, h: H|
        runs_within(fwd, holds, known, ids, before, after, h, most) ==> #[trigger] is_right(
            argmax,
            holds,
            next,
            known,
            ids,
            before,
            after,
            h,
        )
}

/// Tokens run behind known ones, over rows that hold what belongs to those.
pub open spec fn runs_within<R, H, F: Fn(&[i64], usize, R) -> (R, H)>(
    fwd: F,
    holds: spec_fn(R, Seq<i64>) -> bool,
    known: Seq<i64>,
    ids: Seq<i64>,
    before: R,
    after: R,
    h: H,
    most: nat,
) -> bool {
    &&& 0 < ids.len()
    &&& known.len() + ids.len() <= most
    &&& holds(before, known)
    &&& may_run(fwd, ids, known.len(), before, after, h)
}

/// The rows hold what belongs to all tokens, and the next token is chosen.
pub open spec fn is_right<R, H, G: Fn(&H, &[i64]) -> i64>(
    argmax: G,
    holds: spec_fn(R, Seq<i64>) -> bool,
    next: spec_fn(Seq<i64>) -> i64,
    known: Seq<i64>,
    ids: Seq<i64>,
    before: R,
    after: R,
    h: H,
) -> bool {
    &&& holds(after, known + ids)
    &&& forall|t: i64| #[trigger] may_choose(argmax, h, known + ids, t) ==> t == next(known + ids)
}

/// After `i` tokens the rows hold what belongs to the prompt and those tokens.
proof fn rows_stay_right<R, H, F: Fn(&[i64], usize, R) -> (R, H), G: Fn(&H, &[i64]) -> i64, E: Fn(i64) -> bool>(
    fwd: F,
    argmax: G,
    emit: E,
    q: Request<R>,
    run: DecodeRun<R, H>,
    holds: spec_fn(R, Seq<i64>) -> bool,
    next: spec_fn(Seq<i64>) -> i64,
    i: nat,
)
    requires
        is_run(fwd, argmax, emit, q, run),
        works(fwd, argmax, holds, next, q.prompt.len() + q.limit),
        q.shared < q.prompt.len(),
        holds(q.start, q.prompt.take(q.shared as int)),
        i <= run.tokens.len(),
        run.tokens.len() < q.limit || run.tokens.len() == 0,
    ensures
        holds(run.rows[i as int], q.prompt + run.tokens.take(i as int)),
        forall|t: i64|
            #[trigger] may_choose(argmax, run.hidden[i as int], q.prompt + run.tokens.take(i as int), t) ==> t == next(
                q.prompt + run.tokens.take(i as int),
            ),
    decreases i,
{
    let most = q.prompt.len() + q.limit;
    if i == 0 {
        let known = q.prompt.take(q.shared as int);
        let ids = q.prompt.skip(q.shared as int);
        assert(runs_within(fwd, holds, known, ids, q.start, run.rows[0], run.hidden[0], most));
        assert(is_right(argmax, holds, next, known, ids, q.start, run.rows[0], run.hidden[0]));
        assert(known + ids =~= q.prompt + run.tokens.take(0));
    } else {
        let j = i - 1;
        rows_stay_right(fwd, argmax, emit, q, run, holds, next, j as nat);
        assert(went_on(fwd, argmax, emit, q, run, j));
        let known = q.prompt + run.tokens.take(j);
        let ids = seq![run.tokens[j]];
        assert(runs_within(fwd, holds, known, ids, run.rows[j], run.rows[i as int], run.hidden[i as int], most));
        assert(is_right(argmax, holds, next, known, ids, run.rows[j], run.rows[i as int], run.hidden[i as int]));
        assert(known + ids =~= q.prompt + run.tokens.take(i as int));
    }
}

/// From the token with the number `i` on, the run goes as greedy decoding does.
proof fn run_is_greedy<R, H, F: Fn(&[i64], usize, R) -> (R, H), G: Fn(&H, &[i64]) -> i64, E: Fn(i64) -> bool>(
    fwd: F,
    argmax: G,
    emit: E,
    q: Request<R>,
    run: DecodeRun<R, H>,
    t: i64,
    out: Seq<i64>,
    rows: R,
    holds: spec_fn(R, Seq<i64>) -> bool,
    next: spec_fn(Seq<i64>) -> i64,
    i: nat,
)
    requires
        is_run(fwd, argmax, emit, q, run),
        ends_with(fwd, argmax, emit, q, run, t, out, rows),
        works(fwd, argmax, holds, next, q.prompt.len() + q.limit),
        q.shared < q.prompt.len(),
        holds(q.start, q.prompt.take(q.shared as int)),
        i <= run.tokens.len(),
        run.tokens.len() < q.limit || run.tokens.len() == 0,
    ensures
        out.skip(i as int).is_prefix_of(
            greedy(next, q.prompt + run.tokens.take(i as int), (q.limit - i) as nat, q.eos),
        ),
        never_stops(emit) ==> out.skip(i as int) == greedy(
            next,
            q.prompt + run.tokens.take(i as int),
            (q.limit - i) as nat,
            q.eos,
        ),
    decreases run.tokens.len() - i,
{
    let ctx = q.prompt + run.tokens.take(i as int);
    let all = greedy(next, ctx, (q.limit - i) as nat, q.eos);
    rows_stay_right(fwd, argmax, emit, q, run, holds, next, i);
    if q.limit == 0 {
        assert(out.skip(0) =~= Seq::<i64>::empty());
        assert(all =~= Seq::<i64>::empty());
    } else if i == run.tokens.len() {
        assert(run.tokens.take(i as int) =~= run.tokens);
        assert(t == next(ctx));
        if q.eos.contains(t) {
            assert(out.skip(i as int) =~= Seq::<i64>::empty());
        } else {
            let rest = greedy(next, ctx.push(t), (q.limit - i - 1) as nat, q.eos);
            assert(out.skip(i as int) =~= seq![t]);
            assert(all == seq![t] + rest);
            if i + 1 == q.limit {
                assert(rest =~= Seq::<i64>::empty());
                assert(all =~= seq![t]);
            }
        }
    } else {
        run_is_greedy(fwd, argmax, emit, q, run, t, out, rows, holds, next, i + 1);
        assert(went_on(fwd, argmax, emit, q, run, i as int));
        let token = run.tokens[i as int];
        assert(token == next(ctx));
        assert(q.prompt + run.tokens.take(i + 1int) =~= ctx.push(token));
        let rest = greedy(next, ctx.push(token), (q.limit - i - 1) as nat, q.eos);
        assert(all == seq![token] + rest);
        assert(out[i as int] == token);
        assert(out.skip(i as int) =~= seq![token] + out.skip(i + 1int));
        assert(out.skip(i as int).is_prefix_of(all)) by {
            assert(all.subrange(0, out.skip(i as int).len() as int) =~= out.skip(i as int)) by {
                assert(rest.subrange(0, out.skip(i + 1int).len() as int) =~= out.skip(i + 1int));
                assert forall|k: int| 0 < k < out.skip(i as int).len() implies all[k] == out.skip(i as int)[k] by {
                    assert(rest.subrange(0, out.skip(i + 1int).len() as int)[k - 1] == out.skip(i + 1int)[k - 1]);
                }
            }
        }
    }
}

/// Every token runs once, and yet the text is the model's own: over a forward pass that works, what is generated is the
/// start of the greedy text, and all of it where the caller never stops; and the rows that are left hold what belongs
/// to the prompt and all that was put out, under which they are kept.
pub proof fn cached_text_is_greedy<R, H, F: Fn(&[i64], usize, R) -> (R, H), G: Fn(&H, &[i64]) -> i64, E: Fn(i64) -> bool>(
    fwd: F,
    argmax: G,
    emit: E,
    q: Request<R>,
    out: Seq<i64>,
    kept: Seq<i64>,
    rows: R,
    holds: spec_fn(R, Seq<i64>) -> bool,
    next: spec_fn(Seq<i64>) -> i64,
)
    requires
        is_generated(fwd, argmax, emit, q, out, kept, rows),
        works(fwd, argmax, holds, next, q.prompt.len() + q.limit),
        q.shared < q.prompt.len(),
        holds(q.start, q.prompt.take(q.shared as int)),
    ensures
        out.is_prefix_of(greedy(next, q.prompt, q.limit, q.eos)),
        never_stops(emit) ==> out == greedy(next, q.prompt, q.limit, q.eos),
        kept == q.prompt + out,
        holds(rows, kept),
{
    let (run, t) = choose|run: DecodeRun<R, H>, t: i64|
        #[trigger] is_run(fwd, argmax, emit, q, run) && #[trigger] ends_with(fwd, argmax, emit, q, run, t, out, rows) && kept
            == q.prompt + out;
    if q.limit > 0 {
        run_keeps_to_the_limit(fwd, argmax, emit, q, run, run.tokens.len());
    }
    run_is_greedy(fwd, argmax, emit, q, run, t, out, rows, holds, next, 0);
    assert(q.prompt + run.tokens.take(0) =~= q.prompt);
    assert(out.skip(0) =~= out);
    rows_stay_right(fwd, argmax, emit, q, run, holds, next, run.tokens.len());
    assert(run.tokens.take(run.tokens.len() as int) =~= run.tokens);
    if q.limit > 0 && !q.eos.contains(t) {
        let known = q.prompt + run.tokens;
        let ids = seq![t];
        let before = run.rows.last();
        let h = choose|h: H| #[trigger]
            may_run(fwd, seq![t], q.prompt.len() + run.tokens.len(), run.rows.last(), rows, h);
        assert(runs_within(fwd, holds, known, ids, before, rows, h, q.prompt.len() + q.limit));
        assert(is_right(argmax, holds, next, known, ids, before, rows, h));
        assert(known + ids =~= kept);
    }
}

/// A chat that goes on runs only what is new: a prompt that begins with the last prompt and its whole reply, and goes on,
/// reuses all their rows.
pub proof fn next_turn_runs_what_is_new<
    R,
    H,
    F: Fn(&[i64], usize, R) -> (R, H),
    G: Fn(&H, &[i64]) -> i64,
    E: Fn(i64) -> bool,
>(fwd: F, argmax: G, emit: E, q: Request<R>, out: Seq<i64>, kept: Seq<i64>, rows: R, more: Seq<i64>)
    requires
        is_generated(fwd, argmax, emit, q, out, kept, rows),
        more.len() > 0,
    ensures
        reusable(kept, q.prompt + out + more) == q.prompt.len() + out.len(),
{
    growing_chat_reuses_all_rows(kept, more);
}

proof fn run_keeps_to_the_limit<R, H, F: Fn(&[i64], usize, R) -> (R, H), G: Fn(&H, &[i64]) -> i64, E: Fn(i64) -> bool>(
    fwd: F,
    argmax: G,
    emit: E,
    q: Request<R>,
    run: DecodeRun<R, H>,
    i: nat,
)
    requires
        is_run(fwd, argmax, emit, q, run),
        i <= run.tokens.len(),
        0 < q.limit,
    ensures
        i < q.limit,
    decreases i,
{
    if i > 0 {
        run_keeps_to_the_limit(fwd, argmax, emit, q, run, (i - 1) as nat);
        assert(went_on(fwd, argmax, emit, q, run, i - 1));
    }
}

/// One row of a layer.
pub open spec fn row<T>(layer: Seq<T>, width: nat, p: int) -> Seq<T> {
    layer.subrange(p * width, p * width + width)
}

/// What a model puts into the rows of its layers: how wide a row is in each layer, and what belongs into the last row
/// of a sequence of tokens. It depends on those tokens alone.
pub struct RowModel<T> {
    pub width: spec_fn(int) -> nat,
    pub of: spec_fn(int, Seq<i64>) -> Seq<T>,
}

impl<T> RowModel<T> {
    /// A layer begins with the rows of some tokens.
    pub open spec fn layer_holds(self, l: int, layer: Seq<T>, ids: Seq<i64>) -> bool {
        &&& ids.len() * (self.width)(l) <= layer.len()
        &&& forall|p: int|
            0 <= p < ids.len() ==> #[trigger] row(layer, (self.width)(l), p) == (self.of)(l, ids.take(p + 1))
    }

    /// All layers begin with the rows of some tokens.
    pub open spec fn holds(self, layers: Seq<Vec<T>>, ids: Seq<i64>) -> bool {
        forall|l: int| 0 <= l < layers.len() ==> self.layer_holds(l, (#[trigger] layers[l])@, ids)
    }

    /// There is room for so many rows in each of `n_layer` layers.
    pub open spec fn has_room(self, layers: Seq<Vec<T>>, n_layer: nat, rows: nat) -> bool {
        &&& layers.len() == n_layer
        &&& forall|l: int| 0 <= l < layers.len() ==> (#[trigger] layers[l])@.len() == rows * (self.width)(l)
    }

    /// What was kept can be taken over for tokens that it was kept under.
    pub open spec fn keeps(self, layers: Seq<Vec<T>>, n_layer: nat, ids: Seq<i64>) -> bool {
        ids.len() > 0 ==> layers.len() == n_layer && self.holds(layers, ids)
    }

    /// Taking over the first rows of what was kept gives rows that hold what belongs to the shared tokens.
    proof fn taken_rows_hold(
        self,
        fresh: Seq<Vec<T>>,
        kept: Seq<Vec<T>>,
        start: Seq<Vec<T>>,
        ids: Seq<i64>,
        prompt: Seq<i64>,
        rows: nat,
        total: nat,
        n_layer: nat,
    )
        requires
            has_taken(fresh, kept, rows, total, n_layer, start),
            self.has_room(fresh, n_layer, total),
            self.keeps(kept, n_layer, ids),
            rows <= ids.len(),
            rows <= prompt.len(),
            rows < total,
            ids.take(rows as int) == prompt.take(rows as int),
        ensures
            self.holds(start, prompt.take(rows as int)),
            self.has_room(start, n_layer, total),
    {
        let shared = prompt.take(rows as int);
        assert forall|l: int| 0 <= l < start.len() implies self.layer_holds(l, (#[trigger] start[l])@, shared)
            && start[l]@.len() == total * (self.width)(l) by {
            let w = (self.width)(l);
            assert(fresh[l]@.len() == total * w);
            assert(0 * w == 0) by (nonlinear_arith);
            assert(rows * w <= total * w) by (nonlinear_arith)
                requires
                    rows < total,
            ;
            if rows > 0 {
                assert(self.layer_holds(l, kept[l]@, ids));
                assert((total * w) / total == w) by (nonlinear_arith)
                    requires
                        total > 0,
                ;
                assert(rows * w <= ids.len() * w) by (nonlinear_arith)
                    requires
                        rows <= ids.len(),
                ;
                let n = rows * w;
                assert(start[l]@ == kept[l]@.take(n as int) + fresh[l]@.skip(n as int));
                assert forall|p: int| 0 <= p < shared.len() implies #[trigger] row(start[l]@, w, p) == (self.of)(
                    l,
                    shared.take(p + 1),
                ) by {
                    assert(p * w + w <= rows * w) by (nonlinear_arith)
                        requires
                            p + 1 <= rows,
                    ;
                    assert(0 <= p * w) by (nonlinear_arith)
                        requires
                            0 <= p,
                    ;
                    assert(row(start[l]@, w, p) =~= row(kept[l]@, w, p));
                    assert(shared.take(p + 1) =~= ids.take(p + 1)) by {
                        assert forall|i: int| 0 <= i < p + 1 implies prompt[i] == ids[i] by {
                            assert(ids.take(rows as int)[i] == ids[i]);
                            assert(shared[i] == prompt[i]);
                        }
                    }
                }
            }
        }
    }
}

proof fn shared_tokens_agree(ids: Seq<i64>, prompt: Seq<i64>)
    ensures
        common_prefix(ids, prompt) <= ids.len(),
        common_prefix(ids, prompt) <= prompt.len(),
        ids.take(common_prefix(ids, prompt) as int) == prompt.take(common_prefix(ids, prompt) as int),
    decreases ids.len(),
{
    let n = common_prefix(ids, prompt);
    if ids.len() > 0 && prompt.len() > 0 && ids[0] == prompt[0] {
        shared_tokens_agree(ids.skip(1), prompt.skip(1));
        assert forall|i: int| 0 <= i < n implies ids[i] == prompt[i] by {
            if i > 0 {
                assert(ids.skip(1).take(n - 1)[i - 1] == prompt.skip(1).take(n - 1)[i - 1]);
            }
        }
    }
    assert(ids.take(n as int) =~= prompt.take(n as int));
}

proof fn reused_tokens_agree(ids: Seq<i64>, prompt: Seq<i64>)
    requires
        prompt.len() > 0,
    ensures
        reusable(ids, prompt) <= ids.len(),
        reusable(ids, prompt) < prompt.len(),
        ids.take(reusable(ids, prompt) as int) == prompt.take(reusable(ids, prompt) as int),
{
    shared_tokens_agree(ids, prompt);
    let (n, r) = (common_prefix(ids, prompt), reusable(ids, prompt));
    assert forall|i: int| 0 <= i < r implies ids[i] == prompt[i] by {
        assert(ids.take(n as int)[i] == prompt.take(n as int)[i]);
    }
    assert(ids.take(r as int) =~= prompt.take(r as int));
}

/// Plain rows have room for so many tokens, and hold what belongs to some.
pub open spec fn plain_holds<T>(k: RowModel<T>, v: RowModel<T>, n_layer: nat, total: nat) -> spec_fn(PlainRows<T>, Seq<i64>) -> bool {
    |r: PlainRows<T>, ids: Seq<i64>|
        {
            &&& k.has_room(r.k@, n_layer, total) && k.holds(r.k@, ids)
            &&& v.has_room(r.v@, n_layer, total) && v.holds(r.v@, ids)
        }
}

/// Rows of bytes have room for so many tokens, and hold what belongs to some, with their scales.
pub open spec fn byte_holds<S>(
    k: RowModel<i8>,
    v: RowModel<i8>,
    ks: RowModel<S>,
    vs: RowModel<S>,
    n_layer: nat,
    total: nat,
) -> spec_fn(ByteRows<S>, Seq<i64>) -> bool {
    |r: ByteRows<S>, ids: Seq<i64>|
        {
            &&& k.has_room(r.k@, n_layer, total) && k.holds(r.k@, ids)
            &&& v.has_room(r.v@, n_layer, total) && v.holds(r.v@, ids)
            &&& ks.has_room(r.ks@, n_layer, total) && ks.holds(r.ks@, ids)
            &&& vs.has_room(r.vs@, n_layer, total) && vs.holds(r.vs@, ids)
        }
}

/// Reuse changes nothing: whatever the cache was kept from, the text is what the model gives when every context is run
/// from the start, and the cache that is kept can be reused in the same way. A cache that holds nothing will do as well,
/// so a warm and a cold cache give the same text.
pub proof fn kept_rows_change_nothing<
    T,
    S,
    H,
    L: Fn(usize) -> PlainRows<T>,
    F: Fn(&[i64], usize, PlainRows<T>) -> (PlainRows<T>, H),
    G: Fn(&H, &[i64]) -> i64,
    E: Fn(i64) -> bool,
>(
    k: RowModel<T>,
    v: RowModel<T>,
    next: spec_fn(Seq<i64>) -> i64,
    alloc: L,
    fwd: F,
    argmax: G,
    emit: E,
    prompt: Seq<i64>,
    limit: nat,
    eos: Seq<i64>,
    n_layer: nat,
    before: PrefixKv<Vec<T>, S>,
    after: PrefixKv<Vec<T>, S>,
    out: Seq<i64>,
)
    requires
        0 < prompt.len(),
        prompt.len() + limit <= usize::MAX,
        is_prefix_generated(alloc, fwd, argmax, emit, prompt, limit, eos, n_layer, before, after, out),
        forall|n: usize, rows: PlainRows<T>| #[trigger]
            call_ensures(alloc, (n,), rows) ==> k.has_room(rows.k@, n_layer, n as nat) && v.has_room(rows.v@, n_layer, n as nat),
        works(fwd, argmax, plain_holds(k, v, n_layer, prompt.len() + limit), next, prompt.len() + limit),
        k.keeps(before.kc@, n_layer, before.ids@),
        v.keeps(before.vc@, n_layer, before.ids@),
    ensures
        out.is_prefix_of(greedy(next, prompt, limit, eos)),
        never_stops(emit) ==> out == greedy(next, prompt, limit, eos),
        after.ids@ == prompt + out,
        k.keeps(after.kc@, n_layer, after.ids@),
        v.keeps(after.vc@, n_layer, after.ids@),
{
    let shared = reusable(before.ids@, prompt);
    let total = prompt.len() + limit;
    let (fresh, start, rows) = choose|fresh: PlainRows<T>, start: PlainRows<T>, rows: PlainRows<T>|
        {
            &&& #[trigger] call_ensures(alloc, (total as usize,), fresh)
            &&& has_taken(fresh.k@, before.kc@, shared, total, n_layer, start.k@)
            &&& has_taken(fresh.v@, before.vc@, shared, total, n_layer, start.v@)
            &&& #[trigger] is_generated(
                fwd,
                argmax,
                emit,
                Request { prompt, shared, start, limit, eos },
                out,
                after.ids@,
                rows,
            )
            &&& after.kc == rows.k
            &&& after.vc == rows.v
        };
    reused_tokens_agree(before.ids@, prompt);
    k.taken_rows_hold(fresh.k@, before.kc@, start.k@, before.ids@, prompt, shared, total, n_layer);
    v.taken_rows_hold(fresh.v@, before.vc@, start.v@, before.ids@, prompt, shared, total, n_layer);
    let holds = plain_holds(k, v, n_layer, total);
    assert(holds(start, prompt.take(shared as int)));
    cached_text_is_greedy(
        fwd,
        argmax,
        emit,
        Request { prompt, shared, start, limit, eos },
        out,
        after.ids@,
        rows,
        holds,
        next,
    );
    assert(holds(rows, after.ids@));
}

/// Reuse of bytes changes nothing either: the text is what the model gives over a cache of bytes that is filled from the
/// start, whatever the cache was kept from.
pub proof fn kept_bytes_change_nothing<
    A,
    S,
    H,
    L: Fn(usize) -> ByteRows<S>,
    F: Fn(&[i64], usize, ByteRows<S>) -> (ByteRows<S>, H),
    G: Fn(&H, &[i64]) -> i64,
    E: Fn(i64) -> bool,
>(
    k: RowModel<i8>,
    v: RowModel<i8>,
    ks: RowModel<S>,
    vs: RowModel<S>,
    next: spec_fn(Seq<i64>) -> i64,
    alloc: L,
    fwd: F,
    argmax: G,
    emit: E,
    prompt: Seq<i64>,
    limit: nat,
    eos: Seq<i64>,
    n_layer: nat,
    before: PrefixKv<A, S>,
    after: PrefixKv<A, S>,
    out: Seq<i64>,
)
    requires
        0 < prompt.len(),
        prompt.len() + limit <= usize::MAX,
        is_prefix_generated_q(alloc, fwd, argmax, emit, prompt, limit, eos, n_layer, before, after, out),
        forall|n: usize, rows: ByteRows<S>| #[trigger]
            call_ensures(alloc, (n,), rows) ==> {
                &&& k.has_room(rows.k@, n_layer, n as nat) && v.has_room(rows.v@, n_layer, n as nat)
                &&& ks.has_room(rows.ks@, n_layer, n as nat) && vs.has_room(rows.vs@, n_layer, n as nat)
            },
        works(fwd, argmax, byte_holds(k, v, ks, vs, n_layer, prompt.len() + limit), next, prompt.len() + limit),
        k.keeps(before.kc_q@, n_layer, before.ids@),
        v.keeps(before.vc_q@, n_layer, before.ids@),
        ks.keeps(before.ks_q@, n_layer, before.ids@),
        vs.keeps(before.vs_q@, n_layer, before.ids@),
    ensures
        out.is_prefix_of(greedy(next, prompt, limit, eos)),
        never_stops(emit) ==> out == greedy(next, prompt, limit, eos),
        after.ids@ == prompt + out,
        k.keeps(after.kc_q@, n_layer, after.ids@),
        v.keeps(after.vc_q@, n_layer, after.ids@),
        ks.keeps(after.ks_q@, n_layer, after.ids@),
        vs.keeps(after.vs_q@, n_layer, after.ids@),
{
    let shared = reusable(before.ids@, prompt);
    let total = prompt.len() + limit;
    let (fresh, start, rows) = choose|fresh: ByteRows<S>, start: ByteRows<S>, rows: ByteRows<S>|
        {
            &&& #[trigger] call_ensures(alloc, (total as usize,), fresh)
            &&& has_taken(fresh.k@, before.kc_q@, shared, total, n_layer, start.k@)
            &&& has_taken(fresh.v@, before.vc_q@, shared, total, n_layer, start.v@)
            &&& has_taken(fresh.ks@, before.ks_q@, shared, total, n_layer, start.ks@)
            &&& has_taken(fresh.vs@, before.vs_q@, shared, total, n_layer, start.vs@)
            &&& #[trigger] is_generated(
                fwd,
                argmax,
                emit,
                Request { prompt, shared, start, limit, eos },
                out,
                after.ids@,
                rows,
            )
            &&& after.kc_q == rows.k
            &&& after.vc_q == rows.v
            &&& after.ks_q == rows.ks
            &&& after.vs_q == rows.vs
        };
    reused_tokens_agree(before.ids@, prompt);
    k.taken_rows_hold(fresh.k@, before.kc_q@, start.k@, before.ids@, prompt, shared, total, n_layer);
    v.taken_rows_hold(fresh.v@, before.vc_q@, start.v@, before.ids@, prompt, shared, total, n_layer);
    ks.taken_rows_hold(fresh.ks@, before.ks_q@, start.ks@, before.ids@, prompt, shared, total, n_layer);
    vs.taken_rows_hold(fresh.vs@, before.vs_q@, start.vs@, before.ids@, prompt, shared, total, n_layer);
    let holds = byte_holds(k, v, ks, vs, n_layer, total);
    assert(holds(start, prompt.take(shared as int)));
    cached_text_is_greedy(
        fwd,
        argmax,
        emit,
        Request { prompt, shared, start, limit, eos },
        out,
        after.ids@,
        rows,
        holds,
        next,
    );
    assert(holds(rows, after.ids@));
}

/// The calls of a run: the rows behind the prompt and behind each token that was put out, and what each call left. The
/// prompt runs once, behind the rows that it shares; each token that was put out runs once, alone, at its own position,
/// over the rows that the call before left; and behind each call a token is chosen from what it left and from the prompt
/// with all that was put out before. Behind the last call nothing is chosen where the caller stopped or there are enough
/// tokens, and else a token that ends the text.
pub open spec fn are_calls<R, H, F: Fn(&[i64], usize, R) -> (R, H), G: Fn(&H, &[i64]) -> i64, E: Fn(i64) -> bool>(
    fwd: F,
    argmax: G,
    emit: E,
    q: Request<R>,
    out: Seq<i64>,
    rows: Seq<R>,
    hidden: Seq<H>,
) -> bool {
    &&& rows.len() == hidden.len() == out.len() + 1
    &&& may_run(fwd, q.prompt.skip(q.shared as int), q.shared, q.start, rows[0], hidden[0])
    &&& forall|k: int|
        1 <= k < rows.len() ==> may_run(
            fwd,
            seq![out[k - 1]],
            (q.prompt.len() + k - 1) as nat,
            rows[k - 1],
            #[trigger] rows[k],
            hidden[k],
        )
    &&& forall|k: int|
        0 <= k < out.len() ==> may_choose(argmax, #[trigger] hidden[k], q.prompt + out.take(k), out[k])
    &&& out.len() == q.limit || (out.len() > 0 && call_ensures(emit, (out.last(),), false)) || exists|t: i64|
        #[trigger] q.eos.contains(t) && may_choose(argmax, hidden.last(), q.prompt + out, t)
}

/// What each forward call and each choice gets is fixed by the request and by what was put out before.
pub proof fn calls_are_fixed<R, H, F: Fn(&[i64], usize, R) -> (R, H), G: Fn(&H, &[i64]) -> i64, E: Fn(i64) -> bool>(
    fwd: F,
    argmax: G,
    emit: E,
    q: Request<R>,
    out: Seq<i64>,
    kept: Seq<i64>,
    left: R,
)
    requires
        is_generated(fwd, argmax, emit, q, out, kept, left),
    ensures
        exists|rows: Seq<R>, hidden: Seq<H>| #[trigger]
            are_calls(fwd, argmax, emit, q, out, rows, hidden) && rows.last() == left && kept == q.prompt + out,
{
    let (run, t) = choose|run: DecodeRun<R, H>, t: i64|
        #[trigger] is_run(fwd, argmax, emit, q, run) && #[trigger] ends_with(fwd, argmax, emit, q, run, t, out, left) && kept
            == q.prompt + out;
    let n = run.tokens.len() as int;
    let h = choose|h: H| #[trigger]
        may_run(fwd, seq![t], q.prompt.len() + run.tokens.len(), run.rows.last(), left, h);
    let (rows, hidden) = if out.len() == n { (run.rows, run.hidden) } else { (run.rows.push(left), run.hidden.push(h)) };
    assert(out.take(n) =~= run.tokens);
    assert forall|k: int| 1 <= k < rows.len() implies may_run(
        fwd,
        seq![out[k - 1]],
        (q.prompt.len() + k - 1) as nat,
        rows[k - 1],
        #[trigger] rows[k],
        hidden[k],
    ) by {
        if k <= n {
            assert(went_on(fwd, argmax, emit, q, run, k - 1));
            assert(out[k - 1] == run.tokens[k - 1]);
        }
    }
    assert forall|k: int| 0 <= k < out.len() implies may_choose(
        argmax,
        #[trigger] hidden[k],
        q.prompt + out.take(k),
        out[k],
    ) by {
        assert(out.take(k) =~= run.tokens.take(k));
        if k < n {
            assert(went_on(fwd, argmax, emit, q, run, k));
            assert(out[k] == run.tokens[k]);
        } else {
            assert(run.tokens.take(n) =~= run.tokens);
        }
    }
    if out.len() == n && q.limit > 0 {
        assert(out =~= run.tokens);
        assert(q.eos.contains(t));
    }
    assert(are_calls(fwd, argmax, emit, q, out, rows, hidden));
}

/// The first rows are those that were kept, and the others those that were made.
pub open spec fn begins_with_kept<T>(
    fresh: Seq<Vec<T>>,
    kept: Seq<Vec<T>>,
    start: Seq<Vec<T>>,
    rows: nat,
    total: nat,
    n_layer: nat,
) -> bool {
    &&& start.len() == fresh.len()
    &&& forall|l: int|
        0 <= l < start.len() && l < n_layer ==> ({
            let n = (rows * (fresh[l]@.len() / total)) as int;
            &&& (#[trigger] start[l])@.skip(n) == fresh[l]@.skip(n)
            &&& start[l]@.take(n) == kept[l]@.take(n)
        })
}

proof fn taken_rows_begin<T>(
    fresh: Seq<Vec<T>>,
    kept: Seq<Vec<T>>,
    start: Seq<Vec<T>>,
    rows: nat,
    total: nat,
    n_layer: nat,
)
    requires
        0 < total,
        rows <= total,
        has_taken(fresh, kept, rows, total, n_layer, start),
        rows > 0 ==> can_take(fresh, kept, rows, total, n_layer),
    ensures
        begins_with_kept(fresh, kept, start, rows, total, n_layer),
{
    assert forall|l: int| 0 <= l < start.len() && l < n_layer implies ({
        let n = (rows * (fresh[l]@.len() / total)) as int;
        &&& (#[trigger] start[l])@.skip(n) == fresh[l]@.skip(n)
        &&& start[l]@.take(n) == kept[l]@.take(n)
    }) by {
        let w = fresh[l]@.len() / total;
        let n = (rows * w) as int;
        assert(0 <= rows * w <= fresh[l]@.len()) by (nonlinear_arith)
            requires
                rows <= total,
                w == fresh[l]@.len() / total,
                0 < total,
        ;
        if rows == 0 {
            assert(0 * w == 0) by (nonlinear_arith);
            assert(start[l]@.take(0) =~= kept[l]@.take(0));
        } else {
            assert(start[l]@ == with_prefix(fresh[l]@, kept[l]@, rows, total));
            assert(start[l]@.skip(n) =~= fresh[l]@.skip(n));
            assert(start[l]@.take(n) =~= kept[l]@.take(n));
        }
    }
}

/// The calls of `prefix_generate`: the one that makes the rows, and those of the run over them.
pub open spec fn are_prefix_calls<
    T,
    S,
    H,
    L: Fn(usize) -> PlainRows<T>,
    F: Fn(&[i64], usize, PlainRows<T>) -> (PlainRows<T>, H),
    G: Fn(&H, &[i64]) -> i64,
    E: Fn(i64) -> bool,
>(
    alloc: L,
    fwd: F,
    argmax: G,
    emit: E,
    q: Request<PlainRows<T>>,
    n_layer: nat,
    before: PrefixKv<Vec<T>, S>,
    after: PrefixKv<Vec<T>, S>,
    out: Seq<i64>,
    fresh: PlainRows<T>,
    rows: Seq<PlainRows<T>>,
    hidden: Seq<H>,
) -> bool {
    let total = q.prompt.len() + q.limit;
    &&& call_ensures(alloc, (total as usize,), fresh)
    &&& begins_with_kept(fresh.k@, before.kc@, q.start.k@, q.shared, total, n_layer)
    &&& begins_with_kept(fresh.v@, before.vc@, q.start.v@, q.shared, total, n_layer)
    &&& are_calls(fwd, argmax, emit, q, out, rows, hidden)
    &&& after.kc == rows.last().k
    &&& after.vc == rows.last().v
    &&& after.ids@ == q.prompt + out
}

/// What the calls of `prefix_generate` get: rows are made for the prompt and the text; those that the prompt shares with
/// the cache are taken from it; and the forward pass and the choice get what the run gives them.
pub proof fn prefix_calls_are_fixed<
    T,
    S,
    H,
    L: Fn(usize) -> PlainRows<T>,
    F: Fn(&[i64], usize, PlainRows<T>) -> (PlainRows<T>, H),
    G: Fn(&H, &[i64]) -> i64,
    E: Fn(i64) -> bool,
>(
    alloc: L,
    fwd: F,
    argmax: G,
    emit: E,
    prompt: Seq<i64>,
    limit: nat,
    eos: Seq<i64>,
    n_layer: nat,
    before: PrefixKv<Vec<T>, S>,
    after: PrefixKv<Vec<T>, S>,
    out: Seq<i64>,
)
    requires
        0 < prompt.len(),
        prompt.len() + limit <= usize::MAX,
        is_prefix_generated(alloc, fwd, argmax, emit, prompt, limit, eos, n_layer, before, after, out),
        forall|fresh: PlainRows<T>| #[trigger]
            call_ensures(alloc, ((prompt.len() + limit) as usize,), fresh) && reusable(before.ids@, prompt) > 0 ==> {
                let (rows, total) = (reusable(before.ids@, prompt), prompt.len() + limit);
                &&& can_take(fresh.k@, before.kc@, rows, total, n_layer)
                &&& can_take(fresh.v@, before.vc@, rows, total, n_layer)
            },
    ensures
        exists|fresh: PlainRows<T>, start: PlainRows<T>, rows: Seq<PlainRows<T>>, hidden: Seq<H>| #[trigger]
            are_prefix_calls(
                alloc,
                fwd,
                argmax,
                emit,
                Request { prompt, shared: reusable(before.ids@, prompt), start, limit, eos },
                n_layer,
                before,
                after,
                out,
                fresh,
                rows,
                hidden,
            ),
{
    let shared = reusable(before.ids@, prompt);
    let total = prompt.len() + limit;
    let (fresh, start, left) = choose|fresh: PlainRows<T>, start: PlainRows<T>, left: PlainRows<T>|
        {
            &&& #[trigger] call_ensures(alloc, (total as usize,), fresh)
            &&& has_taken(fresh.k@, before.kc@, shared, total, n_layer, start.k@)
            &&& has_taken(fresh.v@, before.vc@, shared, total, n_layer, start.v@)
            &&& #[trigger] is_generated(
                fwd,
                argmax,
                emit,
                Request { prompt, shared, start, limit, eos },
                out,
                after.ids@,
                left,
            )
            &&& after.kc == left.k
            &&& after.vc == left.v
        };
    let q = Request { prompt, shared, start, limit, eos };
    reused_tokens_agree(before.ids@, prompt);
    taken_rows_begin(fresh.k@, before.kc@, start.k@, shared, total, n_layer);
    taken_rows_begin(fresh.v@, before.vc@, start.v@, shared, total, n_layer);
    calls_are_fixed(fwd, argmax, emit, q, out, after.ids@, left);
    let (rows, hidden) = choose|rows: Seq<PlainRows<T>>, hidden: Seq<H>| #[trigger]
        are_calls(fwd, argmax, emit, q, out, rows, hidden) && rows.last() == left && after.ids@ == q.prompt + out;
    assert(are_prefix_calls(alloc, fwd, argmax, emit, q, n_layer, before, after, out, fresh, rows, hidden));
}

/// The calls of `prefix_generate_q`: the one that makes the rows, and those of the run over them.
pub open spec fn are_prefix_calls_q<
    A,
    S,
    H,
    L: Fn(usize) -> ByteRows<S>,
    F: Fn(&[i64], usize, ByteRows<S>) -> (ByteRows<S>, H),
    G: Fn(&H, &[i64]) -> i64,
    E: Fn(i64) -> bool,
>(
    alloc: L,
    fwd: F,
    argmax: G,
    emit: E,
    q: Request<ByteRows<S>>,
    n_layer: nat,
    before: PrefixKv<A, S>,
    after: PrefixKv<A, S>,
    out: Seq<i64>,
    fresh: ByteRows<S>,
    rows: Seq<ByteRows<S>>,
    hidden: Seq<H>,
) -> bool {
    let total = q.prompt.len() + q.limit;
    &&& call_ensures(alloc, (total as usize,), fresh)
    &&& begins_with_kept(fresh.k@, before.kc_q@, q.start.k@, q.shared, total, n_layer)
    &&& begins_with_kept(fresh.v@, before.vc_q@, q.start.v@, q.shared, total, n_layer)
    &&& begins_with_kept(fresh.ks@, before.ks_q@, q.start.ks@, q.shared, total, n_layer)
    &&& begins_with_kept(fresh.vs@, before.vs_q@, q.start.vs@, q.shared, total, n_layer)
    &&& are_calls(fwd, argmax, emit, q, out, rows, hidden)
    &&& after.kc_q == rows.last().k
    &&& after.vc_q == rows.last().v
    &&& after.ks_q == rows.last().ks
    &&& after.vs_q == rows.last().vs
    &&& after.ids@ == q.prompt + out
}

/// What the calls of `prefix_generate_q` get: rows are made for the prompt and the text; those that the prompt shares with
/// the cache are taken from it; and the forward pass and the choice get what the run gives them.
pub proof fn prefix_calls_q_are_fixed<
    A,
    S,
    H,
    L: Fn(usize) -> ByteRows<S>,
    F: Fn(&[i64], usize, ByteRows<S>) -> (ByteRows<S>, H),
    G: Fn(&H, &[i64]) -> i64,
    E: Fn(i64) -> bool,
>(
    alloc: L,
    fwd: F,
    argmax: G,
    emit: E,
    prompt: Seq<i64>,
    limit: nat,
    eos: Seq<i64>,
    n_layer: nat,
    before: PrefixKv<A, S>,
    after: PrefixKv<A, S>,
    out: Seq<i64>,
)
    requires
        0 < prompt.len(),
        prompt.len() + limit <= usize::MAX,
        is_prefix_generated_q(alloc, fwd, argmax, emit, prompt, limit, eos, n_layer, before, after, out),
        forall|fresh: ByteRows<S>| #[trigger]
            call_ensures(alloc, ((prompt.len() + limit) as usize,), fresh) && reusable(before.ids@, prompt) > 0 ==> {
                let (rows, total) = (reusable(before.ids@, prompt), prompt.len() + limit);
                &&& can_take(fresh.k@, before.kc_q@, rows, total, n_layer)
                &&& can_take(fresh.v@, before.vc_q@, rows, total, n_layer)
                &&& can_take(fresh.ks@, before.ks_q@, rows, total, n_layer)
                &&& can_take(fresh.vs@, before.vs_q@, rows, total, n_layer)
            },
    ensures
        exists|fresh: ByteRows<S>, start: ByteRows<S>, rows: Seq<ByteRows<S>>, hidden: Seq<H>| #[trigger]
            are_prefix_calls_q(
                alloc,
                fwd,
                argmax,
                emit,
                Request { prompt, shared: reusable(before.ids@, prompt), start, limit, eos },
                n_layer,
                before,
                after,
                out,
                fresh,
                rows,
                hidden,
            ),
{
    let shared = reusable(before.ids@, prompt);
    let total = prompt.len() + limit;
    let (fresh, start, left) = choose|fresh: ByteRows<S>, start: ByteRows<S>, left: ByteRows<S>|
        {
            &&& #[trigger] call_ensures(alloc, (total as usize,), fresh)
            &&& has_taken(fresh.k@, before.kc_q@, shared, total, n_layer, start.k@)
            &&& has_taken(fresh.v@, before.vc_q@, shared, total, n_layer, start.v@)
            &&& has_taken(fresh.ks@, before.ks_q@, shared, total, n_layer, start.ks@)
            &&& has_taken(fresh.vs@, before.vs_q@, shared, total, n_layer, start.vs@)
            &&& #[trigger] is_generated(
                fwd,
                argmax,
                emit,
                Request { prompt, shared, start, limit, eos },
                out,
                after.ids@,
                left,
            )
            &&& after.kc_q == left.k
            &&& after.vc_q == left.v
            &&& after.ks_q == left.ks
            &&& after.vs_q == left.vs
        };
    let q = Request { prompt, shared, start, limit, eos };
    reused_tokens_agree(before.ids@, prompt);
    taken_rows_begin(fresh.k@, before.kc_q@, start.k@, shared, total, n_layer);
    taken_rows_begin(fresh.v@, before.vc_q@, start.v@, shared, total, n_layer);
    taken_rows_begin(fresh.ks@, before.ks_q@, start.ks@, shared, total, n_layer);
    taken_rows_begin(fresh.vs@, before.vs_q@, start.vs@, shared, total, n_layer);
    calls_are_fixed(fwd, argmax, emit, q, out, after.ids@, left);
    let (rows, hidden) = choose|rows: Seq<ByteRows<S>>, hidden: Seq<H>| #[trigger]
        are_calls(fwd, argmax, emit, q, out, rows, hidden) && rows.last() == left && after.ids@ == q.prompt + out;
    assert(are_prefix_calls_q(alloc, fwd, argmax, emit, q, n_layer, before, after, out, fresh, rows, hidden));
}

} // verus!
