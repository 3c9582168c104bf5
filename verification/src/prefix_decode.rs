//! Greedy decoding over a cache that is kept from one reply to the next. A caller brings the forward pass, which runs
//! tokens over the rows of a cache, and the choice of a token from what it leaves.
use vstd::prelude::*;
use crate::model::{copy_prefix, reusable, with_prefix, Decoding, PrefixKv, Step};

verus! {

/// The forward pass may turn the rows into others and leave `h`, when it runs tokens from a position on.
pub open spec fn may_run<R, H, F: Fn(&[i64], usize, R) -> (R, H)>(
    fwd: F,
    ids: Seq<i64>,
    cur: nat,
    before: R,
    after: R,
    h: H,
) -> bool {
    exists|s: &[i64]| s@ == ids && #[trigger] call_ensures(fwd, (s, cur as usize, before), (after, h))
}

/// A token may be chosen from what the forward pass left behind a context.
pub open spec fn may_choose<H, G: Fn(&H, &[i64]) -> i64>(argmax: G, h: H, ctx: Seq<i64>, t: i64) -> bool {
    exists|s: &[i64]| s@ == ctx && #[trigger] call_ensures(argmax, (&h, s), t)
}

/// What was done before the next token is chosen: the tokens that were put out and have run, and what the forward pass
/// left after the prompt and after each of them.
pub struct DecodeRun<R, H> {
    pub tokens: Seq<i64>,
    pub rows: Seq<R>,
    pub hidden: Seq<H>,
}

/// A request for a text: the prompt, how many of its tokens are in the rows already, those rows, how many tokens are
/// wanted, and the tokens that end a text.
pub struct Request<R> {
    pub prompt: Seq<i64>,
    pub shared: nat,
    pub start: R,
    pub limit: nat,
    pub eos: Seq<i64>,
}

/// The token with the number `i` was chosen, put out, and run at its position.
pub open spec fn went_on<R, H, F: Fn(&[i64], usize, R) -> (R, H), G: Fn(&H, &[i64]) -> i64, E: Fn(i64) -> bool>(
    fwd: F,
    argmax: G,
    emit: E,
    q: Request<R>,
    run: DecodeRun<R, H>,
    i: int,
) -> bool {
    let t = run.tokens[i];
    &&& may_choose(argmax, run.hidden[i], q.prompt + run.tokens.take(i), t)
    &&& !q.eos.contains(t)
    &&& i + 1 != q.limit
    &&& call_ensures(emit, (t,), true)
    &&& may_run(fwd, seq![t], (q.prompt.len() + i) as nat, run.rows[i], run.rows[i + 1], run.hidden[i + 1])
}

/// The prompt ran behind the rows that were there, and then each token behind the last.
pub open spec fn is_run<R, H, F: Fn(&[i64], usize, R) -> (R, H), G: Fn(&H, &[i64]) -> i64, E: Fn(i64) -> bool>(
    fwd: F,
    argmax: G,
    emit: E,
    q: Request<R>,
    run: DecodeRun<R, H>,
) -> bool {
    &&& run.rows.len() == run.tokens.len() + 1
    &&& run.hidden.len() == run.tokens.len() + 1
    &&& may_run(fwd, q.prompt.skip(q.shared as int), q.shared, q.start, run.rows[0], run.hidden[0])
    &&& forall|i: int| 0 <= i < run.tokens.len() ==> #[trigger] went_on(fwd, argmax, emit, q, run, i)
}

/// The run ends: behind the prompt where no token is wanted; else with a token, one that ends a text, which is left
/// out, one after which the caller stops, or the last one that is wanted. A token that is put out runs, the last one too,
/// and leaves the rows.
pub open spec fn ends_with<R, H, F: Fn(&[i64], usize, R) -> (R, H), G: Fn(&H, &[i64]) -> i64, E: Fn(i64) -> bool>(
    fwd: F,
    argmax: G,
    emit: E,
    q: Request<R>,
    run: DecodeRun<R, H>,
    t: i64,
    out: Seq<i64>,
    rows: R,
) -> bool {
    if q.limit == 0 {
        run.tokens.len() == 0 && out == run.tokens && rows == run.rows.last()
    } else {
        &&& may_choose(argmax, run.hidden.last(), q.prompt + run.tokens, t)
        &&& if q.eos.contains(t) {
            out == run.tokens && rows == run.rows.last()
        } else {
            &&& out == run.tokens.push(t)
            &&& call_ensures(emit, (t,), false) || (run.tokens.len() + 1 == q.limit && call_ensures(emit, (t,), true))
            &&& exists|h: H| #[trigger]
                may_run(fwd, seq![t], q.prompt.len() + run.tokens.len(), run.rows.last(), rows, h)
        }
    }
}

/// A text was generated: what was put out, and the rows that are left, which are kept under the prompt and all that was
/// put out.
pub open spec fn is_generated<R, H, F: Fn(&[i64], usize, R) -> (R, H), G: Fn(&H, &[i64]) -> i64, E: Fn(i64) -> bool>(
    fwd: F,
    argmax: G,
    emit: E,
    q: Request<R>,
    out: Seq<i64>,
    kept: Seq<i64>,
    rows: R,
) -> bool {
    exists|run: DecodeRun<R, H>, t: i64|
        #[trigger] is_run(fwd, argmax, emit, q, run) && #[trigger] ends_with(fwd, argmax, emit, q, run, t, out, rows) && kept
            == q.prompt + out
}

/// The closures can be called.
pub open spec fn can_decode<R, H, F: Fn(&[i64], usize, R) -> (R, H), G: Fn(&H, &[i64]) -> i64, E: Fn(i64) -> bool>(
    fwd: F,
    argmax: G,
    emit: E,
) -> bool {
    &&& forall|s: &[i64], cur: usize, rows: R| #[trigger] call_requires(fwd, (s, cur, rows))
    &&& forall|h: &H, s: &[i64]| #[trigger] call_requires(argmax, (h, s))
    &&& forall|t: i64| #[trigger] call_requires(emit, (t,))
}

fn behind(s: &[i64], from: usize) -> (v: Vec<i64>)
    requires
        from <= s@.len(),
    ensures
        v@ == s@.skip(from as int),
{
    let mut v: Vec<i64> = Vec::new();
    let mut i: usize = from;
    while i < s.len()
        invariant
            from <= i <= s@.len(),
            v@ == s@.subrange(from as int, i as int),
        decreases s@.len() - i,
    {
        v.push(s[i]);
        assert(v@ =~= s@.subrange(from as int, i + 1));
        i += 1;
    }
    assert(v@ =~= s@.skip(from as int));
    v
}

/// Decodes over rows: the prompt runs behind those that it shares with them, and each token behind the last. Gives what
/// was put out, the prompt with all that was put out, and the rows of these. Where no token is wanted, the prompt runs and
/// nothing is chosen.
pub fn decode_over<R, H, F: Fn(&[i64], usize, R) -> (R, H), G: Fn(&H, &[i64]) -> i64, E: Fn(i64) -> bool>(
    prompt: &[i64],
    max_tokens: usize,
    eos: &[i64],
    emit: &E,
    shared: usize,
    start: R,
    fwd: &F,
    argmax: &G,
) -> (r: (Vec<i64>, Vec<i64>, R))
    requires
        prompt@.len() + max_tokens <= usize::MAX,
        shared <= prompt@.len(),
        can_decode(*fwd, *argmax, *emit),
    ensures
        is_generated(
            *fwd,
            *argmax,
            *emit,
            Request { prompt: prompt@, shared: shared as nat, start, limit: max_tokens as nat, eos: eos@ },
            r.0@,
            r.1@,
            r.2,
        ),
{
    let ghost q = Request { prompt: prompt@, shared: shared as nat, start, limit: max_tokens as nat, eos: eos@ };
    let suffix = behind(prompt, shared);
    let tail: &[i64] = suffix.as_slice();
    let (mut rows, mut h) = fwd(tail, shared, start);
    let mut d = Decoding::start(prompt, max_tokens);
    let mut done = max_tokens == 0;
    let ghost mut run = DecodeRun { tokens: Seq::<i64>::empty(), rows: seq![rows], hidden: seq![h] };
    let ghost mut last: i64 = 0;
    assert(may_run(*fwd, prompt@.skip(shared as int), shared as nat, start, rows, h)) by {
        assert(call_ensures(*fwd, (tail, shared as nat as usize, start), (rows, h)));
    }
    while !done
        invariant
            prompt@.len() + max_tokens <= usize::MAX,
            can_decode(*fwd, *argmax, *emit),
            q == (Request { prompt: prompt@, shared: shared as nat, start, limit: max_tokens as nat, eos: eos@ }),
            is_run(*fwd, *argmax, *emit, q, run),
            run.tokens.len() < max_tokens || (max_tokens == 0 && run.tokens.len() == 0),
            max_tokens == 0 ==> done,
            d.follows(),
            d.all_ran(),
            d.limit() == max_tokens,
            d.prompt() == prompt@,
            d.rows() == prompt@ + d.output(),
            !done ==> d.output() == run.tokens && run.rows.last() == rows && run.hidden.last() == h,
            done ==> ends_with(*fwd, *argmax, *emit, q, run, last, d.output(), rows),
        decreases max_tokens - run.tokens.len(), if done { 0int } else { 1 },
    {
        let t: i64 = argmax(&h, d.context_ids());
        assert(may_choose(*argmax, run.hidden.last(), q.prompt + run.tokens, t));
        proof {
            last = t;
        }
        if d.offer(t, eos) {
            let go_on = emit(t);
            match d.resume(go_on) {
                Step::Run(token, pos) => {
                    let one: Vec<i64> = vec![token];
                    let ghost before = rows;
                    let piece: &[i64] = one.as_slice();
                    let (after, left) = fwd(piece, pos, rows);
                    rows = after;
                    h = left;
                    proof {
                        let was = run;
                        assert(piece@ =~= seq![t]);
                        assert(may_run(*fwd, seq![t], (prompt@.len() + was.tokens.len()) as nat, before, rows, h));
                        run = DecodeRun {
                            tokens: was.tokens.push(t),
                            rows: was.rows.push(rows),
                            hidden: was.hidden.push(h),
                        };
                        assert forall|i: int| 0 <= i < run.tokens.len() implies #[trigger] went_on(
                            *fwd,
                            *argmax,
                            *emit,
                            q,
                            run,
                            i,
                        ) by {
                            assert(run.tokens.take(i) =~= was.tokens.take(i));
                            if i < was.tokens.len() {
                                assert(went_on(*fwd, *argmax, *emit, q, was, i));
                            } else {
                                assert(was.tokens.take(i) =~= was.tokens);
                            }
                        }
                        assert(d.rows() =~= prompt@ + d.output());
                    }
                },
                Step::Last(token, pos) => {
                    let one: Vec<i64> = vec![token];
                    let ghost before = rows;
                    let piece: &[i64] = one.as_slice();
                    let (after, left) = fwd(piece, pos, rows);
                    rows = after;
                    done = true;
                    proof {
                        assert(piece@ =~= seq![t]);
                        assert(may_run(*fwd, seq![t], prompt@.len() + run.tokens.len(), before, rows, left));
                        assert(d.rows() =~= prompt@ + d.output());
                    }
                },
            }
        } else {
            done = true;
        }
    }
    let (out, kept) = d.finish();
    (out, kept, rows)
}

/// The keys and values of every layer, row behind row.
pub struct PlainRows<T> {
    pub k: Vec<Vec<T>>,
    pub v: Vec<Vec<T>>,
}

/// The keys and values of every layer as bytes, row behind row, with a scale for each head of a row.
pub struct ByteRows<S> {
    pub k: Vec<Vec<i8>>,
    pub v: Vec<Vec<i8>>,
    pub ks: Vec<Vec<S>>,
    pub vs: Vec<Vec<S>>,
}

/// The first rows of `n_layer` layers can be taken over from kept ones.
pub open spec fn can_take<T>(fresh: Seq<Vec<T>>, kept: Seq<Vec<T>>, rows: nat, total: nat, n_layer: nat) -> bool {
    &&& n_layer <= fresh.len()
    &&& n_layer <= kept.len()
    &&& forall|l: int|
        0 <= l < n_layer ==> rows * ((#[trigger] fresh[l])@.len() / total) <= kept[l]@.len()
}

/// The first rows of `n_layer` layers were taken over from kept ones.
pub open spec fn has_taken<T>(
    fresh: Seq<Vec<T>>,
    kept: Seq<Vec<T>>,
    rows: nat,
    total: nat,
    n_layer: nat,
    start: Seq<Vec<T>>,
) -> bool {
    if rows == 0 {
        start == fresh
    } else {
        &&& start.len() == fresh.len()
        &&& forall|l: int|
            0 <= l < fresh.len() ==> (#[trigger] start[l])@ == if l < n_layer {
                with_prefix(fresh[l]@, kept[l]@, rows, total)
            } else {
                fresh[l]@
            }
    }
}

fn take_rows<T: Copy>(layers: &mut Vec<Vec<T>>, kept: &Vec<Vec<T>>, rows: usize, total: usize, n_layer: usize)
    requires
        0 < rows <= total,
        can_take(old(layers)@, kept@, rows as nat, total as nat, n_layer as nat),
    ensures
        has_taken(old(layers)@, kept@, rows as nat, total as nat, n_layer as nat, final(layers)@),
{
    let ghost fresh = layers@;
    for l in 0..n_layer
        invariant
            0 < rows <= total,
            can_take(fresh, kept@, rows as nat, total as nat, n_layer as nat),
            layers@.len() == fresh.len(),
            forall|i: int| 0 <= i < l ==> (#[trigger] layers@[i])@ == with_prefix(fresh[i]@, kept@[i]@, rows as nat, total as nat),
            forall|i: int| l <= i < fresh.len() ==> #[trigger] layers@[i] == fresh[i],
    {
        assert(layers@[l as int] == fresh[l as int]);
        copy_prefix(&mut layers[l], kept[l].as_slice(), rows, total);
    }
}

/// What `prefix_generate` did: fresh rows, with those that the prompt shares with the cache taken over; a text generated
/// over them; and the cache kept under the prompt and that text.
pub open spec fn is_prefix_generated<
    T,
    S,
    H,
    L: Fn(usize) -> PlainRows<T>,
    F: Fn(&[i64], usize, PlainRows<T>) -> (PlainRows<T>, H),
    G: Fn(&H, &[i64]) -> i64,
    E: Fn(i64) -> bool,
>(
    alloc: L,
    fwd: F,
    argmax: G,
    emit: E,
    prompt: Seq<i64>,
    limit: nat,
    eos: Seq<i64>,
    n_layer: nat,
    before: PrefixKv<Vec<T>, S>,
    after: PrefixKv<Vec<T>, S>,
    out: Seq<i64>,
) -> bool {
    let shared = reusable(before.ids@, prompt);
    let total = prompt.len() + limit;
    exists|fresh: PlainRows<T>, start: PlainRows<T>, rows: PlainRows<T>|
        {
            &&& #[trigger] call_ensures(alloc, (total as usize,), fresh)
            &&& has_taken(fresh.k@, before.kc@, shared, total, n_layer, start.k@)
            &&& has_taken(fresh.v@, before.vc@, shared, total, n_layer, start.v@)
            &&& #[trigger] is_generated(
                fwd,
                argmax,
                emit,
                Request { prompt, shared, start, limit, eos },
                out,
                after.ids@,
                rows,
            )
            &&& after.kc == rows.k
            &&& after.vc == rows.v
            &&& after.kc_q == before.kc_q
            &&& after.vc_q == before.vc_q
            &&& after.ks_q == before.ks_q
            &&& after.vs_q == before.vs_q
        }
}

/// Generates a text greedily, over the rows of the last one as far as the two prompts agree. `alloc` makes fresh rows,
/// `fwd` runs tokens over rows, `argmax` chooses a token from what that leaves, and `emit` is told of each token and
/// says whether to go on.
pub fn prefix_generate<
    T: Copy,
    S,
    H,
    L: Fn(usize) -> PlainRows<T>,
    F: Fn(&[i64], usize, PlainRows<T>) -> (PlainRows<T>, H),
    G: Fn(&H, &[i64]) -> i64,
    E: Fn(i64) -> bool,
>(
    prompt: &[i64],
    max_tokens: usize,
    eos: &[i64],
    emit: E,
    cache: &mut PrefixKv<Vec<T>, S>,
    n_layer: usize,
    alloc: L,
    fwd: F,
    argmax: G,
) -> (out: Vec<i64>)
    requires
        0 < prompt@.len(),
        prompt@.len() + max_tokens <= usize::MAX,
        can_decode(fwd, argmax, emit),
        forall|n: usize| call_requires(alloc, (n,)),
        reusable(old(cache).ids@, prompt@) > 0 ==> forall|fresh: PlainRows<T>|
            #[trigger] call_ensures(alloc, ((prompt@.len() + max_tokens) as usize,), fresh) ==> {
                let (rows, total) = (reusable(old(cache).ids@, prompt@), (prompt@.len() + max_tokens) as nat);
                &&& can_take(fresh.k@, old(cache).kc@, rows, total, n_layer as nat)
                &&& can_take(fresh.v@, old(cache).vc@, rows, total, n_layer as nat)
            },
    ensures
        is_prefix_generated(
            alloc,
            fwd,
            argmax,
            emit,
            prompt@,
            max_tokens as nat,
            eos@,
            n_layer as nat,
            *old(cache),
            *final(cache),
            out@,
        ),
{
    let total: usize = prompt.len() + max_tokens;
    let shared: usize = cache.reuse_len(prompt);
    let mut start = alloc(total);
    let ghost fresh = start;
    if shared > 0 {
        take_rows(&mut start.k, &cache.kc, shared, total, n_layer);
        take_rows(&mut start.v, &cache.vc, shared, total, n_layer);
    }
    let ghost first = start;
    let (out, kept, rows) = decode_over(prompt, max_tokens, eos, &emit, shared, start, &fwd, &argmax);
    let ghost left = rows;
    cache.ids = kept;
    cache.kc = rows.k;
    cache.vc = rows.v;
    assert(call_ensures(alloc, ((prompt@.len() + max_tokens as nat) as usize,), fresh));
    assert(is_generated(
        fwd,
        argmax,
        emit,
        Request { prompt: prompt@, shared: shared as nat, start: first, limit: max_tokens as nat, eos: eos@ },
        out@,
        cache.ids@,
        left,
    ));
    out
}

/// What `prefix_generate_q` did: the same as `prefix_generate`, over bytes with their scales.
pub open spec fn is_prefix_generated_q<
    A,
    S,
    H,
    L: Fn(usize) -> ByteRows<S>,
    F: Fn(&[i64], usize, ByteRows<S>) -> (ByteRows<S>, H),
    G: Fn(&H, &[i64]) -> i64,
    E: Fn(i64) -> bool,
>(
    alloc: L,
    fwd: F,
    argmax: G,
    emit: E,
    prompt: Seq<i64>,
    limit: nat,
    eos: Seq<i64>,
    n_layer: nat,
    before: PrefixKv<A, S>,
    after: PrefixKv<A, S>,
    out: Seq<i64>,
) -> bool {
    let shared = reusable(before.ids@, prompt);
    let total = prompt.len() + limit;
    exists|fresh: ByteRows<S>, start: ByteRows<S>, rows: ByteRows<S>|
        {
            &&& #[trigger] call_ensures(alloc, (total as usize,), fresh)
            &&& has_taken(fresh.k@, before.kc_q@, shared, total, n_layer, start.k@)
            &&& has_taken(fresh.v@, before.vc_q@, shared, total, n_layer, start.v@)
            &&& has_taken(fresh.ks@, before.ks_q@, shared, total, n_layer, start.ks@)
            &&& has_taken(fresh.vs@, before.vs_q@, shared, total, n_layer, start.vs@)
            &&& #[trigger] is_generated(
                fwd,
                argmax,
                emit,
                Request { prompt, shared, start, limit, eos },
                out,
                after.ids@,
                rows,
            )
            &&& after.kc_q == rows.k
            &&& after.vc_q == rows.v
            &&& after.ks_q == rows.ks
            &&& after.vs_q == rows.vs
            &&& after.kc == before.kc
            &&& after.vc == before.vc
        }
}

/// Generates a text as `prefix_generate` does, over a cache of bytes with their scales.
pub fn prefix_generate_q<
    A,
    S: Copy,
    H,
    L: Fn(usize) -> ByteRows<S>,
    F: Fn(&[i64], usize, ByteRows<S>) -> (ByteRows<S>, H),
    G: Fn(&H, &[i64]) -> i64,
    E: Fn(i64) -> bool,
>(
    prompt: &[i64],
    max_tokens: usize,
    eos: &[i64],
    emit: E,
    cache: &mut PrefixKv<A, S>,
    n_layer: usize,
    alloc: L,
    fwd: F,
    argmax: G,
) -> (out: Vec<i64>)
    requires
        0 < prompt@.len(),
        prompt@.len() + max_tokens <= usize::MAX,
        can_decode(fwd, argmax, emit),
        forall|n: usize| call_requires(alloc, (n,)),
        reusable(old(cache).ids@, prompt@) > 0 ==> forall|fresh: ByteRows<S>|
            #[trigger] call_ensures(alloc, ((prompt@.len() + max_tokens) as usize,), fresh) ==> {
                let (rows, total) = (reusable(old(cache).ids@, prompt@), (prompt@.len() + max_tokens) as nat);
                &&& can_take(fresh.k@, old(cache).kc_q@, rows, total, n_layer as nat)
                &&& can_take(fresh.v@, old(cache).vc_q@, rows, total, n_layer as nat)
                &&& can_take(fresh.ks@, old(cache).ks_q@, rows, total, n_layer as nat)
                &&& can_take(fresh.vs@, old(cache).vs_q@, rows, total, n_layer as nat)
            },
    ensures
        is_prefix_generated_q(
            alloc,
            fwd,
            argmax,
            emit,
            prompt@,
            max_tokens as nat,
            eos@,
            n_layer as nat,
            *old(cache),
            *final(cache),
            out@,
        ),
{
    let total: usize = prompt.len() + max_tokens;
    let shared: usize = cache.reuse_len(prompt);
    let mut start = alloc(total);
    let ghost fresh = start;
    if shared > 0 {
        take_rows(&mut start.k, &cache.kc_q, shared, total, n_layer);
        take_rows(&mut start.v, &cache.vc_q, shared, total, n_layer);
        take_rows(&mut start.ks, &cache.ks_q, shared, total, n_layer);
        take_rows(&mut start.vs, &cache.vs_q, shared, total, n_layer);
    }
    let ghost first = start;
    let (out, kept, rows) = decode_over(prompt, max_tokens, eos, &emit, shared, start, &fwd, &argmax);
    let ghost left = rows;
    cache.ids = kept;
    cache.kc_q = rows.k;
    cache.vc_q = rows.v;
    cache.ks_q = rows.ks;
    cache.vs_q = rows.vs;
    assert(call_ensures(alloc, ((prompt@.len() + max_tokens as nat) as usize,), fresh));
    assert(is_generated(
        fwd,
        argmax,
        emit,
        Request { prompt: prompt@, shared: shared as nat, start: first, limit: max_tokens as nat, eos: eos@ },
        out@,
        cache.ids@,
        left,
    ));
    out
}

} // verus!
