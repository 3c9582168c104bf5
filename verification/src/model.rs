//! The runtime interface of a model, and what is the same for every architecture: the greedy decode loop, the cache
//! of a growing conversation, and the trace of a recursion through the layers.
use vstd::prelude::*;

verus! {

/// What a cache holds of the conversation so far. `ids` are the tokens whose keys and values fill the first rows of
/// every layer. A model uses one of two caches for its whole life: plain rows of type `A`, or rows of bytes with
/// one scale of type `S` per head.
pub struct PrefixKv<A, S> {
    pub ids: Vec<i64>,
    pub kc: Vec<A>,
    pub vc: Vec<A>,
    pub kc_q: Vec<Vec<i8>>,
    pub vc_q: Vec<Vec<i8>>,
    pub ks_q: Vec<Vec<S>>,
    pub vs_q: Vec<Vec<S>>,
}

/// How far two token sequences are the same from the start.
pub open spec fn common_prefix(a: Seq<i64>, b: Seq<i64>) -> nat
    decreases a.len(),
{
    if a.len() > 0 && b.len() > 0 && a[0] == b[0] { 1 + common_prefix(a.skip(1), b.skip(1)) } else { 0 }
}

/// The rows that a prompt can reuse: those of the common prefix, but one token of the prompt is always left to run.
pub open spec fn reusable(ids: Seq<i64>, prompt: Seq<i64>) -> nat {
    let l = common_prefix(ids, prompt);
    let most = if prompt.len() > 0 { (prompt.len() - 1) as nat } else { 0 };
    if l < most { l } else { most }
}

impl<A, S> PrefixKv<A, S> {
    /// The cache of a conversation that has not begun.
    pub open spec fn is_cold(self) -> bool {
        &&& self.ids@.len() == 0
        &&& self.kc@.len() == 0
        &&& self.vc@.len() == 0
        &&& self.kc_q@.len() == 0
        &&& self.vc_q@.len() == 0
        &&& self.ks_q@.len() == 0
        &&& self.vs_q@.len() == 0
    }

    pub fn new() -> (c: PrefixKv<A, S>)
        ensures
            c.is_cold(),
    {
        PrefixKv {
            ids: Vec::new(),
            kc: Vec::new(),
            vc: Vec::new(),
            kc_q: Vec::new(),
            vc_q: Vec::new(),
            ks_q: Vec::new(),
            vs_q: Vec::new(),
        }
    }

    pub fn clear(&mut self)
        ensures
            final(self).is_cold(),
    {
        self.ids.clear();
        self.kc.clear();
        self.vc.clear();
        self.kc_q.clear();
        self.vc_q.clear();
        self.ks_q.clear();
        self.vs_q.clear();
    }

    /// How many rows a prompt can reuse.
    pub fn reuse_len(&self, prompt: &[i64]) -> (l: usize)
        ensures
            l == reusable(self.ids@, prompt@),
            l <= self.ids@.len(),
            prompt@.len() > 0 ==> l < prompt@.len(),
            prompt@.len() == 0 ==> l == 0,
            self.ids@.take(l as int) == prompt@.take(l as int),
    {
        let mut l: usize = 0;
        assert(self.ids@.skip(0) =~= self.ids@);
        assert(prompt@.skip(0) =~= prompt@);
        while l < self.ids.len() && l < prompt.len() && self.ids[l] == prompt[l]
            invariant
                l <= self.ids@.len(),
                l <= prompt@.len(),
                self.ids@.take(l as int) == prompt@.take(l as int),
                common_prefix(self.ids@, prompt@) == l + common_prefix(
                    self.ids@.skip(l as int),
                    prompt@.skip(l as int),
                ),
            decreases self.ids.len() - l,
        {
            assert(self.ids@.skip(l as int).skip(1) =~= self.ids@.skip(l + 1));
            assert(prompt@.skip(l as int).skip(1) =~= prompt@.skip(l + 1));
            assert(self.ids@.take(l + 1) =~= prompt@.take(l + 1)) by {
                assert forall|i: int| 0 <= i < l + 1 implies self.ids@[i] == prompt@[i] by {
                    if i < l {
                        assert(self.ids@.take(l as int)[i] == prompt@.take(l as int)[i]);
                    }
                }
            }
            l += 1;
        }
        let n: usize = prompt.len();
        let most: usize = if n > 0 { n - 1 } else { 0 };
        let r: usize = if l < most { l } else { most };
        assert(self.ids@.take(r as int) =~= prompt@.take(r as int)) by {
            assert forall|i: int| 0 <= i < r implies self.ids@[i] == prompt@[i] by {
                assert(self.ids@.take(l as int)[i] == prompt@.take(l as int)[i]);
            }
        }
        r
    }
}

/// The first `l` rows of `src`, in front of what `dst` holds behind them; a row is one of `total` equal parts.
pub open spec fn with_prefix<T>(dst: Seq<T>, src: Seq<T>, l: nat, total: nat) -> Seq<T> {
    let n = (l * (dst.len() / total)) as int;
    src.take(n) + dst.skip(n)
}

/// Copies the rows of a reused prefix into a fresh cache.
pub fn copy_prefix<T: Copy>(dst: &mut Vec<T>, src: &[T], l: usize, total: usize)
    requires
        0 < total,
        l <= total,
        l * (old(dst)@.len() / total as nat) <= src@.len(),
    ensures
        final(dst)@ == with_prefix(old(dst)@, src@, l as nat, total as nat),
{
    let len: usize = dst.len();
    let width: usize = len / total;
    proof {
        assert(l * width <= len) by (nonlinear_arith)
            requires
                l <= total,
                width == len / total,
                0 < total,
        ;
        assert(0 <= l * width) by (nonlinear_arith);
    }
    let n: usize = l * width;
    let ghost was = dst@;
    assert(l as nat * (was.len() / total as nat) == n);
    for i in 0..n
        invariant
            n <= len == dst@.len() == was.len(),
            n <= src@.len(),
            dst@ == src@.take(i as int) + was.skip(i as int),
    {
        dst.set(i, src[i]);
        assert(dst@ =~= src@.take(i + 1) + was.skip(i + 1));
    }
}

/// Greedy decoding: the next token of a context is put behind it, at most `left` times, until one of the tokens
/// that end a text comes.
pub open spec fn greedy(f: spec_fn(Seq<i64>) -> i64, ctx: Seq<i64>, left: nat, eos: Seq<i64>) -> Seq<i64>
    decreases left,
{
    if left == 0 || eos.contains(f(ctx)) {
        Seq::empty()
    } else {
        seq![f(ctx)] + greedy(f, ctx.push(f(ctx)), (left - 1) as nat, eos)
    }
}

/// A model: a next token for every context.
pub trait Model: Sync {
    /// The token that the model gives: some function of the model and the context, of which nothing is known unless an
    /// implementation says more.
    open spec fn next_token(&self, ids: Seq<i64>) -> i64 {
        arbitrary::<spec_fn(&Self, Seq<i64>) -> i64>()(self, ids)
    }

    /// The likeliest next token for a context.
    fn predict(&self, ids: &[i64]) -> (t: i64)
        ensures
            t == self.next_token(ids@),
    ;

    /// Greedy generation without a stop: exactly `n_new` tokens.
    fn generate(&self, prompt: &[i64], n_new: usize) -> (out: Vec<i64>)
        ensures
            out@ == greedy(|c: Seq<i64>| self.next_token(c), prompt@, n_new as nat, Seq::empty()),
    {
        let none: Vec<i64> = Vec::new();
        assert(none@ =~= Seq::empty());
        let go_on = |t: i64| -> (b: bool)
            ensures
                b,
            { true };
        let out = self.generate_stream(prompt, n_new, none.as_slice(), &go_on);
        proof {
            streamed_text_is_greedy(|c: Seq<i64>| self.next_token(c), prompt@, n_new as nat, none@, go_on, out@);
        }
        out
    }

    /// Greedy generation of at most `max_tokens` tokens, up to one that ends the text, which is left out. `emit` is told
    /// of each token as it is produced, and ends the text where it gives `false`.
    fn generate_stream<E: Fn(i64) -> bool>(&self, prompt: &[i64], max_tokens: usize, eos: &[i64], emit: &E) -> (out: Vec<
        i64,
    >)
        requires
            forall|t: i64| #[trigger] call_requires(*emit, (t,)),
        ensures
            is_streamed(|c: Seq<i64>| self.next_token(c), prompt@, max_tokens as nat, eos@, *emit, out@),
    {
        let ghost f = |c: Seq<i64>| self.next_token(c);
        let mut d = Streaming::start(prompt, max_tokens);
        assert(d.context() =~= prompt@ + d.output());
        while d.wants_token()
            invariant
                f == (|c: Seq<i64>| self.next_token(c)),
                forall|t: i64| #[trigger] call_requires(*emit, (t,)),
                d.output().len() + d.left() == max_tokens,
                follows_model(f, prompt@, eos@, d.output()),
                was_told(*emit, d.output()),
                d.stopped() ==> eos@.contains(f(prompt@ + d.output())) || (d.output().len() > 0 && call_ensures(
                    *emit,
                    (d.output().last(),),
                    false,
                )),
                !d.stopped() ==> d.context() == prompt@ + d.output() && (d.output().len() > 0 ==> call_ensures(
                    *emit,
                    (d.output().last(),),
                    true,
                )),
            decreases d.left(), if d.stopped() { 0int } else { 1 },
        {
            let t: i64 = self.predict(d.context_ids());
            let ghost before = d.output();
            assert(t == f(prompt@ + before));
            if d.offer(t, eos) {
                let go_on = emit(t);
                d.resume(go_on);
                proof {
                    let now = d.output();
                    assert forall|i: int| 0 <= i < now.len() implies #[trigger] now[i] == f(prompt@ + now.take(i))
                        && !eos@.contains(now[i]) by {
                        assert(now.take(i) =~= before.take(i));
                        if i < before.len() {
                            assert(now[i] == before[i]);
                        } else {
                            assert(before.take(i) =~= before);
                        }
                    }
                    assert(prompt@ + now =~= (prompt@ + before).push(t));
                    assert forall|i: int| 0 <= i < now.len() - 1 implies call_ensures(*emit, (#[trigger] now[i],), true) by {
                        assert(now[i] == before[i]);
                    }
                    assert(now.last() == t);
                }
            }
        }
        d.finish()
    }

    /// Streams a text of a conversation whose rows may be kept. Without a way to reuse them the cache is cleared, and the
    /// text is the same.
    fn generate_stream_prefix<A, S, E: Fn(i64) -> bool>(
        &self,
        prompt: &[i64],
        max_tokens: usize,
        eos: &[i64],
        emit: &E,
        cache: &mut PrefixKv<A, S>,
    ) -> (out: Vec<i64>)
        requires
            forall|t: i64| #[trigger] call_requires(*emit, (t,)),
        ensures
            is_streamed(|c: Seq<i64>| self.next_token(c), prompt@, max_tokens as nat, eos@, *emit, out@),
        default_ensures
            final(cache).is_cold(),
    {
        cache.clear();
        self.generate_stream(prompt, max_tokens, eos, emit)
    }
}

/// Each token is the model's next one behind the prompt and the tokens before it, and none ends the text.
pub open spec fn follows_model(f: spec_fn(Seq<i64>) -> i64, prompt: Seq<i64>, eos: Seq<i64>, out: Seq<i64>) -> bool {
    forall|i: int| 0 <= i < out.len() ==> #[trigger] out[i] == f(prompt + out.take(i)) && !eos.contains(out[i])
}

/// The caller was told of each token, and went on after all but the last.
pub open spec fn was_told<E: Fn(i64) -> bool>(emit: E, out: Seq<i64>) -> bool {
    &&& forall|i: int| 0 <= i < out.len() - 1 ==> call_ensures(emit, (#[trigger] out[i],), true)
    &&& out.len() > 0 ==> call_ensures(emit, (out.last(),), true) || call_ensures(emit, (out.last(),), false)
}

/// A text was generated token by token: each is the model's next one, the caller was told of each, and the text ends
/// with as many tokens as were wanted, before one that ends it, or with the one after which the caller stopped.
pub open spec fn is_streamed<E: Fn(i64) -> bool>(
    f: spec_fn(Seq<i64>) -> i64,
    prompt: Seq<i64>,
    limit: nat,
    eos: Seq<i64>,
    emit: E,
    out: Seq<i64>,
) -> bool {
    &&& out.len() <= limit
    &&& follows_model(f, prompt, eos, out)
    &&& was_told(emit, out)
    &&& out.len() == limit || eos.contains(f(prompt + out)) || (out.len() > 0 && call_ensures(
        emit,
        (out.last(),),
        false,
    ))
}

/// The caller never stops the text.
pub open spec fn never_stops<E: Fn(i64) -> bool>(emit: E) -> bool {
    forall|t: i64| !#[trigger] call_ensures(emit, (t,), false)
}

/// A decode loop that asks for the next token of the whole context each time. The caller alternates: where a token
/// is wanted it predicts one and offers it; where the token was taken it sends it on and says whether to go on.
pub struct Streaming {
    ctx: Vec<i64>,
    out: Vec<i64>,
    left: usize,
    stopped: bool,
}

impl Streaming {
    pub closed spec fn context(self) -> Seq<i64> {
        self.ctx@
    }

    pub closed spec fn output(self) -> Seq<i64> {
        self.out@
    }

    pub closed spec fn left(self) -> nat {
        self.left as nat
    }

    pub closed spec fn stopped(self) -> bool {
        self.stopped
    }

    pub fn start(prompt: &[i64], max_tokens: usize) -> (d: Streaming)
        ensures
            d.context() == prompt@,
            d.output() == Seq::<i64>::empty(),
            d.left() == max_tokens,
            !d.stopped(),
    {
        Streaming { ctx: copied(prompt), out: Vec::new(), left: max_tokens, stopped: false }
    }

    /// The context for which a token is wanted.
    pub fn context_ids(&self) -> (c: &[i64])
        ensures
            c@ == self.context(),
    {
        self.ctx.as_slice()
    }

    pub fn wants_token(&self) -> (r: bool)
        ensures
            r == (!self.stopped() && self.left() > 0),
    {
        !self.stopped && self.left > 0
    }

    /// Offers the predicted token; it is taken unless it ends the text.
    pub fn offer(&mut self, token: i64, eos: &[i64]) -> (taken: bool)
        requires
            !old(self).stopped(),
            old(self).left() > 0,
        ensures
            taken == !eos@.contains(token),
            final(self).stopped() == !taken,
            final(self).context() == old(self).context(),
            final(self).output() == (if taken { old(self).output().push(token) } else { old(self).output() }),
            final(self).left() == (if taken { (old(self).left() - 1) as nat } else { old(self).left() }),
    {
        if has_token(eos, token) {
            self.stopped = true;
            false
        } else {
            self.out.push(token);
            self.left = self.left - 1;
            true
        }
    }

    /// Goes on behind the token that was taken, or stops.
    pub fn resume(&mut self, keep_going: bool)
        requires
            !old(self).stopped(),
            old(self).output().len() > 0,
        ensures
            final(self).stopped() == !keep_going,
            final(self).output() == old(self).output(),
            final(self).left() == old(self).left(),
            final(self).context() == (if keep_going {
                old(self).context().push(old(self).output().last())
            } else {
                old(self).context()
            }),
    {
        if keep_going {
            let t: i64 = self.out[self.out.len() - 1];
            self.ctx.push(t);
        } else {
            self.stopped = true;
        }
    }

    /// The tokens that were generated.
    pub fn finish(self) -> (out: Vec<i64>)
        ensures
            out@ == self.output(),
    {
        self.out
    }
}

fn copied(s: &[i64]) -> (v: Vec<i64>)
    ensures
        v@ == s@,
{
    let mut v: Vec<i64> = Vec::new();
    for i in 0..s.len()
        invariant
            v@ == s@.take(i as int),
    {
        v.push(s[i]);
        assert(v@ =~= s@.take(i + 1));
    }
    assert(v@ =~= s@);
    v
}

/// Whether a token is in a list.
pub fn has_token(list: &[i64], t: i64) -> (r: bool)
    ensures
        r == list@.contains(t),
{
    for i in 0..list.len()
        invariant
            forall|k: int| 0 <= k < i ==> list@[k] != t,
    {
        if list[i] == t {
            assert(list@[i as int] == t);
            return true;
        }
    }
    false
}

/// What the cached decode loop asks for next.
#[derive(Clone, Copy, PartialEq, Eq, Structural)]
pub enum Step {
    /// Run this token at this position, and predict behind it.
    Run(i64, usize),
    /// Run this token at this position: the text is complete with it.
    Last(i64, usize),
}

/// A decode loop over a cache: every token runs once, at its own position, and the rows of the cache always hold
/// what has run. The prompt runs first, behind the rows that it reuses. The last token of a text runs too, so that the
/// rows that are left are those of the prompt and the whole text.
pub struct Decoding {
    ctx: Vec<i64>,
    out: Vec<i64>,
    max_tokens: usize,
    prompt_len: usize,
}

impl Decoding {
    /// The tokens that have run, one for each row of the cache.
    pub closed spec fn rows(self) -> Seq<i64> {
        self.ctx@
    }

    pub closed spec fn output(self) -> Seq<i64> {
        self.out@
    }

    pub closed spec fn limit(self) -> nat {
        self.max_tokens as nat
    }

    pub closed spec fn prompt(self) -> Seq<i64> {
        self.ctx@.take(self.prompt_len as int)
    }

    /// The prompt is the start of the rows.
    pub closed spec fn starts_with_prompt(self) -> bool {
        self.prompt_len <= self.ctx@.len()
    }

    /// The rows are the prompt and the output, but for a last token that was put out and has not run.
    pub open spec fn follows(self) -> bool {
        let (rows, prompt, out) = (self.rows(), self.prompt(), self.output());
        &&& self.starts_with_prompt()
        &&& prompt.len() <= rows.len() <= prompt.len() + out.len() <= rows.len() + 1
        &&& rows == prompt + out.take(rows.len() - prompt.len())
    }

    /// Every token that was put out has run.
    pub open spec fn all_ran(self) -> bool {
        self.rows().len() == self.prompt().len() + self.output().len()
    }

    /// A loop over a prompt. Its first part is reused; the rest is to run from where that ends.
    pub fn start(prompt: &[i64], max_tokens: usize) -> (d: Decoding)
        ensures
            d.rows() == prompt@,
            d.prompt() == prompt@,
            d.output() == Seq::<i64>::empty(),
            d.limit() == max_tokens,
            d.follows(),
            d.all_ran(),
    {
        let ctx = copied(prompt);
        let n: usize = ctx.len();
        let d = Decoding { ctx, out: Vec::new(), max_tokens, prompt_len: n };
        assert(d.prompt() =~= prompt@);
        assert(d.rows() =~= d.prompt() + d.output().take(0));
        d
    }

    /// The context behind which a token is predicted.
    pub fn context_ids(&self) -> (c: &[i64])
        ensures
            c@ == self.rows(),
    {
        self.ctx.as_slice()
    }

    /// Offers the token predicted behind the rows; it is put out unless it ends the text.
    pub fn offer(&mut self, token: i64, eos: &[i64]) -> (taken: bool)
        requires
            old(self).follows(),
            old(self).all_ran(),
        ensures
            final(self).follows(),
            taken == !eos@.contains(token),
            final(self).all_ran() == !taken,
            final(self).rows() == old(self).rows(),
            final(self).prompt() == old(self).prompt(),
            final(self).limit() == old(self).limit(),
            final(self).output() == (if taken { old(self).output().push(token) } else { old(self).output() }),
    {
        if has_token(eos, token) {
            return false;
        }
        self.out.push(token);
        proof {
            let k = self.rows().len() - self.prompt().len();
            assert(self.output().take(k) =~= old(self).output().take(k));
        }
        true
    }

    /// Lets the token that was put out run: to go on behind it, or as the last one where the caller stops here or there
    /// are enough of them.
    pub fn resume(&mut self, keep_going: bool) -> (s: Step)
        requires
            old(self).follows(),
            !old(self).all_ran(),
        ensures
            final(self).follows(),
            final(self).prompt() == old(self).prompt(),
            final(self).output() == old(self).output(),
            final(self).limit() == old(self).limit(),
            final(self).rows() == old(self).rows().push(old(self).output().last()),
            final(self).all_ran(),
            s == if keep_going && old(self).output().len() != old(self).limit() {
                Step::Run(old(self).output().last(), old(self).rows().len() as usize)
            } else {
                Step::Last(old(self).output().last(), old(self).rows().len() as usize)
            },
    {
        let pos: usize = self.ctx.len();
        let t: i64 = self.out[self.out.len() - 1];
        let ghost k = self.rows().len() - self.prompt().len();
        self.ctx.push(t);
        proof {
            assert(self.prompt() =~= old(self).prompt());
            assert(self.output().take(k + 1) =~= self.output().take(k).push(t));
            assert(self.rows() =~= self.prompt() + self.output().take(k + 1));
        }
        if keep_going && self.out.len() != self.max_tokens {
            Step::Run(t, pos)
        } else {
            Step::Last(t, pos)
        }
    }

    /// What was put out, and the tokens of the rows: what the cache is kept under for the next turn.
    pub fn finish(self) -> (r: (Vec<i64>, Vec<i64>))
        ensures
            r.0@ == self.output(),
            r.1@ == self.rows(),
    {
        (self.out, self.ctx)
    }
}

/// One position of a recursion trace: the token that the last layer reads there, the first layer that reads it, the
/// readings of the late layers and of all layers, and the earlier position that is looked back at most, with how
/// much. Attention is given by keys that order it: a greater weight has a greater key, and no weight has key zero.
pub struct RecPos {
    pub pos: usize,
    pub final_top1: i64,
    pub resolve_layer: usize,
    pub n_layer: usize,
    pub lens_late: Vec<(usize, i64)>,
    pub lens_full: Vec<(usize, i64)>,
    pub back: usize,
    pub conc: u32,
}

/// The readings of the layers from `from` on at one position, each with the number of its layer, counted from one.
pub open spec fn readings(lens: Seq<Vec<i64>>, p: int, from: nat) -> Seq<(usize, i64)> {
    Seq::new(
        if from < lens.len() { (lens.len() - from) as nat } else { 0 },
        |i: int| ((from + i + 1) as usize, lens[from + i]@[p]),
    )
}

/// The first layer from `l` on that reads the token, counted from one.
pub open spec fn resolved_from(lens: Seq<Vec<i64>>, p: int, token: i64, l: nat) -> nat
    decreases lens.len() - l,
{
    if l >= lens.len() {
        lens.len()
    } else if lens[l as int]@[p] == token {
        l + 1
    } else {
        resolved_from(lens, p, token, l + 1)
    }
}

/// The weight of looking back, without the first two positions, where attention rests when it binds nothing.
pub open spec fn binding(weights: Seq<u32>, k: int) -> u32 {
    if k < 2 { 0 } else { weights[k] }
}

/// Of the positions before `n`, the first with the greatest weight, if that is not zero; else `p` itself.
pub open spec fn looked_back(weights: Seq<u32>, p: usize, n: nat) -> (usize, u32)
    decreases n,
{
    if n == 0 {
        (p, 0)
    } else {
        let (back, conc) = looked_back(weights, p, (n - 1) as nat);
        if binding(weights, n - 1) > conc { ((n - 1) as usize, binding(weights, n - 1)) } else { (back, conc) }
    }
}

/// A position of the trace is what the readings and the weights say.
pub open spec fn traces(r: RecPos, lens: Seq<Vec<i64>>, weights: Seq<Vec<u32>>, late0: nat, p: int) -> bool {
    &&& r.pos == p
    &&& r.n_layer == lens.len()
    &&& r.final_top1 == lens[lens.len() - 1]@[p]
    &&& r.resolve_layer == resolved_from(lens, p, r.final_top1, 0)
    &&& r.lens_late@ == readings(lens, p, late0)
    &&& r.lens_full@ == readings(lens, p, 0)
    &&& (r.back, r.conc) == looked_back(weights[p]@, r.pos, p as nat)
}

fn read_layers(lens: &[Vec<i64>], p: usize, from: usize) -> (v: Vec<(usize, i64)>)
    requires
        forall|l: int| 0 <= l < lens@.len() ==> p < (#[trigger] lens@[l])@.len(),
    ensures
        v@ == readings(lens@, p as int, from as nat),
{
    let n: usize = lens.len();
    let mut v: Vec<(usize, i64)> = Vec::new();
    let mut l: usize = from;
    while l < n
        invariant
            n == lens@.len(),
            from <= l,
            l <= n || l == from,
            forall|l: int| 0 <= l < lens@.len() ==> p < (#[trigger] lens@[l])@.len(),
            v@ == readings(lens@, p as int, from as nat).take(l - from),
        decreases n - l,
    {
        assert(p < lens@[l as int]@.len());
        v.push((l + 1, lens[l][p]));
        assert(v@ =~= readings(lens@, p as int, from as nat).take(l + 1 - from));
        l += 1;
    }
    assert(v@ =~= readings(lens@, p as int, from as nat));
    v
}

fn first_reading(lens: &[Vec<i64>], p: usize, token: i64) -> (r: usize)
    requires
        forall|l: int| 0 <= l < lens@.len() ==> p < (#[trigger] lens@[l])@.len(),
    ensures
        r == resolved_from(lens@, p as int, token, 0),
{
    let n: usize = lens.len();
    let mut l: usize = 0;
    while l < n
        invariant
            n == lens@.len(),
            l <= n,
            forall|l: int| 0 <= l < lens@.len() ==> p < (#[trigger] lens@[l])@.len(),
            resolved_from(lens@, p as int, token, 0) == resolved_from(lens@, p as int, token, l as nat),
        decreases n - l,
    {
        assert(p < lens@[l as int]@.len());
        if lens[l][p] == token {
            return l + 1;
        }
        l += 1;
    }
    n
}

fn look_back(weights: &[u32], p: usize) -> (r: (usize, u32))
    requires
        p <= weights@.len(),
    ensures
        r == looked_back(weights@, p, p as nat),
{
    let mut back: usize = p;
    let mut conc: u32 = 0;
    for k in 0..p
        invariant
            p <= weights@.len(),
            (back, conc) == looked_back(weights@, p, k as nat),
    {
        let w: u32 = if k < 2 { 0 } else { weights[k] };
        if w > conc {
            conc = w;
            back = k;
        }
    }
    (back, conc)
}

/// Builds the trace of a recursion: one entry for each position but the last. `lens` holds the reading of each
/// layer at each position, `weights` how much each position looks back at each other, and `late0` is the first late
/// layer. Fewer than three positions have no trace.
pub fn build_rec_trace(lens: &[Vec<i64>], weights: &[Vec<u32>], late0: usize) -> (out: Vec<RecPos>)
    requires
        forall|l: int| 0 <= l < lens@.len() ==> (#[trigger] lens@[l])@.len() == weights@.len(),
        forall|p: int| 0 <= p < weights@.len() ==> (#[trigger] weights@[p])@.len() == weights@.len(),
    ensures
        weights@.len() < 3 || lens@.len() == 0 ==> out@.len() == 0,
        weights@.len() >= 3 && lens@.len() > 0 ==> out@.len() == weights@.len() - 1 && forall|p: int|
            0 <= p < out@.len() ==> traces(#[trigger] out@[p], lens@, weights@, late0 as nat, p),
{
    let seq: usize = weights.len();
    let nl: usize = lens.len();
    let mut out: Vec<RecPos> = Vec::new();
    if seq < 3 || nl == 0 {
        return out;
    }
    for p in 0..seq - 1
        invariant
            seq == weights@.len(),
            seq >= 3,
            nl == lens@.len(),
            nl > 0,
            forall|l: int| 0 <= l < lens@.len() ==> (#[trigger] lens@[l])@.len() == weights@.len(),
            forall|p: int| 0 <= p < weights@.len() ==> (#[trigger] weights@[p])@.len() == weights@.len(),
            out@.len() == p,
            forall|i: int| 0 <= i < p ==> traces(#[trigger] out@[i], lens@, weights@, late0 as nat, i),
    {
        assert(lens@[nl - 1]@.len() == seq);
        assert(weights@[p as int]@.len() == seq);
        let final_top1: i64 = lens[nl - 1][p];
        let resolve_layer: usize = first_reading(lens, p, final_top1);
        let lens_late = read_layers(lens, p, late0);
        let lens_full = read_layers(lens, p, 0);
        let (back, conc) = look_back(weights[p].as_slice(), p);
        out.push(RecPos { pos: p, final_top1, resolve_layer, n_layer: nl, lens_late, lens_full, back, conc });
    }
    out
}

/// The late layers that have a row at a position, from `l` on.
pub open spec fn late_layers(rows: Seq<usize>, p: usize, l: nat) -> Seq<usize>
    decreases rows.len() - l,
{
    if l >= rows.len() {
        Seq::empty()
    } else if p < rows[l as int] {
        seq![l as usize] + late_layers(rows, p, l + 1)
    } else {
        late_layers(rows, p, l + 1)
    }
}

/// Readings at a position are what was read in each late layer that has a row there.
pub open spec fn reads_late<F: Fn(usize, usize) -> i64>(f: F, rows: Seq<usize>, p: usize, late0: nat, r: Seq<(usize, i64)>) -> bool {
    let layers = late_layers(rows, p, late0);
    &&& r.len() == layers.len()
    &&& forall|i: int|
        0 <= i < r.len() ==> (#[trigger] r[i]).0 == layers[i] + 1 && call_ensures(f, (layers[i], p), r[i].1)
}

fn read_late<F: Fn(usize, usize) -> i64>(rows: &[usize], p: usize, late0: usize, lens_argmax_at: &F) -> (late: Vec<(usize, i64)>)
    requires
        forall|l: usize, q: usize| l < rows@.len() && q < rows@[l as int] ==> call_requires(*lens_argmax_at, (l, q)),
    ensures
        reads_late(*lens_argmax_at, rows@, p, late0 as nat, late@),
{
    let n: usize = rows.len();
    let mut late: Vec<(usize, i64)> = Vec::new();
    let ghost all = late_layers(rows@, p, late0 as nat);
    let mut l: usize = late0;
    assert(Seq::<usize>::empty() + all =~= all);
    assert(all.take(0) + late_layers(rows@, p, late0 as nat) =~= all);
    while l < n
        invariant
            n == rows@.len(),
            late0 <= l,
            forall|l: usize, q: usize| l < rows@.len() && q < rows@[l as int] ==> call_requires(*lens_argmax_at, (l, q)),
            late@.len() <= all.len(),
            all.take(late@.len() as int) + late_layers(rows@, p, l as nat) == all,
            forall|i: int|
                0 <= i < late@.len() ==> (#[trigger] late@[i]).0 == all[i] + 1 && call_ensures(
                    *lens_argmax_at,
                    (all[i], p),
                    late@[i].1,
                ),
        decreases n - l,
    {
        let ghost k = late@.len() as int;
        let ghost rest = late_layers(rows@, p, (l + 1) as nat);
        if p < rows[l] {
            proof {
                assert(late_layers(rows@, p, l as nat) =~= seq![l] + rest);
                assert(all[k] == (all.take(k) + (seq![l] + rest))[k]);
                assert(all.take(k + 1) =~= all.take(k).push(l));
                assert(all.take(k + 1) + rest =~= all.take(k) + (seq![l] + rest));
            }
            let t: i64 = lens_argmax_at(l, p);
            late.push((l + 1, t));
        }
        l += 1;
    }
    assert(late@.len() == all.len()) by {
        assert(late_layers(rows@, p, l as nat).len() == 0);
        assert(all.take(late@.len() as int).len() == all.len());
    }
    late
}

/// Reads the late layers at some positions. `rows` says how many positions each layer has; a position that a layer
/// does not have is not read there.
pub fn build_rec_lens_at<F: Fn(usize, usize) -> i64>(
    rows: &[usize],
    positions: &[usize],
    late0: usize,
    lens_argmax_at: F,
) -> (out: Vec<Vec<(usize, i64)>>)
    requires
        forall|l: usize, q: usize| l < rows@.len() && q < rows@[l as int] ==> call_requires(lens_argmax_at, (l, q)),
    ensures
        out@.len() == positions@.len(),
        forall|i: int|
            0 <= i < out@.len() ==> reads_late(lens_argmax_at, rows@, positions@[i], late0 as nat, (#[trigger] out@[i])@),
{
    let mut out: Vec<Vec<(usize, i64)>> = Vec::new();
    for i in 0..positions.len()
        invariant
            forall|l: usize, q: usize| l < rows@.len() && q < rows@[l as int] ==> call_requires(lens_argmax_at, (l, q)),
            out@.len() == i,
            forall|k: int|
                0 <= k < i ==> reads_late(lens_argmax_at, rows@, positions@[k], late0 as nat, (#[trigger] out@[k])@),
    {
        out.push(read_late(rows, positions[i], late0, &lens_argmax_at));
    }
    out
}

/// Every token of a greedy text is what the model gives behind the prompt and the tokens before it; none of them
/// ends a text; and where there are fewer than were asked for, the next one would have.
pub proof fn greedy_follows_the_model(f: spec_fn(Seq<i64>) -> i64, ctx: Seq<i64>, left: nat, eos: Seq<i64>)
    ensures
        ({
            let out = greedy(f, ctx, left, eos);
            &&& out.len() <= left
            &&& forall|i: int| 0 <= i < out.len() ==> #[trigger] out[i] == f(ctx + out.take(i)) && !eos.contains(out[i])
            &&& out.len() < left ==> eos.contains(f(ctx + out))
        }),
    decreases left,
{
    let out = greedy(f, ctx, left, eos);
    if left == 0 || eos.contains(f(ctx)) {
        assert(ctx + out =~= ctx);
    } else {
        let t = f(ctx);
        let rest = greedy(f, ctx.push(t), (left - 1) as nat, eos);
        greedy_follows_the_model(f, ctx.push(t), (left - 1) as nat, eos);
        assert(ctx + out =~= ctx.push(t) + rest);
        assert forall|i: int| 0 <= i < out.len() implies #[trigger] out[i] == f(ctx + out.take(i)) && !eos.contains(
            out[i],
        ) by {
            if i == 0 {
                assert(ctx + out.take(0) =~= ctx);
            } else {
                assert(out[i] == rest[i - 1]);
                assert(ctx + out.take(i) =~= ctx.push(t) + rest.take(i - 1));
            }
        }
    }
}

/// A greater limit only goes on with the text: what is generated under a smaller one is the start of it.
pub proof fn greater_limit_continues(f: spec_fn(Seq<i64>) -> i64, ctx: Seq<i64>, less: nat, more: nat, eos: Seq<i64>)
    requires
        less <= more,
    ensures
        ({
            let (a, b) = (greedy(f, ctx, less, eos), greedy(f, ctx, more, eos));
            a.len() <= b.len() && a == b.take(a.len() as int)
        }),
    decreases less,
{
    if less == 0 || eos.contains(f(ctx)) {
        assert(greedy(f, ctx, less, eos) =~= greedy(f, ctx, more, eos).take(0));
    } else {
        let t = f(ctx);
        greater_limit_continues(f, ctx.push(t), (less - 1) as nat, (more - 1) as nat, eos);
        let (a, b) = (
            greedy(f, ctx.push(t), (less - 1) as nat, eos),
            greedy(f, ctx.push(t), (more - 1) as nat, eos),
        );
        assert(seq![t] + a =~= (seq![t] + b).take((1 + a.len()) as int));
    }
}

/// Without a token that ends a text, exactly as many tokens are generated as were asked for.
pub proof fn fixed_length_is_kept(f: spec_fn(Seq<i64>) -> i64, ctx: Seq<i64>, n: nat)
    ensures
        greedy(f, ctx, n, Seq::empty()).len() == n,
    decreases n,
{
    if n > 0 {
        fixed_length_is_kept(f, ctx.push(f(ctx)), (n - 1) as nat);
    }
}

proof fn common_prefix_is_common(a: Seq<i64>, b: Seq<i64>)
    ensures
        common_prefix(a, b) <= a.len(),
        common_prefix(a, b) <= b.len(),
        forall|i: int| 0 <= i < common_prefix(a, b) ==> a[i] == b[i],
        common_prefix(a, b) < a.len() && common_prefix(a, b) < b.len() ==> a[common_prefix(a, b) as int]
            != b[common_prefix(a, b) as int],
    decreases a.len(),
{
    if a.len() > 0 && b.len() > 0 && a[0] == b[0] {
        let (x, y) = (a.skip(1), b.skip(1));
        common_prefix_is_common(x, y);
        assert forall|i: int| 0 <= i < common_prefix(a, b) implies a[i] == b[i] by {
            if i > 0 {
                assert(x[i - 1] == y[i - 1]);
            }
        }
    }
}

/// No row is reused for a token that it was not made for, and none is run again that need not be: the reused rows
/// are those of the prompt's own tokens, and the next row differs, or the cache has no more, or only one token of
/// the prompt is left.
pub proof fn reuse_is_exact(ids: Seq<i64>, prompt: Seq<i64>)
    ensures
        ({
            let l = reusable(ids, prompt);
            &&& l <= ids.len()
            &&& forall|i: int| 0 <= i < l ==> ids[i] == prompt[i]
            &&& l == ids.len() || l + 1 >= prompt.len() || ids[l as int] != prompt[l as int]
        }),
{
    common_prefix_is_common(ids, prompt);
}

/// A conversation that goes on reuses every row of its cache: where the next prompt begins with the tokens of the
/// rows and has more behind them, all rows are reused.
pub proof fn growing_chat_reuses_all_rows(ids: Seq<i64>, suffix: Seq<i64>)
    requires
        suffix.len() > 0,
    ensures
        reusable(ids, ids + suffix) == ids.len(),
    decreases ids.len(),
{
    let prompt = ids + suffix;
    common_prefix_is_common(ids, prompt);
    let l = common_prefix(ids, prompt);
    if l < ids.len() {
        assert(prompt[l as int] == ids[l as int]);
    }
}

/// A text that follows the model is the start of the greedy one.
proof fn following_text_is_greedy(
    f: spec_fn(Seq<i64>) -> i64,
    prompt: Seq<i64>,
    limit: nat,
    eos: Seq<i64>,
    out: Seq<i64>,
)
    requires
        out.len() <= limit,
        follows_model(f, prompt, eos, out),
    ensures
        greedy(f, prompt, limit, eos) == out + greedy(f, prompt + out, (limit - out.len()) as nat, eos),
    decreases out.len(),
{
    if out.len() == 0 {
        assert(prompt + out =~= prompt);
        assert(out + greedy(f, prompt, limit, eos) =~= greedy(f, prompt, limit, eos));
    } else {
        let t = out[0];
        let rest = out.skip(1);
        assert(prompt + out.take(0) =~= prompt);
        assert(t == f(prompt) && !eos.contains(t));
        assert forall|i: int| 0 <= i < rest.len() implies #[trigger] rest[i] == f(prompt.push(t) + rest.take(i))
            && !eos.contains(rest[i]) by {
            assert(rest[i] == out[i + 1]);
            assert(prompt.push(t) + rest.take(i) =~= prompt + out.take(i + 1));
        }
        following_text_is_greedy(f, prompt.push(t), (limit - 1) as nat, eos, rest);
        assert(prompt.push(t) + rest =~= prompt + out);
        let more = greedy(f, prompt + out, (limit - out.len()) as nat, eos);
        assert(seq![t] + (rest + more) =~= out + more);
    }
}

/// What is streamed is the start of the greedy text, and all of it where the caller never stops.
pub proof fn streamed_text_is_greedy<E: Fn(i64) -> bool>(
    f: spec_fn(Seq<i64>) -> i64,
    prompt: Seq<i64>,
    limit: nat,
    eos: Seq<i64>,
    emit: E,
    out: Seq<i64>,
)
    requires
        is_streamed(f, prompt, limit, eos, emit, out),
    ensures
        out.len() <= greedy(f, prompt, limit, eos).len(),
        out == greedy(f, prompt, limit, eos).take(out.len() as int),
        never_stops(emit) ==> out == greedy(f, prompt, limit, eos),
{
    following_text_is_greedy(f, prompt, limit, eos, out);
    let more = greedy(f, prompt + out, (limit - out.len()) as nat, eos);
    assert((out + more).take(out.len() as int) =~= out);
    if never_stops(emit) {
        assert(more =~= Seq::empty());
        assert(out + more =~= out);
    }
}

/// The tokens up to the first one that is refused, and that one.
pub open spec fn until_refused(s: Seq<i64>, accepts: spec_fn(i64) -> bool) -> Seq<i64>
    decreases s.len(),
{
    if s.len() == 0 {
        Seq::empty()
    } else if !accepts(s[0]) {
        seq![s[0]]
    } else {
        seq![s[0]] + until_refused(s.skip(1), accepts)
    }
}

proof fn accepted_are_taken(s: Seq<i64>, n: int, accepts: spec_fn(i64) -> bool)
    requires
        0 <= n <= s.len(),
        forall|i: int| 0 <= i < n - 1 ==> accepts(#[trigger] s[i]),
        n < s.len() ==> n > 0 && !accepts(s[n - 1]),
    ensures
        until_refused(s, accepts) == s.take(n),
    decreases s.len(),
{
    if s.len() == 0 {
        assert(s.take(n) =~= Seq::empty());
    } else if !accepts(s[0]) {
        assert(s.take(n) =~= seq![s[0]]);
    } else {
        let t = s.skip(1);
        assert forall|i: int| 0 <= i < n - 2 implies accepts(#[trigger] t[i]) by {
            assert(t[i] == s[i + 1]);
        }
        if n < s.len() {
            assert(n > 1);
            assert(t[n - 2] == s[n - 1]);
        }
        accepted_are_taken(t, n - 1, accepts);
        assert(seq![s[0]] + t.take(n - 1) =~= s.take(n));
    }
}

/// Where the caller goes by the token, what is streamed is the greedy text up to the first token that is refused, and
/// that one.
pub proof fn refusal_ends_the_text<E: Fn(i64) -> bool>(
    f: spec_fn(Seq<i64>) -> i64,
    prompt: Seq<i64>,
    limit: nat,
    eos: Seq<i64>,
    emit: E,
    out: Seq<i64>,
    accepts: spec_fn(i64) -> bool,
)
    requires
        is_streamed(f, prompt, limit, eos, emit, out),
        forall|t: i64, b: bool| #[trigger] call_ensures(emit, (t,), b) ==> b == accepts(t),
    ensures
        out == until_refused(greedy(f, prompt, limit, eos), accepts),
{
    let all = greedy(f, prompt, limit, eos);
    streamed_text_is_greedy(f, prompt, limit, eos, emit, out);
    following_text_is_greedy(f, prompt, limit, eos, out);
    let n = out.len() as int;
    assert forall|i: int| 0 <= i < n - 1 implies accepts(#[trigger] all[i]) by {
        assert(all[i] == out[i]);
        assert(call_ensures(emit, (out[i],), true));
    }
    if n < all.len() {
        let more = greedy(f, prompt + out, (limit - out.len()) as nat, eos);
        assert(more.len() > 0);
        assert(all[n - 1] == out.last());
    } else if n > 0 {
        assert(n == all.len());
    }
    accepted_are_taken(all, n, accepts);
}

} // verus!
