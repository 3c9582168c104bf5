//! The shape of a forward pass, apart from its numbers: what the configuration of each architecture means, which
//! positions see which, where keys and values lie in a cache, what the tensors are called, and which writes into
//! the residual stream there are.
use vstd::prelude::*;
use crate::text::{dec, push_usize};

verus! {

/// The sizes that the grouped-query architectures share.
#[derive(Clone, Copy, PartialEq, Eq, Structural)]
pub struct Heads {
    pub n_layer: usize,
    pub heads: usize,
    pub kv_heads: usize,
    pub head_dim: usize,
}

/// An entry of a configuration, as a size.
pub open spec fn size_at(config: Seq<i64>, i: int) -> usize {
    config[i] as usize
}

fn entry(config: &[i64], i: usize) -> (n: usize)
    requires
        i < config@.len(),
    ensures
        n == size_at(config@, i as int),
{
    #[verifier::truncate]
    (config[i] as usize)
}

/// The configuration of the RoPE family: layers, heads, key and value heads, head size, width, hidden size,
/// vocabulary, and whether the embedding is tied to the output.
#[derive(Clone, Copy, PartialEq, Eq, Structural)]
pub struct RopeShape {
    pub heads: Heads,
    pub tied: bool,
}

pub fn rope_shape(config: &[i64]) -> (s: RopeShape)
    requires
        config@.len() >= 8,
    ensures
        s.heads.n_layer == size_at(config@, 0),
        s.heads.heads == size_at(config@, 1),
        s.heads.kv_heads == size_at(config@, 2),
        s.heads.head_dim == size_at(config@, 3),
        s.tied == (config@[7] != 0),
{
    RopeShape {
        heads: Heads {
            n_layer: entry(config, 0),
            heads: entry(config, 1),
            kv_heads: entry(config, 2),
            head_dim: entry(config, 3),
        },
        tied: config[7] != 0,
    }
}

/// The configuration of the NeoX family: layers, heads, head size, width, hidden size, vocabulary, the rotated part
/// of a head, and whether attention and feed-forward read the same residual.
#[derive(Clone, Copy, PartialEq, Eq, Structural)]
pub struct NeoxShape {
    pub n_layer: usize,
    pub heads: usize,
    pub head_dim: usize,
    pub rotated: usize,
    pub parallel: bool,
}

pub fn neox_shape(config: &[i64]) -> (s: NeoxShape)
    requires
        config@.len() >= 8,
    ensures
        s.n_layer == size_at(config@, 0),
        s.heads == size_at(config@, 1),
        s.head_dim == size_at(config@, 2),
        s.rotated == size_at(config@, 6),
        s.parallel == (config@[7] != 0),
{
    NeoxShape {
        n_layer: entry(config, 0),
        heads: entry(config, 1),
        head_dim: entry(config, 2),
        rotated: entry(config, 6),
        parallel: config[7] != 0,
    }
}

/// The configuration of MiniMax: layers, heads, key and value heads, head size, width, vocabulary, tied, experts,
/// and how many of them a token is sent to.
#[derive(Clone, Copy, PartialEq, Eq, Structural)]
pub struct MiniMaxShape {
    pub heads: Heads,
    pub tied: bool,
    pub experts: usize,
    pub top_k: usize,
}

pub fn minimax_shape(config: &[i64]) -> (s: MiniMaxShape)
    requires
        config@.len() >= 9,
    ensures
        s.heads.n_layer == size_at(config@, 0),
        s.heads.heads == size_at(config@, 1),
        s.heads.kv_heads == size_at(config@, 2),
        s.heads.head_dim == size_at(config@, 3),
        s.tied == (config@[6] != 0),
        s.experts == size_at(config@, 7),
        s.top_k == size_at(config@, 8),
{
    MiniMaxShape {
        heads: Heads {
            n_layer: entry(config, 0),
            heads: entry(config, 1),
            kv_heads: entry(config, 2),
            head_dim: entry(config, 3),
        },
        tied: config[6] != 0,
        experts: entry(config, 7),
        top_k: entry(config, 8),
    }
}

/// The flags of the layers: one entry of the configuration for each, from `base` on.
pub open spec fn layer_flags(config: Seq<i64>, base: nat, n: nat) -> Seq<bool> {
    Seq::new(n, |l: int| config[base + l] != 0)
}

fn flags_from(config: &[i64], base: usize, n: usize) -> (v: Vec<bool>)
    requires
        base + n <= config@.len(),
    ensures
        v@ == layer_flags(config@, base as nat, n as nat),
{
    let len: usize = config.len();
    let mut v: Vec<bool> = Vec::new();
    for l in 0..n
        invariant
            base + n <= len == config@.len(),
            v@ == layer_flags(config@, base as nat, n as nat).take(l as int),
    {
        v.push(config[base + l] != 0);
        assert(v@ =~= layer_flags(config@, base as nat, n as nat).take(l + 1));
    }
    assert(v@ =~= layer_flags(config@, base as nat, n as nat));
    v
}

/// The configuration of Qwen3-MoE: layers, heads, key and value heads, head size, width, hidden size, vocabulary,
/// tied, experts, experts per token, expert size, whether their weights are normed, a flag for each layer that says
/// whether it has experts, and a window, which older bundles do not have.
pub struct Qwen3MoeShape {
    pub heads: Heads,
    pub width: usize,
    pub tied: bool,
    pub experts: usize,
    pub top_k: usize,
    pub expert_size: usize,
    pub norm_top_k: bool,
    pub has_experts: Vec<bool>,
    pub window: usize,
}

pub fn qwen3moe_shape(config: &[i64]) -> (s: Qwen3MoeShape)
    requires
        config@.len() >= 12,
        12 + size_at(config@, 0) <= config@.len(),
    ensures
        s.heads.n_layer == size_at(config@, 0),
        s.heads.heads == size_at(config@, 1),
        s.heads.kv_heads == size_at(config@, 2),
        s.heads.head_dim == size_at(config@, 3),
        s.width == size_at(config@, 4),
        s.tied == (config@[7] != 0),
        s.experts == size_at(config@, 8),
        s.top_k == size_at(config@, 9),
        s.expert_size == size_at(config@, 10),
        s.norm_top_k == (config@[11] != 0),
        s.has_experts@ == layer_flags(config@, 12, s.heads.n_layer as nat),
        s.window == (if config@.len() > 12 + s.heads.n_layer { size_at(config@, 12 + s.heads.n_layer) } else { 0 }),
{
    let len: usize = config.len();
    let n_layer: usize = entry(config, 0);
    let window: usize = if len > 12 + n_layer { entry(config, 12 + n_layer) } else { 0 };
    Qwen3MoeShape {
        heads: Heads { n_layer, heads: entry(config, 1), kv_heads: entry(config, 2), head_dim: entry(config, 3) },
        width: entry(config, 4),
        tied: config[7] != 0,
        experts: entry(config, 8),
        top_k: entry(config, 9),
        expert_size: entry(config, 10),
        norm_top_k: config[11] != 0,
        has_experts: flags_from(config, 12, n_layer),
        window,
    }
}

/// The configuration of Qwen3.5-MoE: layers, heads, key and value heads, head size, width, vocabulary, tied,
/// experts, experts per token, expert size, size of the shared expert, a flag that is not used, the value and key
/// heads of the linear layers with their sizes, the length of their convolution, and a flag for each layer that
/// says whether it is linear.
pub struct Qwen35MoeShape {
    pub heads: Heads,
    pub width: usize,
    pub tied: bool,
    pub experts: usize,
    pub top_k: usize,
    pub shared_size: usize,
    pub value_heads: usize,
    pub key_heads: usize,
    pub key_dim: usize,
    pub value_dim: usize,
    pub conv_len: usize,
    pub linear: Vec<bool>,
}

pub fn qwen35moe_shape(config: &[i64]) -> (s: Qwen35MoeShape)
    requires
        config@.len() >= 17,
        17 + size_at(config@, 0) <= config@.len(),
    ensures
        s.heads.n_layer == size_at(config@, 0),
        s.heads.heads == size_at(config@, 1),
        s.heads.kv_heads == size_at(config@, 2),
        s.heads.head_dim == size_at(config@, 3),
        s.width == size_at(config@, 4),
        s.tied == (config@[6] != 0),
        s.experts == size_at(config@, 7),
        s.top_k == size_at(config@, 8),
        s.shared_size == size_at(config@, 10),
        s.value_heads == size_at(config@, 12),
        s.key_heads == size_at(config@, 13),
        s.key_dim == size_at(config@, 14),
        s.value_dim == size_at(config@, 15),
        s.conv_len == size_at(config@, 16),
        s.linear@ == layer_flags(config@, 17, s.heads.n_layer as nat),
{
    let n_layer: usize = entry(config, 0);
    Qwen35MoeShape {
        heads: Heads { n_layer, heads: entry(config, 1), kv_heads: entry(config, 2), head_dim: entry(config, 3) },
        width: entry(config, 4),
        tied: config[6] != 0,
        experts: entry(config, 7),
        top_k: entry(config, 8),
        shared_size: entry(config, 10),
        value_heads: entry(config, 12),
        key_heads: entry(config, 13),
        key_dim: entry(config, 14),
        value_dim: entry(config, 15),
        conv_len: entry(config, 16),
        linear: flags_from(config, 17, n_layer),
    }
}

/// The configuration of the latent-attention architectures: layers, heads, width, the latent sizes of queries and of
/// keys and values, the plain and the rotated part of a key, the size of a value, vocabulary, tied, experts, shared
/// experts, experts per token, expert size, groups, kept groups, whether weights are normed, and the number of
/// dense layers at the start.
#[derive(Clone, Copy, PartialEq, Eq, Structural)]
pub struct MlaShape {
    pub n_layer: usize,
    pub heads: usize,
    pub width: usize,
    pub q_latent: usize,
    pub kv_latent: usize,
    pub key_plain: usize,
    pub key_rotated: usize,
    pub value_dim: usize,
    pub tied: bool,
    pub experts: usize,
    pub top_k: usize,
    pub groups: usize,
    pub top_groups: usize,
    pub norm_top_k: bool,
    pub dense_layers: usize,
}

pub fn mla_shape(config: &[i64]) -> (s: MlaShape)
    requires
        config@.len() >= 18,
    ensures
        s.n_layer == size_at(config@, 0),
        s.heads == size_at(config@, 1),
        s.width == size_at(config@, 2),
        s.q_latent == size_at(config@, 3),
        s.kv_latent == size_at(config@, 4),
        s.key_plain == size_at(config@, 5),
        s.key_rotated == size_at(config@, 6),
        s.value_dim == size_at(config@, 7),
        s.tied == (config@[9] != 0),
        s.experts == size_at(config@, 10),
        s.top_k == size_at(config@, 12),
        s.groups == size_at(config@, 14),
        s.top_groups == size_at(config@, 15),
        s.norm_top_k == (config@[16] != 0),
        s.dense_layers == size_at(config@, 17),
{
    MlaShape {
        n_layer: entry(config, 0),
        heads: entry(config, 1),
        width: entry(config, 2),
        q_latent: entry(config, 3),
        kv_latent: entry(config, 4),
        key_plain: entry(config, 5),
        key_rotated: entry(config, 6),
        value_dim: entry(config, 7),
        tied: config[9] != 0,
        experts: entry(config, 10),
        top_k: entry(config, 12),
        groups: entry(config, 14),
        top_groups: entry(config, 15),
        norm_top_k: config[16] != 0,
        dense_layers: entry(config, 17),
    }
}

/// A position sees itself and those before it; with a window, only the last `window` of them.
pub open spec fn sees(at: int, other: int, window: int) -> bool {
    other <= at && (window == 0 || other + window > at)
}

/// Whether the position `at` sees another; `window` is zero where there is none.
pub fn visible(at: usize, other: usize, window: usize) -> (r: bool)
    ensures
        r == sees(at as int, other as int, window as int),
{
    other <= at && (window == 0 || at - other < window)
}

/// The first position that `at` sees.
pub open spec fn first_seen(at: int, window: int) -> int {
    if window == 0 || window > at { 0 } else { at - window + 1 }
}

/// What a position sees is a range that ends with itself, at most as long as the window: no later token can change
/// what was computed for an earlier one, and every position sees itself.
pub proof fn sight_is_causal(at: int, other: int, window: int)
    requires
        0 <= at,
        0 <= other,
        0 <= window,
    ensures
        sees(at, other, window) == (first_seen(at, window) <= other <= at),
        0 <= first_seen(at, window) <= at,
        window > 0 ==> at - first_seen(at, window) + 1 <= window,
{
}

/// The head whose keys and values a query head reads, where groups of query heads share them.
pub open spec fn shared_head(head: int, heads: int, kv_heads: int) -> int {
    head / (heads / kv_heads)
}

pub fn kv_head(head: usize, heads: usize, kv_heads: usize) -> (kv: usize)
    requires
        0 < kv_heads <= heads,
    ensures
        kv == shared_head(head as int, heads as int, kv_heads as int),
{
    proof {
        assert(heads / kv_heads >= 1) by (nonlinear_arith)
            requires
                0 < kv_heads <= heads,
        ;
    }
    head / (heads / kv_heads)
}

/// Where the key and value heads divide the query heads, every query head reads one of them, and each of them is
/// read by a block of query heads that follow one another.
pub proof fn heads_are_shared_evenly(head: int, heads: int, kv_heads: int)
    requires
        0 < kv_heads,
        heads > 0,
        heads % kv_heads == 0,
        0 <= head < heads,
    ensures
        ({
            let kv = shared_head(head, heads, kv_heads);
            let rep = heads / kv_heads;
            0 <= kv < kv_heads && kv * rep <= head < (kv + 1) * rep
        }),
{
    let rep = heads / kv_heads;
    vstd::arithmetic::div_mod::lemma_fundamental_div_mod(heads, kv_heads);
    assert(heads == kv_heads * rep);
    assert(rep > 0) by (nonlinear_arith)
        requires
            heads == kv_heads * rep,
            heads > 0,
            kv_heads > 0,
    ;
    vstd::arithmetic::div_mod::lemma_fundamental_div_mod(head, rep);
    let kv = head / rep;
    assert(kv * rep <= head < (kv + 1) * rep && 0 <= kv < kv_heads) by (nonlinear_arith)
        requires
            head == rep * kv + head % rep,
            0 <= head % rep < rep,
            0 <= head < heads,
            heads == kv_heads * rep,
            rep > 0,
    ;
}

/// Where the number of channel `c` of a head at a position lies in a cache of bytes; a row has `heads` heads of
/// `width` channels.
pub open spec fn cell(pos: int, head: int, c: int, heads: int, width: int) -> int {
    pos * (heads * width) + head * width + c
}

/// Where the scale of a head at a position lies.
pub open spec fn scale_cell(pos: int, head: int, heads: int) -> int {
    pos * heads + head
}

/// The cells of a row lie in it, one behind the other, head by head.
pub proof fn cell_lies_in_its_row(pos: int, head: int, c: int, heads: int, width: int)
    requires
        0 <= pos,
        0 <= head < heads,
        0 <= c < width,
    ensures
        pos * (heads * width) <= cell(pos, head, c, heads, width) < (pos + 1) * (heads * width),
        pos * heads <= scale_cell(pos, head, heads) < (pos + 1) * heads,
{
    assert(0 <= head * width + c < heads * width) by (nonlinear_arith)
        requires
            0 <= head < heads,
            0 <= c < width,
    ;
    let row = heads * width;
    assert((pos + 1) * row == pos * row + row) by (nonlinear_arith);
    assert((pos + 1) * heads == pos * heads + heads) by (nonlinear_arith);
}

/// No two numbers share a cell.
pub proof fn cells_are_distinct(p: int, h: int, c: int, q: int, g: int, d: int, heads: int, width: int)
    requires
        0 <= p,
        0 <= q,
        0 <= h < heads,
        0 <= g < heads,
        0 <= c < width,
        0 <= d < width,
        cell(p, h, c, heads, width) == cell(q, g, d, heads, width),
    ensures
        p == q,
        h == g,
        c == d,
{
    cell_lies_in_its_row(p, h, c, heads, width);
    cell_lies_in_its_row(q, g, d, heads, width);
    let row = heads * width;
    assert(row > 0) by (nonlinear_arith)
        requires
            row == heads * width,
            heads > 0,
            width > 0,
    ;
    assert(p == q) by (nonlinear_arith)
        requires
            p * row < (q + 1) * row,
            q * row < (p + 1) * row,
            row > 0,
    ;
    assert(h * width + c == g * width + d);
    assert(h == g) by (nonlinear_arith)
        requires
            h * width + c == g * width + d,
            0 <= c < width,
            0 <= d < width,
    ;
}

/// The cell of a channel, in a cache of `rows` rows.
pub fn cache_cell(pos: usize, head: usize, c: usize, heads: usize, width: usize, rows: usize) -> (i: usize)
    requires
        pos < rows,
        head < heads,
        c < width,
        rows * (heads * width) <= usize::MAX,
    ensures
        i == cell(pos as int, head as int, c as int, heads as int, width as int),
        i < rows * (heads * width),
{
    proof {
        let (p, h, w, n, r) = (pos as int, head as int, width as int, heads as int, rows as int);
        cell_lies_in_its_row(p, h, c as int, n, w);
        let row = n * w;
        assert(0 <= h * w <= row && 0 <= p * row && (p + 1) * row <= r * row && row <= r * row) by (nonlinear_arith)
            requires
                0 <= h < n,
                0 < w,
                0 <= p < r,
                row == n * w,
        ;
    }
    pos * (heads * width) + head * width + c
}

/// The cell of a scale, in a cache of `rows` rows.
pub fn cache_scale(pos: usize, head: usize, heads: usize, rows: usize) -> (i: usize)
    requires
        pos < rows,
        head < heads,
        rows * heads <= usize::MAX,
    ensures
        i == scale_cell(pos as int, head as int, heads as int),
        i < rows * heads,
{
    proof {
        let (p, n, r) = (pos as int, heads as int, rows as int);
        assert(0 <= p * n && (p + 1) * n <= r * n && (p + 1) * n == p * n + n) by (nonlinear_arith)
            requires
                0 <= p < r,
                0 <= n,
        ;
    }
    pos * heads + head
}

/// The first of the late layers, the last third, where what is bound is read off.
pub open spec fn late_start(n_layer: int) -> int {
    2 * n_layer / 3
}

pub fn late0(n_layer: usize) -> (l: usize)
    requires
        2 * n_layer <= usize::MAX,
    ensures
        l == late_start(n_layer as int),
        l <= n_layer,
{
    2 * n_layer / 3
}

/// A write into the residual stream: the embedding, and in each layer attention and then feed-forward.
#[derive(Clone, Copy, PartialEq, Eq, Structural)]
pub enum Write {
    Embed,
    Attn(usize),
    Mlp(usize),
}

/// The number of a write, in the order in which they happen.
pub open spec fn write_index(w: Write) -> int {
    match w {
        Write::Embed => 0,
        Write::Attn(l) => 2 * l + 1,
        Write::Mlp(l) => 2 * l + 2,
    }
}

/// The write with a number, if a model of `n_layer` layers has one.
pub open spec fn write_at(block: nat, n_layer: nat) -> Option<Write> {
    if block == 0 {
        Some(Write::Embed)
    } else if block > 2 * n_layer {
        None
    } else if block % 2 == 1 {
        Some(Write::Attn(((block - 1) / 2) as usize))
    } else {
        Some(Write::Mlp(((block - 2) / 2) as usize))
    }
}

pub fn write_of(block: usize, n_layer: usize) -> (w: Option<Write>)
    ensures
        w == write_at(block as nat, n_layer as nat),
{
    if block == 0 {
        Some(Write::Embed)
    } else if (block - 1) / 2 >= n_layer {
        None
    } else if block % 2 == 1 {
        Some(Write::Attn((block - 1) / 2))
    } else {
        Some(Write::Mlp((block - 2) / 2))
    }
}

/// Writes and their numbers go together: the write of a number has that number, and every write of the model is
/// found under its number.
pub proof fn writes_are_numbered(block: nat, w: Write, n_layer: nat)
    requires
        n_layer <= usize::MAX,
    ensures
        write_at(block, n_layer) matches Some(v) ==> write_index(v) == block,
        (match w {
            Write::Embed => true,
            Write::Attn(l) => l < n_layer,
            Write::Mlp(l) => l < n_layer,
        }) ==> write_at(write_index(w) as nat, n_layer) == Some(w),
{
}

pub open spec fn write_label(w: Write) -> Seq<char> {
    match w {
        Write::Embed => "embed"@,
        Write::Attn(l) => "L"@ + dec(l as nat) + ".attn"@,
        Write::Mlp(l) => "L"@ + dec(l as nat) + ".mlp"@,
    }
}

/// The label of a write.
pub fn label_of(w: Write) -> (s: String)
    ensures
        s@ == write_label(w),
{
    let mut s = String::new();
    match w {
        Write::Embed => {
            s.append("embed");
            assert(s@ =~= write_label(w));
        },
        Write::Attn(l) => {
            s.append("L");
            push_usize(&mut s, l);
            s.append(".attn");
            assert(s@ =~= write_label(w));
        },
        Write::Mlp(l) => {
            s.append("L");
            push_usize(&mut s, l);
            s.append(".mlp");
            assert(s@ =~= write_label(w));
        },
    }
    s
}

/// A text is the label of the write with a number.
pub open spec fn labels_block(s: Seq<char>, block: nat, n_layer: nat) -> bool {
    write_at(block, n_layer) matches Some(w) && s == write_label(w)
}

/// The labels of all writes, in order.
pub fn block_labels(n_layer: usize) -> (v: Vec<String>)
    requires
        2 * n_layer + 1 <= usize::MAX,
    ensures
        v@.len() == 2 * n_layer + 1,
        forall|b: int|
            0 <= b < v@.len() ==> labels_block((#[trigger] v@[b])@, b as nat, n_layer as nat),
{
    let mut v: Vec<String> = Vec::new();
    for b in 0..2 * n_layer + 1
        invariant
            2 * n_layer + 1 <= usize::MAX,
            v@.len() == b,
            forall|i: int|
                0 <= i < b ==> labels_block((#[trigger] v@[i])@, i as nat, n_layer as nat),
    {
        if let Some(w) = write_of(b, n_layer) {
            v.push(label_of(w));
        }
    }
    v
}

/// The name of a tensor of a layer.
pub open spec fn layer_tensor_text(l: nat, part: Seq<char>) -> Seq<char> {
    "l"@ + dec(l) + "."@ + part
}

pub fn layer_tensor(l: usize, part: &str) -> (s: String)
    ensures
        s@ == layer_tensor_text(l as nat, part@),
{
    let mut s = String::new();
    s.append("l");
    push_usize(&mut s, l);
    s.append(".");
    s.append(part);
    assert(s@ =~= layer_tensor_text(l as nat, part@));
    s
}

/// The name of a tensor of an expert.
pub open spec fn expert_tensor_text(l: nat, e: nat, part: Seq<char>) -> Seq<char> {
    "l"@ + dec(l) + ".experts."@ + dec(e) + "."@ + part
}

pub fn expert_tensor(l: usize, e: usize, part: &str) -> (s: String)
    ensures
        s@ == expert_tensor_text(l as nat, e as nat, part@),
{
    let mut s = String::new();
    s.append("l");
    push_usize(&mut s, l);
    s.append(".experts.");
    push_usize(&mut s, e);
    s.append(".");
    s.append(part);
    assert(s@ =~= expert_tensor_text(l as nat, e as nat, part@));
    s
}

/// The tensor that turns a residual into scores: the embedding where it is tied, else a head of its own.
pub fn unembed_name(tied: bool) -> (s: &'static str)
    ensures
        s@ == (if tied { "embed"@ } else { "lm_head"@ }),
{
    if tied { "embed" } else { "lm_head" }
}

/// What is switched off in a layer: the entries of a list of pairs that belong to it.
pub open spec fn of_layer(list: Seq<(usize, usize)>, l: usize) -> Seq<usize>
    decreases list.len(),
{
    if list.len() == 0 {
        Seq::empty()
    } else {
        let rest = of_layer(list.drop_last(), l);
        if list.last().0 == l { rest.push(list.last().1) } else { rest }
    }
}

pub fn ablated_in(list: &[(usize, usize)], l: usize) -> (v: Vec<usize>)
    ensures
        v@ == of_layer(list@, l),
{
    let mut v: Vec<usize> = Vec::new();
    for i in 0..list.len()
        invariant
            v@ == of_layer(list@.take(i as int), l),
    {
        assert(list@.take(i + 1).drop_last() =~= list@.take(i as int));
        if list[i].0 == l {
            v.push(list[i].1);
        }
    }
    assert(list@.take(list.len() as int) =~= list@);
    v
}

/// The patches that apply: a donor replaces the residual at its position where there is such a position and the
/// donor has the width of the model. Pairs of position and index of the donor.
pub open spec fn applied_patches(positions: Seq<usize>, donor_lens: Seq<usize>, seq: nat, width: nat, n: nat) -> Seq<(usize, usize)>
    decreases n,
{
    if n == 0 {
        Seq::empty()
    } else {
        let rest = applied_patches(positions, donor_lens, seq, width, (n - 1) as nat);
        if positions[n - 1] < seq && donor_lens[n - 1] == width {
            rest.push((positions[n - 1], (n - 1) as usize))
        } else {
            rest
        }
    }
}

pub fn patches(positions: &[usize], donor_lens: &[usize], seq: usize, width: usize) -> (v: Vec<(usize, usize)>)
    ensures
        v@ == applied_patches(
            positions@,
            donor_lens@,
            seq as nat,
            width as nat,
            if positions@.len() < donor_lens@.len() { positions@.len() } else { donor_lens@.len() },
        ),
{
    let n: usize = if positions.len() < donor_lens.len() { positions.len() } else { donor_lens.len() };
    let mut v: Vec<(usize, usize)> = Vec::new();
    for i in 0..n
        invariant
            n <= positions@.len(),
            n <= donor_lens@.len(),
            v@ == applied_patches(positions@, donor_lens@, seq as nat, width as nat, i as nat),
    {
        if positions[i] < seq && donor_lens[i] == width {
            v.push((positions[i], i));
        }
    }
    v
}

/// The greatest level of a symmetric quantization to `bits` bits.
pub open spec fn levels(bits: nat) -> int {
    vstd::arithmetic::power2::pow2((bits - 1) as nat) - 1
}

pub fn quant_levels(bits: u8) -> (q: i32)
    requires
        1 <= bits <= 31,
    ensures
        q == levels(bits as nat),
{
    let mut q: i32 = 1;
    let mut i: u8 = 1;
    proof {
        vstd::arithmetic::power2::lemma2_to64();
    }
    while i < bits
        invariant
            1 <= i <= bits <= 31,
            q == vstd::arithmetic::power2::pow2((i - 1) as nat),
            q <= 0x4000_0000,
        decreases bits - i,
    {
        proof {
            vstd::arithmetic::power2::lemma_pow2_unfold(i as nat);
            vstd::arithmetic::power2::lemma2_to64();
            if i < 30 {
                vstd::arithmetic::power2::lemma_pow2_strictly_increases(i as nat, 30);
            }
            assert(vstd::arithmetic::power2::pow2(i as nat) <= 0x4000_0000);
        }
        q = q * 2;
        i += 1;
    }
    q - 1
}

/// A walk over a text with one growing cache: how many tokens to run ahead, and the first position to explain.
/// Every position from there to the end is explained in turn, by running the token before it.
pub fn stream_plan(start: usize) -> (r: (usize, usize))
    ensures
        r.0 == (if start > 1 { start - 1 } else { 0 }),
        r.1 == (if start > 1 { start as int } else { 1 }),
        r.0 == r.1 - 1,
{
    if start > 1 { (start - 1, start) } else { (0, 1) }
}

} // verus!
