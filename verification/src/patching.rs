//! Interchange experiments: a value is carried from one run of a model into another, and the answer shows whether
//! it was taken up. Here is where to patch, and how the numbers of an experiment are written down.
use vstd::prelude::*;
use crate::recursion_dl::Node;
use crate::recursion_probe::{collect_ops, ops_of};
use crate::text::{chars_of, parse_usize, string_of, usize_value};
use crate::value_flow::{bracket_span, collected_are_operators};

verus! {

/// The positions at which two runs differ, before `n`.
pub open spec fn differences(a: Seq<i64>, b: Seq<i64>, n: nat) -> Seq<usize>
    decreases n,
{
    if n == 0 {
        Seq::empty()
    } else {
        let rest = differences(a, b, (n - 1) as nat);
        if a[n - 1] != b[n - 1] { rest.push((n - 1) as usize) } else { rest }
    }
}

/// The binding site: the one position at which two runs of equal length differ.
pub open spec fn single_difference(a: Seq<i64>, b: Seq<i64>) -> Option<usize> {
    if a.len() == b.len() && differences(a, b, a.len()).len() == 1 {
        Some(differences(a, b, a.len())[0])
    } else {
        None
    }
}

pub fn binding_site(a: &[i64], b: &[i64]) -> (r: Option<usize>)
    ensures
        r == single_difference(a@, b@),
{
    let n: usize = a.len();
    if n != b.len() {
        return None;
    }
    let mut diff: Vec<usize> = Vec::new();
    for i in 0..n
        invariant
            n == a@.len() == b@.len(),
            diff@ == differences(a@, b@, i as nat),
    {
        if a[i] != b[i] {
            diff.push(i);
        }
    }
    if diff.len() == 1 { Some(diff[0]) } else { None }
}

/// The positions of a span, both ends included; none where it ends before it starts.
pub open spec fn span(open: usize, close: usize) -> Seq<usize> {
    if open <= close { Seq::new((close - open + 1) as nat, |i: int| (open + i) as usize) } else { Seq::empty() }
}

/// Where the left subexpression is patched: all over, or at its closing bracket only. `least` operators must be
/// there, with at least two of them.
pub open spec fn left_site(tree: &Node, least: nat, whole: bool) -> Option<Seq<usize>> {
    if ops_of(tree).len() < least {
        None
    } else {
        let (open, close) = bracket_span(*ops_of(tree)[1]);
        Some(if whole { span(open, close) } else { seq![close] })
    }
}

pub fn left_positions(tree: &Node, least: usize, whole: bool) -> (r: Option<Vec<usize>>)
    requires
        least >= 2,
    ensures
        match r {
            Some(v) => left_site(tree, least as nat, whole) == Some(v@),
            None => left_site(tree, least as nat, whole) is None,
        },
{
    let mut ops: Vec<&Node> = Vec::new();
    collect_ops(tree, &mut ops);
    assert(ops@ =~= ops_of(tree));
    if ops.len() < least {
        return None;
    }
    proof {
        collected_are_operators(tree);
        assert(*ops_of(tree)[1] is Op);
    }
    let mut v: Vec<usize> = Vec::new();
    if let Node::Op(_, _, _, open, close) = ops[1] {
        let (open, close): (usize, usize) = (*open, *close);
        if !whole {
            v.push(close);
            assert(v@ =~= seq![close]);
        } else if open <= close {
            let mut p: usize = open;
            while p < close
                invariant
                    open <= p <= close,
                    v@ == span(open, close).take(p - open),
                decreases close - p,
            {
                v.push(p);
                assert(v@ =~= span(open, close).take(p + 1 - open));
                p += 1;
            }
            v.push(close);
            assert(v@ =~= span(open, close));
        } else {
            assert(v@ =~= span(open, close));
        }
    }
    Some(v)
}

/// The numbers of a list with commas, after `num` was read of the first: entries that are no numbers are passed
/// over.
pub open spec fn list_numbers(s: Seq<char>, num: Seq<char>) -> Seq<usize>
    decreases s.len(),
{
    let here = match usize_value(num) {
        Some(v) => seq![v],
        None => Seq::empty(),
    };
    if s.len() == 0 {
        here
    } else if s[0] == ',' {
        here + list_numbers(s.skip(1), Seq::empty())
    } else {
        list_numbers(s.skip(1), num.push(s[0]))
    }
}

/// Reads a list of numbers with commas between them.
pub fn parse_list(text: &str) -> (r: Vec<usize>)
    ensures
        r@ == list_numbers(text@, Seq::empty()),
{
    let b = chars_of(text);
    let mut out: Vec<usize> = Vec::new();
    let mut num: Vec<char> = Vec::new();
    let mut i: usize = 0;
    assert(b@.skip(0) =~= b@);
    assert(out@ + list_numbers(b@, Seq::empty()) =~= list_numbers(b@, Seq::empty()));
    while i < b.len()
        invariant
            i <= b@.len(),
            out@ + list_numbers(b@.skip(i as int), num@) == list_numbers(b@, Seq::empty()),
        decreases b.len() - i,
    {
        let ghost s = b@.skip(i as int);
        let ghost was = out@;
        let ghost pending = num@;
        assert(s.skip(1) =~= b@.skip(i + 1));
        let c = b[i];
        if c == ',' {
            if let Some(v) = parse_usize(string_of(num.as_slice()).as_str()) {
                out.push(v);
            }
            num.clear();
            proof {
                let here = match usize_value(pending) {
                    Some(v) => seq![v],
                    None => Seq::empty(),
                };
                let rest = list_numbers(s.skip(1), Seq::empty());
                assert(num@ =~= Seq::empty());
                assert(out@ =~= was + here);
                assert(was + (here + rest) =~= out@ + rest);
            }
        } else {
            num.push(c);
        }
        i += 1;
    }
    let ghost was = out@;
    if let Some(v) = parse_usize(string_of(num.as_slice()).as_str()) {
        out.push(v);
    }
    assert(out@ =~= was + list_numbers(b@.skip(i as int), num@));
    out
}

/// The seed of one repetition of an experiment.
pub open spec fn repetition_seed(base: u64, i: u64) -> u64 {
    (base ^ ((i * 0x9E37_79B9_7F4A_7C15) % 0x1_0000_0000_0000_0000) as u64) | 1
}

/// Makes the seed of a repetition; it is never zero.
pub fn seed_for(base: u64, i: u64) -> (s: u64)
    ensures
        s == repetition_seed(base, i),
        s != 0,
{
    let k: u64 = i.wrapping_mul(0x9E37_79B9_7F4A_7C15);
    let x: u64 = base ^ k;
    assert(x | 1 != 0) by (bit_vector);
    x | 1
}

/// A 32-bit number as four bytes, the lowest first.
pub open spec fn le_bytes(n: u32) -> Seq<u8> {
    seq![
        (n % 256) as u8,
        (n / 256 % 256) as u8,
        (n / 65536 % 256) as u8,
        (n / 16777216 % 256) as u8,
    ]
}

fn push_le(out: &mut Vec<u8>, n: u32)
    ensures
        final(out)@ == old(out)@ + le_bytes(n),
{
    out.push((n % 256) as u8);
    out.push((n / 256 % 256) as u8);
    out.push((n / 65536 % 256) as u8);
    out.push((n / 16777216 % 256) as u8);
    assert(out@ =~= old(out)@ + le_bytes(n));
}

/// The start of a dump of residuals: a mark, the number of samples, the number of layers, and the width of each.
pub open spec fn dump_header_bytes(samples: u32, layers: u32, width: u32) -> Seq<u8> {
    seq![0x46u8, 0x52, 0x56, 0x50] + le_bytes(samples) + le_bytes(layers) + le_bytes(width)
}

pub fn dump_header(samples: u32, layers: u32, width: u32) -> (v: Vec<u8>)
    ensures
        v@ == dump_header_bytes(samples, layers, width),
{
    let mut v: Vec<u8> = vec![0x46, 0x52, 0x56, 0x50];
    push_le(&mut v, samples);
    push_le(&mut v, layers);
    push_le(&mut v, width);
    assert(v@ =~= dump_header_bytes(samples, layers, width));
    v
}

/// The start of a sample: the value, cut to 32 bits; which subexpression has it; and whether the model was right.
pub open spec fn sample_bytes(value: i64, role: u8, right: bool) -> Seq<u8> {
    le_bytes(value as u32) + seq![role, if right { 1u8 } else { 0 }]
}

pub fn sample_prefix(value: i64, role: u8, right: bool) -> (v: Vec<u8>)
    ensures
        v@ == sample_bytes(value, role, right),
{
    let mut v: Vec<u8> = Vec::new();
    push_le(&mut v, #[verifier::truncate] (value as u32));
    v.push(role);
    v.push(if right { 1u8 } else { 0 });
    assert(v@ =~= sample_bytes(value, role, right));
    v
}

/// The number that four bytes spell, the lowest first.
pub open spec fn le_value(b: Seq<u8>) -> int {
    b[0] + 256 * b[1] + 65536 * b[2] + 16777216 * b[3]
}

/// A number is read back from its bytes.
pub proof fn bytes_are_read_back(n: u32)
    ensures
        le_bytes(n).len() == 4,
        le_value(le_bytes(n)) == n,
{
    let (q0, q1, q2) = (n / 256, n / 65536, n / 16777216);
    assert(q1 == q0 / 256);
    assert(q2 == q1 / 256);
    assert(q2 < 256);
    assert(n == 256 * q0 + n % 256);
    assert(q0 == 256 * q1 + q0 % 256);
    assert(q1 == 256 * q2 + q1 % 256);
}

/// What was dumped is found again: the header is sixteen bytes, with the three numbers in its last twelve.
pub proof fn header_is_read_back(samples: u32, layers: u32, width: u32)
    ensures
        dump_header_bytes(samples, layers, width).len() == 16,
        le_value(dump_header_bytes(samples, layers, width).subrange(4, 8)) == samples,
        le_value(dump_header_bytes(samples, layers, width).subrange(8, 12)) == layers,
        le_value(dump_header_bytes(samples, layers, width).subrange(12, 16)) == width,
{
    let h = dump_header_bytes(samples, layers, width);
    bytes_are_read_back(samples);
    bytes_are_read_back(layers);
    bytes_are_read_back(width);
    assert(h.subrange(4, 8) =~= le_bytes(samples));
    assert(h.subrange(8, 12) =~= le_bytes(layers));
    assert(h.subrange(12, 16) =~= le_bytes(width));
}

proof fn differences_are_sound(a: Seq<i64>, b: Seq<i64>, n: nat)
    requires
        n <= a.len(),
        n <= b.len(),
        n <= usize::MAX,
    ensures
        forall|k: int| 0 <= k < differences(a, b, n).len() ==> (#[trigger] differences(a, b, n)[k]) < n && a[differences(
            a,
            b,
            n,
        )[k] as int] != b[differences(a, b, n)[k] as int],
        forall|i: int| 0 <= i < n && #[trigger] a[i] != b[i] ==> differences(a, b, n).contains(i as usize),
    decreases n,
{
    if n > 0 {
        let rest = differences(a, b, (n - 1) as nat);
        let all = differences(a, b, n);
        differences_are_sound(a, b, (n - 1) as nat);
        assert forall|i: int| 0 <= i < n && #[trigger] a[i] != b[i] implies all.contains(i as usize) by {
            if i < n - 1 {
                let k = choose|k: int| 0 <= k < rest.len() && rest[k] == i as usize;
                assert(all[k] == i as usize);
            } else {
                assert(all[all.len() - 1] == i as usize);
            }
        }
        assert forall|k: int| 0 <= k < all.len() implies (#[trigger] all[k]) < n && a[all[k] as int] != b[all[k] as int] by {
            if k < rest.len() {
                assert(all[k] == rest[k]);
            }
        }
    }
}

/// Patching the binding site leaves nothing else to differ: at every other position the two runs are the same.
pub proof fn binding_site_is_the_difference(a: Seq<i64>, b: Seq<i64>, p: usize)
    requires
        a.len() <= usize::MAX,
        single_difference(a, b) == Some(p),
    ensures
        p < a.len(),
        a[p as int] != b[p as int],
        b.update(p as int, a[p as int]) == a,
{
    let d = differences(a, b, a.len());
    differences_are_sound(a, b, a.len());
    assert(d[0] == p);
    assert forall|i: int| 0 <= i < a.len() && i != p implies a[i] == b[i] by {
        if a[i] != b[i] {
            let k = choose|k: int| 0 <= k < d.len() && d[k] == i as usize;
            assert(k == 0);
        }
    }
    assert(b.update(p as int, a[p as int]) =~= a);
}

/// The layers of a position one behind the other; a layer of another width counts as zeros.
pub open spec fn laid_out<T>(layers: Seq<Vec<T>>, width: nat, zero: T, n: nat) -> Seq<T>
    decreases n,
{
    if n == 0 {
        Seq::empty()
    } else {
        laid_out(layers, width, zero, (n - 1) as nat) + (if layers[n - 1]@.len() == width {
            layers[n - 1]@
        } else {
            Seq::new(width, |i: int| zero)
        })
    }
}

/// Lays the layers of a position out for a dump, in which every layer has the same width.
pub fn lay_out<T: Copy>(layers: &[Vec<T>], width: usize, zero: T) -> (flat: Vec<T>)
    ensures
        flat@ == laid_out(layers@, width as nat, zero, layers@.len()),
{
    let mut flat: Vec<T> = Vec::new();
    for l in 0..layers.len()
        invariant
            flat@ == laid_out(layers@, width as nat, zero, l as nat),
    {
        let ghost before = flat@;
        if layers[l].len() == width {
            for i in 0..width
                invariant
                    l < layers@.len(),
                    layers@[l as int]@.len() == width,
                    flat@ == before + layers@[l as int]@.take(i as int),
            {
                flat.push(layers[l][i]);
                assert(flat@ =~= before + layers@[l as int]@.take(i + 1));
            }
            assert(layers@[l as int]@.take(width as int) =~= layers@[l as int]@);
        } else {
            for i in 0..width
                invariant
                    flat@ == before + Seq::new(i as nat, |k: int| zero),
            {
                flat.push(zero);
                assert(flat@ =~= before + Seq::new((i + 1) as nat, |k: int| zero));
            }
        }
    }
    flat
}

/// The greatest length of a layer.
pub open spec fn widest_of<T>(layers: Seq<Vec<T>>, n: nat) -> nat
    decreases n,
{
    if n == 0 {
        0
    } else {
        let w = widest_of(layers, (n - 1) as nat);
        if layers[n - 1]@.len() > w { layers[n - 1]@.len() } else { w }
    }
}

/// The width of a dump: that of the widest layer.
pub fn widest<T>(layers: &[Vec<T>]) -> (w: usize)
    ensures
        w == widest_of(layers@, layers@.len()),
{
    let mut w: usize = 0;
    for l in 0..layers.len()
        invariant
            w == widest_of(layers@, l as nat),
    {
        if layers[l].len() > w {
            w = layers[l].len();
        }
    }
    w
}

proof fn laid_out_len<T>(layers: Seq<Vec<T>>, width: nat, zero: T, n: nat)
    ensures
        laid_out(layers, width, zero, n).len() == n * width,
    decreases n,
{
    if n > 0 {
        laid_out_len(layers, width, zero, (n - 1) as nat);
        assert(n * width == (n - 1) * width + width) by (nonlinear_arith)
            requires
                n > 0,
        ;
    } else {
        assert(0 * width == 0) by (nonlinear_arith);
    }
}

/// Every sample of a dump has as many numbers as its header says: one layer of the given width for each layer.
pub proof fn samples_have_one_size<T>(layers: Seq<Vec<T>>, width: nat, zero: T)
    ensures
        laid_out(layers, width, zero, layers.len()).len() == layers.len() * width,
{
    laid_out_len(layers, width, zero, layers.len());
}

} // verus!
