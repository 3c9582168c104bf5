use fieldrun::battery::Tally;
use fieldrun::model::{
    build_rec_lens_at, build_rec_trace, copy_prefix, has_token, Decoding, Model, PrefixKv, Step, Streaming,
};
use fieldrun::prefix_decode::{decode_over, prefix_generate, prefix_generate_q, ByteRows, PlainRows};
use fieldrun::shortcircuit::{drift, gate, gate_order, gate_tally, hybrid_cost, source_order, Hybrid, Lookup};
use fieldrun::working_set::{hub, private_circuits, working_set, Circuit};

/// A model that counts on from the last token.
struct Counting;

impl Model for Counting {
    fn predict(&self, ids: &[i64]) -> i64 {
        match ids.last() {
            Some(t) => t + 1,
            None => 0,
        }
    }
}

#[test]
fn generation_follows_the_model() {
    assert_eq!(Counting.generate(&[4], 3), vec![5, 6, 7]);
    assert_eq!(Counting.generate(&[], 2), vec![0, 1]);
    assert_eq!(Counting.generate(&[4], 0), Vec::<i64>::new());
    assert_eq!(Counting.generate_stream(&[4], 9, &[7, 8], &|_t| true), vec![5, 6]);
    assert_eq!(Counting.generate_stream(&[4], 1, &[7, 8], &|_t| true), vec![5]);
    assert_eq!(Counting.generate_stream(&[4], usize::MAX, &[7, 8], &|_t| true), vec![5, 6]);
}

#[test]
fn a_stream_ends_with_the_refused_token() {
    let told = std::cell::RefCell::new(Vec::new());
    let emit = |t: i64| -> bool {
        told.borrow_mut().push(t);
        t != 7
    };
    assert_eq!(Counting.generate_stream(&[4], 9, &[], &emit), vec![5, 6, 7]);
    assert_eq!(*told.borrow(), vec![5, 6, 7]);
    assert_eq!(Counting.generate_stream(&[4], 0, &[], &emit), Vec::<i64>::new());
    assert_eq!(told.borrow().len(), 3);
    let mut kept: PrefixKv<Vec<i64>, i64> = PrefixKv::new();
    kept.ids.push(4);
    assert_eq!(Counting.generate_stream_prefix(&[4], 2, &[], &|_t| true, &mut kept), vec![5, 6]);
    assert!(kept.ids.is_empty());
}

/// A model that adds up all tokens, modulo ten.
struct Adding;

impl Model for Adding {
    fn predict(&self, ids: &[i64]) -> i64 {
        (ids.iter().sum::<i64>() + 3) % 10
    }
}

/// Rows of two cells for each of two layers: the token, and the sum of all tokens up to it. Runs tokens over them, and
/// leaves the last sum.
fn add_rows(ids: &[i64], cur: usize, mut rows: PlainRows<i64>) -> (PlainRows<i64>, i64) {
    let mut sum = if cur == 0 { 0 } else { rows.k[0][2 * cur - 1] };
    for (i, &t) in ids.iter().enumerate() {
        sum += t;
        for layer in rows.k.iter_mut().chain(rows.v.iter_mut()) {
            layer[2 * (cur + i)] = t;
            layer[2 * (cur + i) + 1] = sum;
        }
    }
    (rows, sum)
}

fn fresh_rows(n: usize) -> PlainRows<i64> {
    PlainRows { k: vec![vec![0; 2 * n]; 2], v: vec![vec![0; 2 * n]; 2] }
}

fn next_of(sum: &i64, _ctx: &[i64]) -> i64 {
    (sum + 3) % 10
}

#[test]
fn the_cached_loop_gives_the_same_text() {
    let (out, kept, rows) = decode_over(&[4, 1], 5, &[], &|_t| true, 0, fresh_rows(7), &add_rows, &next_of);
    assert_eq!(out, Adding.generate(&[4, 1], 5));
    assert_eq!(kept, [vec![4, 1], out.clone()].concat());
    assert_eq!(rows.v[1][..4], [4, 4, 1, 5]);
    assert_eq!(rows.v[1][12..], [out[4], kept.iter().sum::<i64>()]);
    // 8 ends the text, and the caller stops it.
    assert_eq!(decode_over(&[4, 1], 5, &[8], &|_t| true, 0, fresh_rows(7), &add_rows, &next_of).0, Vec::<i64>::new());
    let (out, kept, rows) = decode_over(&[4, 1], 5, &[], &|_t| false, 0, fresh_rows(7), &add_rows, &next_of);
    assert_eq!((out, kept), (vec![8], vec![4, 1, 8]));
    assert_eq!(rows.k[0][4..8], [8, 13, 0, 0]);
    // Without a token that is wanted the prompt runs, and nothing is put out.
    let silent = |_t: i64| -> bool { unreachable!() };
    let (none, ran, _) = decode_over(&[4, 1], 0, &[], &silent, 0, fresh_rows(2), &add_rows, &next_of);
    assert_eq!((none, ran), (vec![], vec![4, 1]));
}

#[test]
fn a_warm_cache_gives_the_same_text_as_a_cold_one() {
    let mut warm: PrefixKv<Vec<i64>, i64> = PrefixKv::new();
    let first = prefix_generate(&[4, 1], 4, &[], |_t| true, &mut warm, 2, fresh_rows, add_rows, next_of);
    assert_eq!(first, Adding.generate(&[4, 1], 4));
    assert_eq!(warm.ids, [vec![4, 1], first.clone()].concat());
    let longer: Vec<i64> = [vec![4, 1], first[..2].to_vec(), vec![7]].concat();
    assert_eq!(warm.reuse_len(&longer), 4);
    // Only what is new runs.
    let runs = std::cell::RefCell::new(Vec::new());
    let counted = |ids: &[i64], cur: usize, rows: PlainRows<i64>| {
        runs.borrow_mut().push((cur, ids.len()));
        add_rows(ids, cur, rows)
    };
    let again = prefix_generate(&longer, 3, &[], |_t| true, &mut warm, 2, fresh_rows, counted, next_of);
    assert_eq!(runs.into_inner(), vec![(4, 1), (5, 1), (6, 1), (7, 1)]);
    let mut cold: PrefixKv<Vec<i64>, i64> = PrefixKv::new();
    let fresh = prefix_generate(&longer, 3, &[], |_t| true, &mut cold, 2, fresh_rows, add_rows, next_of);
    assert_eq!((again.clone(), warm.kc, warm.ids), (fresh, cold.kc, cold.ids));
    assert_eq!(again, Adding.generate(&longer, 3));
}

#[test]
fn a_cache_of_bytes_is_reused_too() {
    let alloc = |n: usize| ByteRows { k: vec![vec![0i8; n]], v: vec![vec![0; 2 * n]], ks: vec![vec![0u8; n]], vs: vec![vec![0; n]] };
    let run = |ids: &[i64], cur: usize, mut rows: ByteRows<u8>| {
        for (i, &t) in ids.iter().enumerate() {
            rows.k[0][cur + i] = t as i8;
            rows.v[0][2 * (cur + i)] = t as i8;
            rows.ks[0][cur + i] = 1;
        }
        let n = cur + ids.len();
        let sum: i64 = (0..n).map(|p| rows.k[0][p] as i64 * rows.ks[0][p] as i64).sum();
        (rows, sum)
    };
    let mut kept: PrefixKv<(), u8> = PrefixKv::new();
    let first = prefix_generate_q(&[4, 1], 4, &[], |_t| true, &mut kept, 1, alloc, run, next_of);
    assert_eq!(first, Adding.generate(&[4, 1], 4));
    let longer: Vec<i64> = [vec![4, 1], first, vec![2]].concat();
    assert_eq!(kept.reuse_len(&longer), 6);
    assert_eq!(prefix_generate_q(&longer, 3, &[], |_t| true, &mut kept, 1, alloc, run, next_of), Adding.generate(&longer, 3));
    assert_eq!((kept.kc_q[0].len(), kept.vc_q[0].len(), kept.ks_q[0].len()), (10, 20, 10));
}

#[test]
fn a_text_is_streamed_token_by_token() {
    let mut d = Streaming::start(&[1], 3);
    assert!(d.wants_token() && d.offer(2, &[9]));
    d.resume(true);
    assert_eq!(d.context_ids(), &[1, 2]);
    assert!(d.offer(3, &[9]));
    d.resume(false);
    assert!(!d.wants_token());
    assert_eq!(d.finish(), vec![2, 3]);
    let mut e = Streaming::start(&[1], 3);
    assert!(!e.offer(9, &[9]));
    assert!(!e.wants_token());
    assert!(!Streaming::start(&[1], 0).wants_token());
    assert!(has_token(&[1, 2], 2) && !has_token(&[], 2));
}

#[test]
fn a_cached_loop_tells_what_to_run() {
    let mut d = Decoding::start(&[1, 2], 2);
    assert!(d.offer(7, &[9]));
    assert!(d.resume(true) == Step::Run(7, 2));
    assert_eq!(d.context_ids(), &[1, 2, 7]);
    assert!(d.offer(8, &[9]));
    assert!(d.resume(true) == Step::Last(8, 3));
    assert_eq!(d.finish(), (vec![7, 8], vec![1, 2, 7, 8]));
    let mut e = Decoding::start(&[1, 2], 5);
    assert!(e.offer(7, &[9]));
    assert!(e.resume(false) == Step::Last(7, 2));
}

#[test]
fn rows_of_a_prefix_are_reused() {
    let mut c: PrefixKv<f32, f32> = PrefixKv::new();
    assert_eq!(c.reuse_len(&[1, 2]), 0);
    c.ids = vec![1, 2, 3];
    assert_eq!(c.reuse_len(&[1, 2, 9, 9]), 2);
    assert_eq!(c.reuse_len(&[1, 2, 3, 4]), 3);
    assert_eq!(c.reuse_len(&[1, 2, 3]), 2);
    assert_eq!(c.reuse_len(&[]), 0);
    c.clear();
    assert!(c.ids.is_empty());
    let mut dst = vec![0, 0, 0, 0, 0, 0];
    copy_prefix(&mut dst, &[1, 2, 3, 4, 9], 2, 3);
    assert_eq!(dst, vec![1, 2, 3, 4, 0, 0]);
}

#[test]
fn a_recursion_is_traced() {
    let lens = vec![vec![5, 1, 1, 1], vec![2, 7, 1, 1], vec![2, 7, 8, 1]];
    let weights = vec![vec![0, 0, 0, 0], vec![9, 0, 0, 0], vec![9, 9, 0, 0], vec![1, 1, 4, 0]];
    let t = build_rec_trace(&lens, &weights, 2);
    assert_eq!(t.len(), 3);
    assert_eq!((t[0].final_top1, t[0].resolve_layer, t[1].resolve_layer, t[2].resolve_layer), (2, 2, 2, 3));
    assert_eq!(t[1].lens_full, vec![(1, 1), (2, 7), (3, 7)]);
    assert_eq!(t[1].lens_late, vec![(3, 7)]);
    // The first two positions bind nothing, so nothing is looked back at.
    assert_eq!((t[2].back, t[2].conc), (2, 0));
    assert!(build_rec_trace(&lens, &[], 2).is_empty());
}

#[test]
fn a_trace_looks_back_at_the_first_greatest() {
    let n = 6;
    let lens = vec![vec![0; n]];
    let mut weights = vec![vec![0u32; n]; n];
    weights[4] = vec![90, 80, 7, 7, 0, 0];
    let t = build_rec_trace(&lens, &weights, 0);
    assert_eq!((t[4].back, t[4].conc), (2, 7));
}

#[test]
fn late_layers_are_read_at_positions() {
    let out = build_rec_lens_at(&[4, 4, 2], &[1, 3, 9], 1, |l, p| (10 * l + p) as i64);
    assert_eq!(out, vec![vec![(2, 11), (3, 21)], vec![(2, 13)], vec![]]);
}

#[test]
fn lookups_are_gated() {
    assert_eq!(source_order("induction-3"), 4);
    assert_eq!(source_order("quad"), 3);
    assert_eq!(source_order("trigram"), 2);
    assert_eq!(source_order("bigram"), 1);
    assert_eq!(source_order("unigram"), 0);
    assert_eq!((gate_order("induction"), gate_order("tri"), gate_order("any")), (4, 2, 0));
    let ls = [
        Lookup { order: 4, fan: 1, right: true },
        Lookup { order: 2, fan: 1, right: false },
        Lookup { order: 2, fan: 9, right: true },
    ];
    assert!(gate(ls[0], 4, 1) && !gate(ls[1], 3, 1) && !gate(ls[2], 2, 8));
    assert!(gate_tally(&ls, 2, 4) == Tally { right: 1, total: 2 });
    assert!(gate_tally(&ls, 3, 4) == Tally { right: 1, total: 1 });
    assert_eq!(hybrid_cost(&[(ls[0], 1, 100), (ls[1], 2, 100)], 3, 1), 103);
}

#[test]
fn trajectories_are_compared() {
    assert_eq!(drift(&[1, 2, 3, 4], &[1, 2, 9, 4]), (2, 3));
    assert_eq!(drift(&[], &[]), (0, 0));
}

#[test]
fn lookups_are_written_in_place_of_decisions() {
    let mut h = Hybrid::start(&[1]);
    h.write(Some(2), 2);
    h.write(None, 3);
    h.write(Some(9), 4);
    assert_eq!(h.context_ids(), &[1, 2, 3, 9]);
    assert_eq!(h.finish(), (vec![2, 3, 9], 2, 1));
}

#[test]
fn faithful_lookups_change_nothing() {
    let mut h = Hybrid::start(&[4]);
    for i in 0..3 {
        let t = Counting.predict(h.context_ids());
        h.write(if i == 1 { Some(t) } else { None }, t);
    }
    assert_eq!(h.finish().0, Counting.generate(&[4], 3));
}

#[test]
fn circuits_of_a_query() {
    let c = |idx: usize| Circuit { kind: 0, layer: 1, idx };
    let w = working_set(&[vec![c(1), c(2)], vec![c(2)], vec![c(2), c(3), c(3)]]);
    assert_eq!((w.total, w.most, w.circuits.len()), (6, 3, 3));
    assert_eq!(w.circuits.iter().map(|x| x.1).sum::<usize>(), w.total);
    assert_eq!(private_circuits(&w.circuits), 1);
    let h = hub(&w.circuits, 2);
    assert_eq!(h.iter().map(|x| (x.0.idx, x.1)).collect::<Vec<_>>(), vec![(2, 3), (3, 2)]);
    assert_eq!(working_set(&[]).most, 0);
}
