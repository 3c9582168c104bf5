use fieldrun::asking::{collect_answer, decoded_number, leading_number, literals_in, Asking};
use fieldrun::battery::{
    best_fits, count_by_length, draw_asked, draw_list, expected, fit_of, list_fn, list_fn_name, list_fn_prime,
    list_question, push_joined, push_record, share_at_least, ListFn, Tally,
};
use fieldrun::discover::{
    basis, flat_question, induce_operator, inducible, op_name, rank, rename_symbol, table_score, taught_op, teach,
    HeldOut,
};
use fieldrun::measure::{effective_depth, measure_family, parse_str, two_level_family, Agg};
use fieldrun::patching::{binding_site, dump_header, left_positions, parse_list, sample_prefix, seed_for};
use fieldrun::recursion_dl::Abduction;
use fieldrun::value_flow::{
    answered_right, classify, closes, most_frequent, read_near, reading_positions, subexpressions, times_of, Cnt,
    ReadKind, Reading,
};

#[test]
fn an_answer_ends_with_its_line() {
    let pieces: Vec<String> = [" 4", "2", "!\n", "7"].iter().map(|s| s.to_string()).collect();
    assert_eq!(collect_answer(&pieces, 8).answer(), Some(42));
    assert_eq!(collect_answer(&pieces, 1).answer(), Some(4));
    assert_eq!(collect_answer(&pieces, 0).answer(), None);
    let mut a = Asking::new(2);
    assert!(a.wants_more() && a.feed("x"));
    assert!(a.wants_more() && a.feed("5"));
    assert!(!a.wants_more());
    assert_eq!(a.answer(), Some(5));
    let mut b = Asking::new(3);
    assert!(!b.feed("\n"));
    assert!(!b.wants_more());
}

#[test]
fn numbers_of_texts() {
    assert_eq!(leading_number("so 17, not 4"), Some(17));
    assert_eq!(leading_number("none"), None);
    assert_eq!(leading_number("99999999999999999999"), None);
    assert_eq!(literals_in("(+ 12 (* 3 4))"), vec![12, 3, 4]);
    assert_eq!(literals_in("99999999999999999999 5"), vec![5]);
    assert_eq!(decoded_number(" 8 "), Some(8));
    assert_eq!(decoded_number("-3"), Some(-3));
    assert_eq!(decoded_number("8x"), None);
}

#[test]
fn list_functions() {
    let l = [3, 7, 2, 5];
    let value = |f: ListFn| list_fn(f, &l);
    assert_eq!(value(ListFn::Last), Some(5));
    assert_eq!(value(ListFn::First), Some(3));
    assert_eq!(value(ListFn::Len), Some(4));
    assert_eq!(value(ListFn::Max), Some(7));
    assert_eq!(value(ListFn::Min), Some(2));
    assert_eq!(value(ListFn::Sum), Some(17));
    assert_eq!(value(ListFn::SumMod10), Some(7));
    assert_eq!(value(ListFn::Second), Some(7));
    assert_eq!(list_fn(ListFn::Second, &[1]), None);
    assert_eq!(list_fn(ListFn::Max, &[]), None);
    assert_eq!(list_fn(ListFn::Sum, &[]), Some(0));
    assert_eq!(expected(ListFn::Sum, &l), None);
    assert_eq!(expected(ListFn::Sum, &[4, 5]), Some(9));
}

#[test]
fn carry_shows_beyond_digits() {
    assert_eq!(list_fn(ListFn::Sum, &[9, 9]), Some(18));
    assert_eq!(list_fn(ListFn::SumMod10, &[9, 9]), Some(8));
    assert_eq!(list_fn(ListFn::Sum, &[4, 3]), list_fn(ListFn::SumMod10, &[4, 3]));
}

#[test]
fn questions_about_lists() {
    assert_eq!(list_fn_name(ListFn::Second), "2nd");
    assert_eq!(list_fn_prime(ListFn::Sum), "sum 3 1 2 = 6\nsum 4 0 1 = 5\nsum 2 3 1 = 6\n");
    assert_eq!(list_question(ListFn::Max, &[1, 8]), "max 3 7 2 5 = 7\nmax 1 8 4 = 8\nmax 6 0 9 2 = 9\nmax 1 8 =");
    let mut s = String::from(">");
    push_joined(&mut s, &[1, 2, 3], ',');
    assert_eq!(s, ">1,2,3");
    let mut d = String::new();
    push_record(&mut d, ListFn::Len, &[4, 4], 3, 2);
    assert_eq!(d, "{\"task\":\"len\",\"list\":[4,4],\"out\":3,\"truth\":2}\n");
}

#[test]
fn lists_are_drawn_until_they_have_an_answer() {
    let mut r = 17u64;
    for _ in 0..50 {
        let l = draw_list(2, 5, &mut r);
        assert!((2..=5).contains(&l.len()) && l.iter().all(|d| (0..=9).contains(d)));
        let mut left = 200;
        let (l, v) = draw_asked(ListFn::Sum, 2, 3, &mut left, &mut r).unwrap();
        assert_eq!(l.iter().sum::<i64>(), v);
        assert!(left < 200 && v <= 9);
    }
    let mut left = 0;
    let before = r;
    assert!(draw_asked(ListFn::Sum, 2, 3, &mut left, &mut r).is_none());
    assert_eq!(r, before);
}

#[test]
fn functions_that_fit_what_was_said() {
    let seen = vec![(vec![1, 2, 3], 3), (vec![5, 4], 4), (vec![7], 7)];
    assert_eq!(fit_of(ListFn::Last, &seen), (3, 3));
    assert_eq!(fit_of(ListFn::Second, &seen), (1, 2));
    assert!(share_at_least((3, 3), (1, 2)));
    assert!(!share_at_least((1, 3), (1, 2)));
    assert_eq!(best_fits(&[(3, 3), (1, 2), (2, 2)]), vec![true, false, true]);
    let mut t = Tally::new();
    t.count(true);
    t.count(false);
    assert_eq!((t.right, t.total), (1, 2));
    let mut by = vec![Tally::new(); 3];
    count_by_length(&mut by, 7, true);
    count_by_length(&mut by, 2, true);
    count_by_length(&mut by, 2, false);
    assert_eq!((by.len(), by[2].right, by[2].total, by[0].total), (3, 1, 2, 0));
}

#[test]
fn families_of_expressions() {
    let (ops, prime, maxv) = measure_family("bool", 9);
    assert_eq!((ops, maxv), (vec!['&', '|'], 1));
    assert!(prime.starts_with("(& 1 0) = 0\n"));
    assert_eq!(measure_family("other", 9).0, vec!['+', '-', '*']);
    assert_eq!(two_level_family("minmax", 5).0, vec!['<', '>']);
    assert_eq!((two_level_family("", 5).0, two_level_family("", 5).2), (vec!['+', '*', '-'], 5));
}

#[test]
fn answers_are_counted_by_depth() {
    let clean = Some(Abduction { depth: 2, cuts: vec![] });
    let cut = Some(Abduction { depth: 1, cuts: vec![(2, 3, true)] });
    let mut a = Agg::new();
    a.record(true, &clean, 2);
    a.record(false, &cut, 2);
    a.record(false, &None, 2);
    assert_eq!((a.n, a.correct, a.err, a.faithful, a.semi), (3, 1, 2, 2, 1));
    assert_eq!((a.clean, a.cut, a.err_cut, a.sumd), (1, 1, 1, 3));
    let mut b = Agg::new();
    b.record(true, &clean, 2);
    b.merge(&a);
    assert_eq!((b.n, b.correct, b.sumd), (4, 2, 2));
    assert_eq!(effective_depth(&[Agg::new(), b, a]), 1);
    assert_eq!(effective_depth(&[Agg::new(), a]), 0);
}

#[test]
fn an_operator_is_discovered_from_its_table() {
    let seen: Vec<(i64, i64, i64)> = (0..6).flat_map(|a| (1..6).map(move |b| (a, b, a * b))).collect();
    let d = induce_operator(&seen);
    assert_eq!(d.ranked[0], ('*', 30, 30));
    assert!(d.inducible);
    assert_eq!(d.ranked.len(), basis().len());
    let odd: Vec<(i64, i64, i64)> = vec![(1, 2, 77), (3, 4, 78)];
    assert!(!induce_operator(&odd).inducible);
    assert_eq!(table_score('-', &[(1, 2, 0), (5, 2, 3), (5, 2, 4)]), (1, 2));
    assert_eq!(rank(&[(1, 2), (2, 2), (0, 0), (1, 2)]), vec![1, 0, 3, 2]);
    assert!(inducible(19, 20, 40));
    assert!(!inducible(18, 20, 40));
    assert!(!inducible(0, 0, 0));
}

#[test]
fn a_symbol_is_taught() {
    let mut r = 21u64;
    let t = teach('@', '+', 9, &mut r);
    assert_eq!(t.lines().count(), 8);
    for line in t.lines() {
        let (e, v) = line.split_once(" = ").unwrap();
        let n = parse_str(&rename_symbol(e, '@', '+')).unwrap();
        assert_eq!(fieldrun::recursion_probe::true_eval(&n), v.parse().ok());
    }
    assert_eq!(teach('@', '&', -0, &mut r).lines().count(), 8);
    assert_eq!(flat_question("p\n", '@', 3, 4), "p\n(@ 3 4) =");
    assert_eq!((taught_op('*'), taught_op('?')), ('*', '+'));
    assert_eq!((op_name('%'), op_name('?')), ("mod", ""));
    assert_eq!(rename_symbol("(@ 1 (@ 2 3))", '@', '*'), "(* 1 (* 2 3))");
}

#[test]
fn held_out_expressions_are_counted() {
    let mut h = HeldOut::new();
    h.record(&Some(Abduction { depth: 2, cuts: vec![] }), 2);
    h.record(&Some(Abduction { depth: 1, cuts: vec![] }), 2);
    h.record(&None, 2);
    assert_eq!((h.n, h.faithful, h.clean), (3, 2, 1));
}

#[test]
fn values_are_read_near_closing_brackets() {
    let n = parse_str("(+ (* 2 3) (- 5 1))").unwrap();
    let ops = subexpressions(&n).unwrap();
    assert_eq!(ops.len(), 3);
    assert!(subexpressions(&parse_str("(+ 1 2)").unwrap()).is_none());
    assert_eq!(closes(&ops), vec![0, 0, 0]);
    assert_eq!(reading_positions(&[5, 6, 9]), vec![3, 4, 5, 6, 7, 8, 9]);
    let at = |token: i64, value: Option<i64>| Reading { token, value };
    let reads = vec![
        vec![at(1, Some(6)), at(2, Some(6))],
        vec![at(3, Some(4)), at(3, Some(4)), at(3, Some(4))],
        vec![at(4, None)],
    ];
    // Position 4 predicts the token that follows it, so nothing is held there.
    let ids = [0, 0, 0, 0, 0, 3, 0];
    assert_eq!(read_near(&[3, 4, 5], &reads, &ids, 5), Some((6, 2, 2)));
    assert_eq!(read_near(&[3, 4, 5], &reads, &[], 5), Some((4, 1, 3)));
    assert_eq!(read_near(&[3, 4, 5], &reads, &ids, 9), None);
}

#[test]
fn readings_are_classified() {
    assert!(classify(None, Some(6), &[2, 3], None) == ReadKind::Nothing);
    assert!(classify(Some(6), Some(6), &[2, 3], Some(6)) == ReadKind::Textbook);
    assert!(classify(Some(3), Some(6), &[2, 3], Some(3)) == ReadKind::Operand);
    assert!(classify(Some(9), Some(6), &[2, 3], Some(9)) == ReadKind::Answer);
    assert!(classify(Some(8), Some(6), &[2, 3], Some(9)) == ReadKind::Other);
    let mut c = Cnt::new();
    for k in [ReadKind::Nothing, ReadKind::Textbook, ReadKind::Textbook, ReadKind::Other] {
        c.record(k);
    }
    assert_eq!((c.n, c.none, c.textbook, c.operand, c.answer, c.other), (4, 1, 2, 0, 0, 1));
    assert!(answered_right(Some(3), Some(3)));
    assert!(!answered_right(None, None));
    assert_eq!(times_of(&[1, 2, 1], 1), 2);
    assert_eq!(most_frequent(&[1, 2, 1]), Some((1, 2)));
    assert_eq!(most_frequent(&[]), None);
}

#[test]
fn the_binding_site_is_the_one_difference() {
    assert_eq!(binding_site(&[1, 2, 3], &[1, 9, 3]), Some(1));
    assert_eq!(binding_site(&[1, 2, 3], &[1, 9, 4]), None);
    assert_eq!(binding_site(&[1, 2], &[1, 2]), None);
    assert_eq!(binding_site(&[1, 2], &[1, 2, 3]), None);
}

#[test]
fn the_left_operand_is_patched() {
    let pieces: Vec<String> = ["(+", " (*", " 2", " 3", ")", " (-", " 5", " 1", "))"].iter().map(|s| s.to_string()).collect();
    let n = fieldrun::recursion_dl::parse_target(&fieldrun::recursion_probe::atomize_ids(&pieces)).unwrap();
    assert_eq!(left_positions(&n, 3, true), Some(vec![1, 2, 3, 4]));
    assert_eq!(left_positions(&n, 3, false), Some(vec![4]));
    assert_eq!(left_positions(&n, 4, false), None);
}

#[test]
fn lists_seeds_and_dumps() {
    assert_eq!(parse_list("1,x,30,,4"), vec![1, 30, 4]);
    assert_eq!(parse_list(""), Vec::<usize>::new());
    assert_eq!(seed_for(6, 0), 7);
    assert_eq!(seed_for(0, 1), 0x9E37_79B9_7F4A_7C15);
    assert_eq!(dump_header(1, 258, 65536), vec![0x46, 0x52, 0x56, 0x50, 1, 0, 0, 0, 2, 1, 0, 0, 0, 0, 1, 0]);
    assert_eq!(sample_prefix(-1, 2, true), vec![255, 255, 255, 255, 2, 1]);
    assert_eq!(sample_prefix(300, 0, false), vec![44, 1, 0, 0, 0, 0]);
}
