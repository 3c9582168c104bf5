use fieldrun::attribution::{
    agreement, attribute, buckets, context_only, count_rule, coverage, plurality, route, RankCounts, Route, RouteCounts,
};
use fieldrun::capture::{by_frequency, capture};
use fieldrun::retrieval::{
    context_candidates, dedup, default_min_accept, default_min_induction, CandCfg, Store,
};

fn table(rows: &[(&str, &[i64])]) -> Vec<(String, Vec<i64>)> {
    rows.iter().map(|(k, v)| (k.to_string(), v.to_vec())).collect()
}

fn store(bi: &[(&str, &[i64])], uni: &[i64], closed: &[i64]) -> Store {
    Store::new(vec![], vec![], table(bi), uni.to_vec(), None, None, closed.to_vec(), vec![])
}

fn cfg() -> CandCfg {
    CandCfg { recent: 4, induction: 0, quad: 0, tri: 0, bi: 3, skel: 0, uni: 1, closed: true }
}

#[test]
fn induction_copies_token_after_recurrence() {
    // "1 2 3 1 2": the last "1 2" recurred at the start; what followed it there is predicted.
    let s = store(&[], &[0], &[]);
    let (p, tag) = s.predict(&[1, 2, 3, 1, 2]);
    assert_eq!(p, 3);
    assert!(tag.starts_with("induction"), "got {tag}");
}

#[test]
fn ngram_bigram_fallback_when_no_induction() {
    let s = store(&[("5", &[9])], &[0], &[]);
    let (p, tag) = s.predict(&[7, 5]);
    assert_eq!((p, tag.as_str()), (9, "bigram"));
}

#[test]
fn unigram_is_the_floor() {
    let s = store(&[], &[42], &[]);
    let (p, tag) = s.predict(&[7]);
    assert_eq!((p, tag.as_str()), (42, "unigram"));
}

#[test]
fn context_candidates_recent_and_induction() {
    let mut out = Vec::new();
    context_candidates(&[1, 2, 3, 1, 2], 3, 2, &mut out);
    assert!(out.contains(&2) && out.contains(&1) && out.contains(&3));
    let mut out2 = Vec::new();
    context_candidates(&[9, 8, 7], 1, 4, &mut out2);
    assert_eq!(out2[0], 7);
}

#[test]
fn candidates_union_dedups_and_includes_ngrams() {
    let s = store(&[("2", &[9, 2, 5])], &[42], &[7]);
    let c = s.candidates(&[1, 2], &cfg());
    assert!(c.contains(&9) && c.contains(&5) && c.contains(&7) && c.contains(&42));
    assert_eq!(c.iter().filter(|&&t| t == 2).count(), 1, "deduped");
}

#[test]
fn candidates_come_in_the_order_of_their_sources() {
    let s = store(&[("2", &[9, 2, 5])], &[42], &[7]);
    assert_eq!(s.candidates(&[1, 2], &cfg()), vec![2, 1, 9, 5, 7, 42]);
}

#[test]
fn longer_contexts_win() {
    let s = Store::new(
        table(&[("1,2,3", &[40])]),
        table(&[("2,3", &[30])]),
        table(&[("3", &[20])]),
        vec![10],
        None,
        None,
        vec![],
        vec![],
    );
    assert_eq!(s.predict(&[1, 2, 3]), (40, "quad".to_string()));
    assert_eq!(s.predict(&[9, 2, 3]), (30, "trigram".to_string()));
    assert_eq!(s.predict(&[9, 9, 8, 3]), (20, "bigram".to_string()));
    assert_eq!(s.predict(&[8]), (10, "unigram".to_string()));
    assert!(s.try_predict(&[]).is_none());
}

#[test]
fn the_longest_recurring_tail_is_copied() {
    // "1 2 3 4" recurs at the start; "2 3 4" alone recurs later.
    let s = store(&[], &[0], &[]);
    let ctx = [1, 2, 3, 4, 9, 0, 2, 3, 4, 8, 1, 2, 3, 4];
    assert_eq!(s.predict(&ctx), (9, "induction-4".to_string()));
    // Of two occurrences of the tail the latest counts.
    assert_eq!(s.predict(&[1, 2, 5, 1, 2, 6, 1, 2]), (6, "induction-2".to_string()));
    // The candidates look for tails of at most three tokens.
    let one = CandCfg { recent: 0, induction: 1, quad: 0, tri: 0, bi: 0, skel: 0, uni: 0, closed: false };
    assert_eq!(s.candidates(&ctx, &one), vec![8]);
    assert!(s.candidates(&ctx, &CandCfg { induction: 9, ..one }).contains(&9));
}

#[test]
fn recent_tokens_are_distinct() {
    let mut out = Vec::new();
    context_candidates(&[5, 7, 7], 2, 0, &mut out);
    assert_eq!(out, vec![7, 5]);
    let mut more = vec![1];
    context_candidates(&[1, 2, 3, 1, 2], 9, 0, &mut more);
    assert_eq!(more, vec![1, 2, 1, 3]);
}

#[test]
fn the_skeletons_share_their_cap() {
    let skel = table(&[("3:O/O/O", &[8, 4]), ("2:O/O", &[6])]);
    let s = Store::new(vec![], vec![], vec![], vec![0], None, None, vec![], skel);
    let cap = |n: usize| CandCfg { recent: 0, induction: 0, quad: 0, tri: 0, bi: 0, skel: n, uni: 0, closed: false };
    assert_eq!(s.candidates(&[1, 2, 3], &cap(0)), Vec::<i64>::new());
    assert_eq!(s.candidates(&[1, 2, 3], &cap(1)), vec![8]);
    assert_eq!(s.candidates(&[1, 2, 3], &cap(2)), vec![8, 4]);
    assert_eq!(s.candidates(&[1, 2, 3], &cap(9)), vec![8, 4, 6]);
    assert_eq!(s.candidates(&[2, 3], &cap(1)), vec![6]);
}

#[test]
fn grammar_collapses_open_tokens() {
    let s = Store::new(
        vec![],
        vec![],
        vec![],
        vec![10],
        Some(3),
        Some(3),
        vec![7],
        table(&[("3:O/7/O", &[60]), ("2:7/O", &[50])]),
    );
    assert_eq!(s.predict(&[1, 7, 2]), (60, "grammar-3".to_string()));
    assert_eq!(s.predict(&[7, 7, 2]), (50, "grammar-2".to_string()));
    assert_eq!(s.predict(&[7, 7, 7]), (10, "unigram".to_string()));
}

#[test]
fn a_store_without_tokens_predicts_nothing() {
    let s = store(&[], &[], &[]);
    assert!(s.try_predict(&[7]).is_none());
}

#[test]
fn defaults_of_a_store() {
    assert_eq!((default_min_induction(), default_min_accept()), (3, 2));
}

#[test]
fn dedup_keeps_first_occurrences() {
    assert_eq!(dedup(&[3, 1, 3, 2, 1]), vec![3, 1, 2]);
}

#[test]
fn decisions_by_frequency_then_by_token() {
    assert_eq!(by_frequency(&[5, 7, 7, 3, 5, 9]), vec![5, 7, 3, 9]);
    assert_eq!(by_frequency(&[]), Vec::<i64>::new());
}

#[test]
fn a_captured_store_answers_like_the_model() {
    let ctxs: Vec<Vec<i64>> = vec![vec![4], vec![1, 4], vec![8, 4], vec![2, 1, 4], vec![9, 2, 1, 4]];
    let preds: Vec<i64> = vec![6, 5, 6, 5, 5];
    let c = capture(&ctxs, &preds);
    assert_eq!(c.uni, vec![5, 6]);
    assert_eq!(c.bi, table(&[("4", &[5, 6])]));
    let s = Store::new(c.quad, c.tri, c.bi, c.uni, None, None, vec![], vec![]);
    assert_eq!(s.predict(&[3, 2, 1, 4]), (5, "quad".to_string()));
    assert_eq!(s.predict(&[0, 8, 4]), (6, "trigram".to_string()));
    assert_eq!(s.predict(&[0, 0, 4]), (5, "bigram".to_string()));
}

#[test]
fn routes_of_decisions() {
    assert!(route(3, 3, false) == Route::Retrieved);
    assert!(route(3, 4, true) == Route::Selected);
    assert!(route(3, 4, false) == Route::Composed);
    let s = store(&[("2", &[9, 5])], &[42], &[]);
    let (r, rule) = attribute(&s, &[1, 2], &cfg(), 9).unwrap();
    assert!(r == Route::Retrieved);
    assert_eq!(rule, "bigram");
    assert!(attribute(&s, &[1, 2], &cfg(), 5).unwrap().0 == Route::Selected);
    assert!(attribute(&s, &[1, 2], &cfg(), 77).unwrap().0 == Route::Composed);
    assert!(attribute(&store(&[], &[], &[]), &[1], &cfg(), 1).is_none());
    assert_eq!(context_only(&[1, 2, 1], &cfg()), vec![1, 2]);
}

#[test]
fn decisions_are_counted_by_route_and_rule() {
    let mut c = RouteCounts::new();
    c.count(Route::Selected);
    c.count(Route::Selected);
    c.count(Route::Composed);
    assert_eq!((c.retrieved, c.selected, c.composed), (0, 2, 1));
    let mut rows = Vec::new();
    count_rule(&mut rows, "bigram", Route::Retrieved);
    count_rule(&mut rows, "unigram", Route::Composed);
    count_rule(&mut rows, "bigram", Route::Selected);
    assert_eq!(rows.len(), 2);
    assert_eq!(rows[0].0, "bigram");
    assert_eq!((rows[0].1.retrieved, rows[0].1.selected, rows[0].1.composed), (1, 1, 0));
    assert_eq!((rows[1].0.as_str(), rows[1].1.composed), ("unigram", 1));
}

#[test]
fn coverage_of_candidate_sets() {
    assert_eq!(coverage(&[vec![1, 2], vec![3], vec![]], &[2, 4, 5]), (3, 1));
}

#[test]
fn ranks_are_counted() {
    let mut c = RankCounts::new();
    for r in [Some(1), Some(1), Some(2), Some(3), Some(9), None] {
        c.count(r);
    }
    assert_eq!((c.first, c.second, c.third, c.later, c.none), (2, 1, 1, 1, 1));
}

#[test]
fn decisions_are_put_into_buckets_by_the_last_tokens() {
    let contexts = [vec![1, 7], vec![2, 7], vec![3, 8], vec![7], vec![9, 2, 7]];
    let picks = [10, 11, 12, 13, 14];
    assert_eq!(buckets(&contexts, &picks, 1), vec![vec![10, 11, 13, 14], vec![12]]);
    assert_eq!(buckets(&contexts, &picks, 2), vec![vec![10], vec![11, 14], vec![12], vec![13]]);
    assert_eq!(buckets(&[vec![-1, 7], vec![7]], &[1, 2], 2), vec![vec![1, 2]]);
    assert!(buckets(&[], &[], 2).is_empty());
    assert_eq!(agreement(&buckets(&contexts, &[5, 6, 5, 5, 5], 1)), (1, 4, 3));
}

#[test]
fn agreement_within_buckets() {
    assert_eq!(plurality(&[4, 4, 2, 4, 2]), 3);
    assert_eq!(plurality(&[]), 0);
    assert_eq!(agreement(&[vec![1], vec![2, 2, 3], vec![], vec![5, 5]]), (2, 5, 4));
}
