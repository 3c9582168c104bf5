use fieldrun::asking::leading_number;
use fieldrun::battery::{list_fn, ListFn, Tally};
use fieldrun::flow_sweep::{flow_sweep, plan_reading, profile, FlowCounts, Opened, Profile};
use fieldrun::list_sweeps::{dump_lists, list_accuracy, observe_lists};
use fieldrun::measure::parse_str;
use fieldrun::patch_sweeps::{can_patch, draw_pair, patch_sweep, Interchange, Pair, PairKind, PatchCounts};
use fieldrun::patching::{lay_out, widest};
use fieldrun::recursion_probe::true_eval;
use fieldrun::sweeps::{discover, measure, probe_table};
use fieldrun::value_dump::{sample_values, Dump, Sampling};
use fieldrun::value_flow::{ReadKind, Reading};

/// The last line of a question, without the sign that asks for its value.
fn last_line(q: &str) -> &str {
    q.lines().last().unwrap().trim_end_matches(" =")
}

/// A model that computes every expression.
fn computes(q: String) -> Option<i64> {
    true_eval(&parse_str(last_line(&q))?)
}

/// A model that computes a list function, whatever it is asked for.
fn folds(q: String, f: ListFn) -> Option<i64> {
    let l: Vec<i64> = last_line(&q).split(' ').skip(1).map(|x| x.parse().unwrap()).collect();
    list_fn(f, &l)
}

#[test]
fn a_computing_model_is_measured_clean() {
    let per = measure(computes, "arith", 9, 3, 10, 77);
    assert_eq!(per.len(), 4);
    assert_eq!(per[0].n, 0);
    for a in &per[1..] {
        assert!(a.n > 0 && a.n <= 10);
        assert_eq!((a.correct, a.faithful, a.clean, a.err), (a.n, a.n, a.n, 0));
    }
}

#[test]
fn a_constant_model_is_measured_wrong() {
    let per = measure(|_q| Some(7919), "arith", 9, 2, 5, 77);
    assert!(per[1..].iter().all(|a| a.correct == 0 && a.err == a.n && a.semi == a.n));
    let silent = measure(|_q| None, "arith", 9, 2, 5, 77);
    assert!(silent.iter().all(|a| a.n == 0));
}

#[test]
fn a_taught_operator_is_discovered() {
    let model = |q: String| computes(q.replace('@', "*"));
    let d = discover(model, '@', '*', 9, 40, 4, 5);
    assert_eq!(d.prime.lines().count(), 8);
    assert_eq!(d.seen.len(), 40);
    assert_eq!(d.found.ranked[0].0, '*');
    assert!(d.found.inducible);
    assert!(d.held.n > 0);
    assert_eq!((d.held.faithful, d.held.clean), (d.held.n, d.held.n));
    let (text, answer, _) = d.sample.unwrap();
    assert_eq!(computes(text), Some(answer));
}

#[test]
fn a_table_without_an_operator_is_not_followed_up() {
    let d = discover(|_q| Some(77), '@', '?', 9, 20, 4, 5);
    assert!(!d.found.inducible);
    assert_eq!(d.held.n, 0);
    assert!(d.sample.is_none());
    let mut r = 9u64;
    assert!(probe_table(&|_q: String| None, "", '@', 9, 20, &mut r).is_empty());
}

#[test]
fn the_accuracy_on_lists() {
    let mut by = vec![Tally::new(); 7];
    let mut r = 31u64;
    let t = list_accuracy(&|q| folds(q, ListFn::Max), ListFn::Max, 20, 3, 6, 600, &mut r, &mut by);
    assert_eq!((t.right, t.total), (20, 20));
    assert_eq!(by.iter().map(|x| x.total).sum::<usize>(), 20);
    let t = list_accuracy(&|q| folds(q, ListFn::Sum), ListFn::Sum, 5, 6, 6, 3, &mut r, &mut by);
    assert!(t.total <= 3 && t.right == t.total);
}

#[test]
fn what_is_said_about_lists_is_written_down() {
    let mut out = String::new();
    let mut r = 31u64;
    let got = dump_lists(&|q| folds(q, ListFn::First), ListFn::Last, 4, 3, 7, 160, &mut r, &mut out);
    assert_eq!((got, out.lines().count()), (4, 4));
    assert!(out.lines().all(|l| l.starts_with("{\"task\":\"last\",\"list\":[") && l.ends_with('}')));
    assert_eq!(dump_lists(&|_q| None, ListFn::Last, 4, 3, 7, 9, &mut r, &mut out), 0);
}

#[test]
fn what_a_model_computes_instead_is_observed() {
    let mut r = 31u64;
    let seen = observe_lists(&|q| folds(q, ListFn::Second), ListFn::Last, 12, 3, 6, 360, &mut r);
    assert_eq!(seen.len(), 12);
    assert!(seen.iter().all(|(l, v)| l[1] == *v));
    assert_eq!(observe_lists(&|_q| None, ListFn::Last, 12, 3, 6, 5, &mut r).len(), 0);
}

#[test]
fn pairs_are_drawn_with_their_answers() {
    let mut r = 8u64;
    for kind in [PairKind::Left, PairKind::Hold(3)] {
        let p = draw_pair(kind, &mut r).unwrap();
        assert!(p.first.starts_with("(+ 2 3) = 5\n(* 2 4) = 8\n"));
        assert_eq!((computes(p.first), computes(p.second)), (Some(p.first_answer), Some(p.second_answer)));
    }
    let p = draw_pair(PairKind::Bind(3), &mut r).unwrap();
    assert!(p.first.starts_with("k=2 t=9 k=2\nr=6 s=1 r=6\nm=4 n=7 p=3 m=4\n"));
    assert_ne!(p.first_answer, p.second_answer);
    assert!(draw_pair(PairKind::Hold(0), &mut r).is_none());
}

#[test]
fn interchanges_are_counted_by_layer() {
    let mut r = 8u64;
    // The value is carried at the second layer alone, and the model knows its own answers.
    let run = |p: &Pair| Some(Interchange { base: Some(p.second_answer), patched: vec![None, Some(p.first_answer)] });
    let c = patch_sweep(run, PairKind::Left, 6, 3, &mut r);
    assert_eq!((c.total, c.base, c.hits.clone()), (6, 6, vec![0, 6, 0]));
    let c = patch_sweep(|_p: &Pair| None, PairKind::Left, 6, 3, &mut r);
    assert_eq!((c.total, c.base, c.hits.clone()), (0, 0, vec![0, 0, 0]));
    let mut d = PatchCounts::new(1);
    let p = draw_pair(PairKind::Left, &mut r).unwrap();
    d.record(&p, &Interchange { base: None, patched: vec![Some(p.second_answer)] });
    assert_eq!((d.total, d.base, d.hits.clone()), (1, 0, vec![0]));
}

#[test]
fn layers_need_values_at_every_position() {
    assert!(can_patch(&[vec![4, 4], vec![4, 4]], 1));
    assert!(!can_patch(&[vec![4, 4], vec![4]], 1));
    assert!(!can_patch(&[vec![4, 0]], 1));
}

#[test]
fn layers_are_laid_out_in_one_width() {
    let layers = vec![vec![1, 2], vec![], vec![3, 4]];
    assert_eq!(widest(&layers), 2);
    assert_eq!(lay_out(&layers, 2, 0), vec![1, 2, 0, 0, 3, 4]);
    assert_eq!(widest::<i32>(&[]), 0);
}

/// Opens a question with one token for each character.
fn open(q: String) -> Opened {
    let pieces: Vec<String> = q.chars().map(|c| c.to_string()).collect();
    Opened { ids: (0..pieces.len() as i64).collect(), pieces, answer: leading_number(&computes(q).unwrap().to_string()) }
}

#[test]
fn a_question_is_planned_and_profiled() {
    let o = open("(+ (* 2 3) (- 5 1)) =".to_string());
    let p = plan_reading(&o.pieces).unwrap();
    assert_eq!(p.closes, vec![18, 9, 17]);
    assert_eq!(p.positions, vec![7, 8, 9, 15, 16, 17, 18]);
    let reads: Vec<Vec<Reading>> = p
        .positions
        .iter()
        .map(|&q| match q {
            9 => vec![Reading { token: -1, value: Some(6) }],
            17 => vec![Reading { token: -1, value: Some(5) }],
            _ => vec![],
        })
        .collect();
    let f = profile(&p, &reads, &o.ids, o.answer).unwrap();
    assert!(f.right);
    assert!(f.kinds == vec![ReadKind::Operand, ReadKind::Textbook, ReadKind::Operand]);
    assert!(plan_reading(&["(+ 1 2)".to_string()]).is_none());
}

#[test]
fn profiles_are_counted_by_answer() {
    let mut c = FlowCounts::new();
    c.record(&Profile { right: true, kinds: vec![ReadKind::Textbook, ReadKind::Other, ReadKind::Nothing] });
    c.record(&Profile { right: false, kinds: vec![ReadKind::Answer, ReadKind::Answer, ReadKind::Operand] });
    assert_eq!((c.total, c.correct), (2, 1));
    assert_eq!((c.right[0].textbook, c.right[1].other, c.right[2].none, c.right[0].n), (1, 1, 1, 1));
    assert_eq!((c.wrong[0].answer, c.wrong[1].answer, c.wrong[2].operand, c.wrong[2].n), (1, 1, 1, 1));
}

#[test]
fn a_sweep_reads_every_expression() {
    let lens = |_o: &Opened, at: &Vec<usize>| Some(at.iter().map(|_| Vec::new()).collect());
    let c = flow_sweep(open, lens, "arith", 9, 10, 41).unwrap();
    assert_eq!((c.total, c.correct, c.right[0].none, c.wrong[0].n), (10, 10, 10, 0));
    let blind = flow_sweep(open, |_o: &Opened, _at: &Vec<usize>| None, "minmax", 9, 10, 41).unwrap();
    assert_eq!(blind.total, 0);
}

#[test]
fn what_the_layers_hold_is_gathered() {
    let shows = |o: &Opened, at: &Vec<usize>| Some(at.iter().map(|&p| vec![vec![p as i32, o.ids.len() as i32], vec![]]).collect());
    let d = sample_values(open, shows, 0, "arith", 9, 5, 41).ok().unwrap();
    assert_eq!((d.layers, d.width, d.samples.len()), (2, 2, 15));
    for s in d.samples.chunks(3) {
        assert_eq!((s[0].role, s[1].role, s[2].role), (0, 1, 2));
        assert!(s.iter().all(|x| x.right && x.flat.len() == 4 && x.flat[2..] == [0, 0]));
        assert!(s[1].flat[0] < s[2].flat[0] && s[2].flat[0] < s[0].flat[0]);
    }
    let hidden = sample_values(open, |_o: &Opened, _at: &Vec<usize>| None::<Vec<Vec<Vec<i32>>>>, 0, "arith", 9, 5, 41);
    assert!(matches!(hidden, Err(Sampling::Hidden)));
}

#[test]
fn the_first_sample_gives_the_size() {
    let mut d: Dump<i32> = Dump::new();
    assert!(d.record(&parse_str("(/ 1 0)").unwrap(), 0, true, &[vec![5]], 0));
    assert_eq!((d.layers, d.samples.len()), (0, 0));
    assert!(d.record(&parse_str("(+ 1 2)").unwrap(), 2, false, &[vec![5], vec![6, 7]], 0));
    assert!(d.record(&parse_str("(+ 4 2)").unwrap(), 1, false, &[vec![8, 9]], 0));
    assert_eq!((d.layers, d.width), (2, 2));
    assert_eq!((d.samples[0].value, d.samples[0].role, d.samples[0].flat.clone()), (3, 2, vec![0, 0, 6, 7]));
    assert_eq!((d.samples[1].value, d.samples[1].role, d.samples[1].flat.clone()), (6, 1, vec![8, 9]));
    assert!(!d.record(&parse_str("(* 9223372036854775807 2)").unwrap(), 1, false, &[vec![8, 9]], 0));
    assert_eq!(d.samples.len(), 2);
}
