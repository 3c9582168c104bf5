use fieldrun::contrib::{contrib_program, push_step, runner_up, step_candidates, ContribStep};
use fieldrun::facts::{decision_keys, read_fact, read_facts, step_tokens, trace_steps, Fact};
use fieldrun::stitch::{belongs_to, split_fact, stitch, stitch_inputs, stitch_step, Input};
use fieldrun::text::{parse_i64, parse_u64, parse_usize, push_i64, push_u64, push_usize};
use fieldrun::words::{ends_with, fields, find_char, lines, piece, sort_names, starts_with};

fn args(s: &[&str]) -> Vec<String> {
    s.iter().map(|a| a.to_string()).collect()
}

fn chars(s: &str) -> Vec<char> {
    s.chars().collect()
}

fn spelled(v: &[Vec<char>]) -> Vec<String> {
    v.iter().map(|w| w.iter().collect()).collect()
}

/// A fact as step, token, whether it names its step, block and weight.
fn shown(f: &Fact) -> (i64, Option<i64>, bool, String, String) {
    match f {
        Fact::Candidate(k) => (k.step, k.token, k.indexed, String::new(), String::new()),
        Fact::Contrib(k, b, w) => (k.step, k.token, k.indexed, b.clone(), w.clone()),
    }
}

fn fact(line: &str) -> Option<(i64, Option<i64>, bool, String, String)> {
    read_fact(&chars(line)).map(|f| shown(&f))
}

const PROGRAM: &str = "// model predicts: 7\n.decl candidate(t:number)\n  candidate(7).   // yes\r\ncandidate(8).\ncontrib(\"embed\", 7, 1.5).\n";

#[test]
fn facts_are_read() {
    let none = String::new();
    assert_eq!(fact(" candidate( 7 ). // x"), Some((0, Some(7), false, none.clone(), none.clone())));
    assert_eq!(fact("candidate(3, 7)."), Some((3, Some(7), true, none.clone(), none.clone())));
    assert_eq!(fact("candidate(x, y)."), Some((0, None, true, none.clone(), none)));
    assert_eq!(fact("contrib(\"e0\", 7, 1.5)."), Some((0, Some(7), false, "e0".to_string(), "1.5".to_string())));
    assert_eq!(fact("contrib(2,\"e0\",7,-1)."), Some((2, Some(7), true, "e0".to_string(), "-1".to_string())));
    assert_eq!(fact("contrib(1, 2)."), None);
    assert_eq!(fact("logit(1, 2)."), None);
    assert_eq!(read_facts(PROGRAM).len(), 3);
}

#[test]
fn decisions_of_a_trace() {
    let order = decision_keys(&[(1, 5), (0, 6), (1, 5), (1, 4)]);
    assert_eq!(order, vec![(1, 5), (0, 6), (1, 4)]);
    assert_eq!(step_tokens(&order, 1), vec![5, 4]);
    assert_eq!(trace_steps(&order), vec![0, 1]);
}

#[test]
fn inputs_of_a_merge() {
    let v = stitch_inputs(&args(&["fr", "stitch", "a.dl", "-o", "out.dl", "--x", "run", "--out", "y"]));
    assert_eq!(v.len(), 2);
    assert!(matches!(&v[0], Input::File(s) if s == "a.dl"));
    assert!(matches!(&v[1], Input::Prefix(s) if s == "run"));
    assert!(belongs_to("run.001.dl", "run") && !belongs_to("run.txt", "run") && !belongs_to("x.dl", "run"));
}

#[test]
fn a_fact_is_taken_apart() {
    let f = split_fact(&chars("  contrib(\"a\", 7, 1).  // c")).unwrap();
    let text = |v: &[char]| v.iter().collect::<String>();
    assert_eq!((text(&f.head), text(&f.inner), text(&f.after)), ("contrib".into(), "\"a\", 7, 1".into(), ".  // c".into()));
    assert!(split_fact(&chars("decide(1).")).is_none());
    assert!(split_fact(&chars("candidate(1")).is_none());
}

#[test]
fn a_step_is_written_under_its_number() {
    let mut out = String::new();
    assert_eq!(stitch_step(&mut out, 12, "run.dl", PROGRAM), 3);
    assert_eq!(
        out,
        "\n// ---- step 012  (run.dl)  model predicts: 7 ----\ncandidate(12, 7).   // yes\ncandidate(12, 8).\ncontrib(12, \"embed\", 7, 1.5).\n"
    );
}

#[test]
fn a_merged_program_is_read_back() {
    let second = "candidate(9).\n";
    let r = stitch(&args(&["a.dl", "b.dl", "c.dl"]), &args(&[PROGRAM, "nothing", second]));
    assert_eq!((r.steps, r.facts.clone()), (2, vec![3, 0, 1]));
    assert!(r.program.contains("// 2 steps. Run: souffle <this>.dl -D -   |   fieldrun eval <this>.dl --semiring max|log\n"));
    let got: Vec<(i64, Option<i64>)> = read_facts(&r.program).iter().map(|f| (shown(f).0, shown(f).1)).collect();
    assert_eq!(got, vec![(0, Some(7)), (0, Some(8)), (0, Some(7)), (2, Some(9))]);
    assert!(read_facts(&r.program).iter().all(|f| shown(f).2));
}

fn step() -> ContribStep {
    ContribStep {
        predicted: "\"a\"".to_string(),
        margin: "1.25".to_string(),
        runner: "\"b\"".to_string(),
        cands: vec![(7, "a".to_string()), (8, "b".to_string())],
        blocks: vec![vec![Some("0.5".to_string()), None], vec![Some("0.25".to_string()), Some("-1".to_string())]],
        rest: args(&["0.1", "0.2"]),
    }
}

#[test]
fn a_step_of_a_composition() {
    let mut out = String::new();
    push_step(&mut out, 3, &step(), 1);
    assert_eq!(
        out,
        "// step 3: decode \"a\" (margin 1.25 vs \"b\")\ncandidate(3,7).   // a\ncandidate(3,8).   // b\n\
         contrib(3,\"e0\",7,0.5).\ncontrib(3,\"residual\",7,0.25).\ncontrib(3,\"residual\",8,-1).\n\
         contrib(3,\"rest\",7,0.1).\ncontrib(3,\"rest\",8,0.2).\n"
    );
}

#[test]
fn a_composition_is_read_back() {
    let p = contrib_program(&[step()], 1, 1, "100.0", &None);
    assert!(p.contains("// 1 steps · faithful decode 1/1 (100.0%)\n"));
    let got: Vec<_> = read_facts(&p).iter().map(shown).collect();
    assert_eq!(got.len(), 7);
    assert_eq!(got[2], (0, Some(7), true, "e0".to_string(), "0.5".to_string()));
    let shares: Vec<(String, String)> = ["e", "r", "x"].iter().map(|s| (s.to_string(), "50".to_string())).collect();
    let q = contrib_program(&[step()], 1, 0, "0.0", &Some(shares));
    assert!(q.contains("//   e0        e  (50% of margin)\n"));
    assert!(q.contains("//   rest      x  (50% of margin)  ← catchall: forge-tax / non-compact remainder\n"));
}

#[test]
fn candidates_and_runner_up() {
    assert_eq!(step_candidates(7, &[8, 9]), vec![7, 8, 9]);
    assert_eq!(runner_up(&[5, 3, 4, 3]), 1);
}

#[test]
fn lines_fields_and_names() {
    assert_eq!(spelled(&lines("a\r\nb\n\nc")), vec!["a", "b", "", "c"]);
    assert_eq!(spelled(&lines("a\n")), vec!["a"]);
    assert!(lines("").is_empty());
    assert_eq!(spelled(&fields(&chars("a,,b"), ',')), vec!["a", "", "b"]);
    assert_eq!(sort_names(args(&["b", "a10", "a", "b"])), vec!["a", "a10", "b"]);
    assert!(starts_with(&chars("abc"), "ab") && !starts_with(&chars("a"), "ab"));
    assert!(ends_with(&chars("abc"), "bc") && ends_with(&chars("abc"), ""));
    assert_eq!((find_char(&chars("abb"), 'b'), find_char(&chars("a"), 'b')), (Some(1), None));
    assert_eq!(piece(&chars("abcd"), 1, 3), vec!['b', 'c']);
}

#[test]
fn numerals() {
    assert_eq!(parse_i64("-9223372036854775808"), Some(i64::MIN));
    assert_eq!(parse_i64("9223372036854775808"), None);
    assert_eq!((parse_i64("+5"), parse_i64("-"), parse_i64(""), parse_i64(" 5")), (Some(5), None, None, None));
    assert_eq!((parse_usize("+5"), parse_usize("-5"), parse_usize("007")), (Some(5), None, Some(7)));
    assert_eq!((parse_u64("18446744073709551615"), parse_u64("18446744073709551616")), (Some(u64::MAX), None));
    let mut s = String::new();
    push_i64(&mut s, i64::MIN);
    s.push(' ');
    push_u64(&mut s, u64::MAX);
    s.push(' ');
    push_usize(&mut s, 0);
    assert_eq!(s, "-9223372036854775808 18446744073709551615 0");
}
