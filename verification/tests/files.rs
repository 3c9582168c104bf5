use fieldrun::capture::capture;
use fieldrun::manifest::{
    eval_files, eval_ids, eval_positions, keep_integers, keep_pairs, knockouts, position_limit, why_no_json, window,
};
use fieldrun::store_file::captured_text;
use fieldrun::vocabulary::{parse_vocabulary, read_labels, Labels};

const MANIFEST: &str = r#"{"ctx": 3, "max_pos": 2, "evals": {"b": "b.json", "a": 7},
    "specs": {"two": {"heads": [[0, 1], [2], "x", [3, -1], [4, 5, 6]], "neurons": [[7, 8]]}, "none": {}}}"#;

#[test]
fn a_manifest_is_read() {
    assert_eq!(window(MANIFEST), 3);
    assert_eq!(position_limit(MANIFEST), Some(2));
    assert_eq!(eval_files(MANIFEST), vec![("a".to_string(), String::new()), ("b".to_string(), "b.json".to_string())]);
    let k = knockouts(MANIFEST);
    assert_eq!(k.iter().map(|k| k.name.as_str()).collect::<Vec<_>>(), vec!["none", "two"]);
    assert!(k[0].heads.is_empty() && k[0].neurons.is_empty());
    assert_eq!(k[1].heads, vec![(0, 1), (4, 5)]);
    assert_eq!(k[1].neurons, vec![(7, 8)]);
}

#[test]
fn a_manifest_has_defaults() {
    for text in ["{}", "[1, 2]", r#"{"ctx": "8", "max_pos": -1, "evals": [], "specs": 4}"#] {
        assert_eq!(window(text), 64);
        assert_eq!(position_limit(text), None);
        assert!(eval_files(text).is_empty() && knockouts(text).is_empty());
    }
}

#[test]
fn a_text_that_is_no_json_is_told() {
    assert_eq!(why_no_json(MANIFEST), None);
    assert!(why_no_json("{\"ctx\": ").unwrap().contains("EOF"));
    assert!(why_no_json("").is_some());
}

#[test]
fn tokens_of_a_stream() {
    assert_eq!(eval_ids(r#"{"holdout_ids": [1, "x", 2.5, -3], "ids": [9]}"#), vec![1, -3]);
    assert_eq!(eval_ids(r#"{"holdout_ids": 4, "ids": [9, null]}"#), vec![9]);
    assert_eq!(eval_ids(r#"{"holdout_ids": [], "ids": [9]}"#), Vec::<i64>::new());
    assert_eq!(eval_ids("{}"), Vec::<i64>::new());
    assert_eq!(eval_ids("no json"), Vec::<i64>::new());
    assert_eq!(keep_integers(&[Some(4), None, Some(-2)]), vec![4, -2]);
    assert_eq!(keep_pairs(&[Some(vec![Some(1), Some(2)]), None, Some(vec![None, Some(3)]), Some(vec![])]), vec![(1, 2)]);
}

#[test]
fn positions_of_a_stream() {
    assert_eq!(eval_positions(10, 4, None), Some((4, 10)));
    assert_eq!(eval_positions(10, 4, Some(3)), Some((4, 7)));
    assert_eq!(eval_positions(10, 4, Some(usize::MAX)), Some((4, 10)));
    assert_eq!(eval_positions(10, 4, Some(0)), Some((4, 4)));
    assert_eq!(eval_positions(4, 4, None), None);
    assert_eq!(eval_positions(5, 4, None), Some((4, 5)));
}

#[test]
fn tokens_are_labelled() {
    let text = "{\"\u{120}the\": 5, \"a\\\"b\": 6, \"\u{10a}\": -1}";
    let labels = read_labels(text);
    assert_eq!(labels.label(5), "\" the\" [5]");
    assert_eq!(labels.label(6), "\"a\\\"b\" [6]");
    assert_eq!(labels.label(-1), "\"\\n\" [-1]");
    assert_eq!(labels.label(7), "[7]");
    let mut v = parse_vocabulary(text).unwrap();
    v.sort();
    assert_eq!(v.iter().map(|e| e.1).collect::<Vec<_>>(), vec![6, -1, 5]);
    assert!(parse_vocabulary("{\"a\": \"b\"}").is_none());
    assert_eq!(read_labels("no json").label(5), "[5]");
    let twice = Labels::new(vec![("x".to_string(), 1), ("y".to_string(), 1)]);
    assert_eq!(twice.label(1), "\"y\" [1]");
}

#[test]
fn a_captured_store_is_written() {
    let c = capture(&[vec![1, 2, 3], vec![2, 3]], &[9, 9]);
    assert_eq!(
        captured_text(&c),
        "{\"bi\":{\"3\":[9]},\"closed_ids\":[],\"min_induction_accept\":2,\"min_induction_match\":3,\
         \"quad\":{\"1,2,3\":[9]},\"skel\":{},\"tri\":{\"2,3\":[9]},\"uni\":[9]}"
    );
}
