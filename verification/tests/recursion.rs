use std::collections::HashMap;

use fieldrun::recursion_dl::{
    abduce, apply, distinct_literals, emit, eval_bounded, flatten, max_depth, parse, parse_target, Flat, Node,
    Outcome,
};
use fieldrun::datalog::try_emit;
use fieldrun::measure::{analyze, clean_program, parse_str};
use fieldrun::recursion_probe::{
    atomize, atomize_ids, bounded_result, collect_leaves, collect_ops, draw_leaf, gen_arith, gen_bind_pair,
    gen_depth2, gen_family, gen_hold_pair, gen_op, gen_patch_pair, true_eval, try_true_eval, xorshift,
};

fn atoms(text: &str) -> Vec<(String, usize)> {
    let pieces: Vec<String> = text.split_inclusive(' ').map(|p| p.to_string()).collect();
    atomize_ids(&pieces)
}

fn tree(text: &str) -> Node {
    parse_target(&atoms(text)).unwrap()
}

fn flat(n: &Node) -> (Vec<Flat>, Vec<usize>) {
    let mut nodes = Vec::new();
    let mut depth = Vec::new();
    assert_eq!(flatten(n, &mut nodes, &mut depth, 0), 0);
    (nodes, depth)
}

fn value(text: &str) -> Option<i64> {
    true_eval(&tree(text))
}

#[test]
fn tokens_are_split_into_atoms() {
    let pieces = vec!["(+ 12".to_string(), " 3)".to_string(), "@x".to_string()];
    let got = atomize_ids(&pieces);
    let want = vec![("(", 0), ("+", 0), ("12", 0), ("3", 1), (")", 1)];
    assert_eq!(got, want.iter().map(|(a, p)| (a.to_string(), *p)).collect::<Vec<_>>());
    assert_eq!(atomize(&pieces, true).len(), 6);
}

#[test]
fn an_expression_is_read_with_its_brackets() {
    let a = atoms("(+ 1 (* 2 3))");
    let mut pos = 0;
    let n = parse(&a, &mut pos).unwrap();
    assert_eq!(pos, a.len());
    assert!(matches!(&n, Node::Op('+', l, r, 0, 4) if matches!(**l, Node::Leaf(1)) && matches!(**r, Node::Op('*', _, _, 2, 4))));
}

#[test]
fn more_operands_are_folded_to_the_left() {
    assert_eq!(value("(- 9 4 3)"), Some(2));
    assert!(matches!(parse_str("(+ 7)"), None));
}

#[test]
fn the_last_expression_is_the_target() {
    assert_eq!(value("(+ 1 2) = 3 (* 2 4) ="), Some(8));
    assert!(parse_target(&atoms("no expression 7")).is_none());
    assert!(parse_target(&atoms("(+ 1 2")).is_none());
}

#[test]
fn operators_of_the_program() {
    assert!(apply('+', 2, 3) == Outcome::Value(5));
    assert!(apply('-', 2, 3) == Outcome::Value(-1));
    assert!(apply('*', -2, 3) == Outcome::Value(-6));
    assert!(apply('/', -7, 2) == Outcome::Value(-3));
    assert!(apply('/', 7, 0) == Outcome::Undefined);
    assert!(apply('<', 1, 2) == Outcome::Undefined);
    assert!(apply('+', i64::MAX, 1) == Outcome::OutOfRange);
    assert!(apply('/', i64::MIN, -1) == Outcome::OutOfRange);
}

#[test]
fn operators_of_the_experiments() {
    assert_eq!(value("(< 4 9)"), Some(4));
    assert_eq!(value("(> 4 9)"), Some(9));
    assert_eq!(value("(& 6 3)"), Some(2));
    assert_eq!(value("(| 6 3)"), Some(7));
    assert_eq!(value("(^ 6 3)"), Some(5));
    assert_eq!(value("(% 9 4)"), Some(1));
    assert_eq!(value("(% 9 0)"), None);
    assert_eq!(value("(/ 9 2)"), Some(4));
    assert!(try_true_eval(&tree("(* 9223372036854775807 2)")) == Outcome::OutOfRange);
}

#[test]
fn trees_are_flattened_in_pre_order() {
    let (nodes, depth) = flat(&tree("(+ 1 (* 2 3))"));
    assert_eq!(depth, vec![0, 1, 1, 2, 2]);
    assert!(matches!(nodes[0], Flat::Op('+', 1, 2)));
    assert!(matches!(nodes[2], Flat::Op('*', 3, 4)));
    assert!(matches!(nodes[4], Flat::Leaf(3)));
    assert_eq!(max_depth(&depth), 2);
    assert_eq!(max_depth(&[]), 0);
}

#[test]
fn a_budget_cuts_the_recursion() {
    let (nodes, _) = flat(&tree("(+ 1 (* 2 3))"));
    let none: HashMap<usize, i64> = HashMap::new();
    assert!(eval_bounded(&nodes, 0, 2, &none) == Outcome::Value(7));
    assert!(eval_bounded(&nodes, 0, 1, &none) == Outcome::Undefined);
    let cut: HashMap<usize, i64> = [(2, 50)].into_iter().collect();
    assert!(eval_bounded(&nodes, 0, 1, &cut) == Outcome::Value(51));
    assert!(eval_bounded(&nodes, 0, 9, &cut) == Outcome::Value(7));
}

#[test]
fn a_right_answer_needs_no_cut() {
    let (nodes, depth) = flat(&tree("(+ 1 (* 2 3))"));
    let a = abduce(&nodes, &depth, 7, &[1, 2, 3]).unwrap();
    assert_eq!(a.depth, 2);
    assert!(a.cuts.is_empty());
    assert!(clean_program(&a, 2));
    assert!(!clean_program(&a, 3));
}

#[test]
fn a_wrong_answer_is_cut_with_a_literal_if_possible() {
    let (nodes, depth) = flat(&tree("(+ 1 (* 2 3))"));
    let a = abduce(&nodes, &depth, 4, &[1, 2, 3]).unwrap();
    assert_eq!((a.depth, a.cuts.clone()), (1, vec![(2, 3, true)]));
    let a = abduce(&nodes, &depth, 30, &[1, 2, 3]).unwrap();
    assert_eq!((a.depth, a.cuts.clone()), (1, vec![(2, 29, false)]));
    assert!(abduce(&nodes, &depth, 500, &[1, 2, 3]).is_none());
}

#[test]
fn values_out_of_range_give_no_answer() {
    let (nodes, depth) = flat(&tree("(* 9223372036854775807 9223372036854775807)"));
    let a = abduce(&nodes, &depth, 5, &[]).unwrap();
    assert_eq!((a.depth, a.cuts), (0, vec![(0, 5, false)]));
    assert!(abduce(&nodes, &depth, 51, &[]).is_none());
    assert!(try_emit(&tree("(* 9223372036854775807 9223372036854775807)"), Some(5), &[]).is_none());
    let (nodes, depth) = flat(&tree("(* (+ 1 1) (+ 1 1))"));
    let a = abduce(&nodes, &depth, 6, &[2, 3, i64::MAX]).unwrap();
    assert_eq!((a.depth, a.cuts), (1, vec![(1, 2, true), (4, 3, true)]));
}

#[test]
fn every_operator_of_a_level_can_be_cut() {
    let (nodes, depth) = flat(&tree("(+ (+ (+ 0 0) (+ 0 0)) (+ (+ 0 0) (+ 0 0)))"));
    let a = abduce(&nodes, &depth, 4, &[1]).unwrap();
    assert_eq!((a.depth, a.cuts), (2, vec![(2, 1, true), (5, 1, true), (9, 1, true), (12, 1, true)]));
    let a = abduce(&nodes, &depth, 157, &[]).unwrap();
    assert_eq!((a.depth, a.cuts), (2, vec![(2, 7, false), (5, 50, false), (9, 50, false), (12, 50, false)]));
    assert!(abduce(&nodes, &depth, 201, &[]).is_none());
    let eight = "(+ (* (+ (+ 0 0) (+ 0 0)) (+ (+ 0 0) (+ 0 0))) (* (+ (+ 0 0) (+ 0 0)) (+ (+ 0 0) (+ 0 0))))";
    let (nodes, depth) = flat(&tree(eight));
    let a = abduce(&nodes, &depth, 17, &[]).unwrap();
    assert_eq!(a.depth, 3);
    assert_eq!(a.cuts.iter().map(|c| c.1).collect::<Vec<i64>>(), vec![0, 0, 0, 0, 0, 1, 0, 17]);
    assert!(abduce(&nodes, &depth, 20001, &[]).is_none());
}

#[test]
fn nodes_that_share_an_operand_have_one_cut() {
    let nodes = [Flat::Op('*', 1, 1), Flat::Op('+', 2, 2), Flat::Leaf(1)];
    let a = abduce(&nodes, &[0, 1, 2], 49, &[]).unwrap();
    assert_eq!((a.depth, a.cuts), (1, vec![(1, 7, false)]));
    let a = abduce(&nodes, &[0, 1, 2], 48, &[]).unwrap();
    assert_eq!((a.depth, a.cuts), (0, vec![(0, 48, false)]));
}

#[test]
fn a_text_is_analyzed() {
    let t = parse_str("(+ 1 (* 2 3))").unwrap();
    let (found, maxd) = analyze(&t, 7, &[]);
    assert_eq!(maxd, 2);
    assert!(matches!(found, Some(a) if a.depth == 2 && a.cuts.is_empty()));
    assert!(analyze(&t, 900, &[]).0.is_none());
    assert!(matches!(analyze(&parse_str("(* 9223372036854775807 9)").unwrap(), 1, &[]).0, Some(a) if a.depth == 0));
}

#[test]
fn literals_are_sorted_and_distinct() {
    assert_eq!(distinct_literals(&[3, 1, 3, 2]), vec![1, 2, 3]);
}

#[test]
fn the_program_names_nodes_cuts_and_verdict() {
    let p = emit(&tree("(+ 1 (* 2 3))"), Some(4), &[1, 2, 3]);
    assert!(p.contains("leaf(\"n1\", 1).\n"));
    assert!(p.contains("node(\"n0\", \"+\", \"n1\", \"n2\").\n"));
    assert!(p.contains("retrieved(\"n2\", 3).   // BROKEN: did not recurse here — memorized literal from context (a genuine retrieval)\n"));
    assert!(p.contains("model_answer(4).\n"));
    assert!(p.contains(".decl budget(b:number)\n"));
    assert!(p.contains("budget(1).\nbudget(B-1) :- budget(B), B > 0.\n"));
    assert!(p.contains("eval(N,V,B) :- budget(B), leaf(N,V).\n"));
    assert!(p.contains("eval(N,V,B) :- budget(B), B > 0, node(N,\"+\",A,C), eval(A,X,B-1), eval(C,Y,B-1), V = X + Y.\n"));
    assert!(p.contains("answer(V)     :- eval(\"n0\", V, 1).        // run at the model's effective depth\n"));
    assert!(p.contains("\n// correct math: 7 · model: 4 · effective recursion depth D=1 (1 cut) · FAITHFUL\n"));
    assert!(p.ends_with("the faithful program is the BROKEN (early-cut) recursion above.\n"));
}

#[test]
fn the_program_without_an_answer() {
    let p = emit(&tree("(+ 1 2)"), None, &[]);
    assert!(!p.contains("the CUTS"));
    assert!(p.contains("// model_answer: the model's answer did not decode to an integer\n"));
    assert!(p.ends_with("\n// correct math: 3 · (model answer not an integer)\n"));
    let p = emit(&tree("(+ 1 2)"), Some(900), &[]);
    assert!(p.ends_with(" · model: 900 · could not abduce a depth-cut reproducing it (semiring fallback territory)\n"));
}

#[test]
fn the_program_of_a_right_answer_has_no_cut() {
    let p = emit(&tree("(+ 1 (* 2 3))"), Some(7), &[1, 2, 3]);
    assert!(p.contains("// (none — the model recursed all the way; no cut needed)\n"));
    assert!(p.ends_with(" · effective recursion depth D=2 (0 cuts) · FAITHFUL\n"));
}

#[test]
fn the_stream_of_numbers() {
    let mut r = 1u64;
    assert_eq!(xorshift(&mut r), 1082269761);
    assert_eq!(r, 1082269761);
    assert_eq!(xorshift(&mut r), 1152992998833853505);
    let mut s = 1u64;
    assert_eq!(draw_leaf(9, &mut s), 1);
}

#[test]
fn results_within_bounds() {
    assert_eq!(bounded_result('+', 4, 5, 9), Some(9));
    assert_eq!(bounded_result('+', 5, 5, 9), None);
    assert_eq!(bounded_result('-', 4, 5, 9), None);
    assert_eq!(bounded_result('/', 8, 2, 9), Some(4));
    assert_eq!(bounded_result('/', 9, 2, 9), None);
    assert_eq!(bounded_result('%', 9, 0, 9), None);
    assert_eq!(bounded_result('*', i64::MAX, 2, i64::MAX), None);
}

#[test]
fn generated_expressions_have_their_values() {
    let mut r = 12345u64;
    for depth in 1..5 {
        for _ in 0..20 {
            let (t, v) = gen_arith(depth, 9, &mut r);
            assert!((0..=9).contains(&v));
            if t.starts_with('(') {
                assert_eq!(value(&t), Some(v), "{t}");
            } else {
                assert_eq!(t, v.to_string());
            }
            let (t, v) = gen_family(depth, &['<', '>'], 9, &mut r);
            if t.starts_with('(') {
                assert_eq!(value(&t), Some(v), "{t}");
            }
        }
    }
    let mut a = 7u64;
    let mut b = 7u64;
    assert_eq!(gen_arith(3, 9, &mut a), gen_arith(3, 9, &mut b));
    assert_eq!(a, b);
}

#[test]
fn two_level_expressions_have_three_operators() {
    let mut r = 99u64;
    for _ in 0..20 {
        let t = gen_depth2(&['+', '*', '-'], 9, &mut r).unwrap();
        let n = tree(&t);
        let mut ops = Vec::new();
        collect_ops(&n, &mut ops);
        let mut leaves = Vec::new();
        collect_leaves(&n, &mut leaves);
        assert_eq!((ops.len(), leaves.len()), (3, 4), "{t}");
        assert!(true_eval(&n).is_some());
    }
    assert!(gen_depth2(&['/'], 9, &mut r).is_none());
}

#[test]
fn an_expression_over_a_taught_symbol() {
    let mut r = 5u64;
    let (t, v) = gen_op(2, '@', '+', 9, &mut r).unwrap();
    assert!(t.contains('@') && !t.contains('+'));
    assert_eq!(value(&t.replace('@', "+")), Some(v));
}

#[test]
fn patch_pairs_differ_in_their_left_operands() {
    let mut r = 3u64;
    for _ in 0..20 {
        let (ta, tb, va, vb, la, lb) = gen_patch_pair(&mut r).unwrap();
        assert_ne!(la, lb);
        assert_eq!((value(&ta), value(&tb)), (Some(va), Some(vb)));
        assert_eq!(ta.split(") (").last(), tb.split(") (").last());
        let (ta, tb, va, vb) = gen_hold_pair(3, &mut r).unwrap();
        assert_eq!((value(&ta), value(&tb)), (Some(va), Some(vb)));
    }
    let before = r;
    assert!(gen_hold_pair(0, &mut r).is_none());
    assert_eq!(r, before);
}

#[test]
fn bind_pairs_differ_in_one_value() {
    let mut r = 11u64;
    for nvars in 0..10 {
        let (ta, tb, va, vb) = gen_bind_pair(nvars, &mut r).unwrap();
        assert_ne!(va, vb);
        assert_eq!(ta.len(), tb.len());
        let differs: Vec<(char, char)> = ta.chars().zip(tb.chars()).filter(|(a, b)| a != b).collect();
        assert_eq!(differs.len(), 1, "{ta} {tb}");
        assert_eq!(ta.matches('=').count(), nvars.clamp(2, 8) + 1);
        assert_eq!(ta.chars().next(), ta.chars().rev().nth(1));
    }
}

/// What the rules of a program derive: the facts are read from its text, and the rules are run as they stand in it.
fn derived(program: &str) -> Vec<i64> {
    let word = |l: &str| -> Vec<String> {
        let inner = &l[l.find('(').unwrap() + 1..l.find(')').unwrap()];
        inner.split(", ").map(|w| w.trim_matches('"').to_string()).collect()
    };
    let facts = |name: &str| -> Vec<Vec<String>> {
        program.lines().filter(|l| l.starts_with(name) && !l.contains(":-")).map(word).collect()
    };
    let run: i64 = facts("budget(")[0][0].parse().unwrap();
    let mut eval: Vec<(String, i64, i64)> = Vec::new();
    for b in 0..=run {
        for l in facts("leaf(") {
            eval.push((l[0].clone(), l[1].parse().unwrap(), b));
        }
        if b == 0 {
            for l in facts("retrieved(") {
                eval.push((l[0].clone(), l[1].parse().unwrap(), b));
            }
        } else {
            for n in facts("node(") {
                let of = |id: &str| -> Vec<i64> {
                    eval.iter().filter(|e| e.0 == id && e.2 == b - 1).map(|e| e.1).collect()
                };
                let (xs, ys) = (of(&n[2]), of(&n[3]));
                for x in &xs {
                    for y in &ys {
                        let v = match n[1].as_str() {
                            "+" => x + y,
                            "-" => x - y,
                            "*" => x * y,
                            _ => x / y,
                        };
                        eval.push((n[0].clone(), v, b));
                    }
                }
            }
        }
    }
    eval.into_iter().filter(|e| e.0 == "n0" && e.2 == run).map(|e| e.1).collect()
}

#[test]
fn the_program_derives_the_answer() {
    assert_eq!(derived(&emit(&tree("(+ 2 3)"), Some(5), &[])), vec![5]);
    assert_eq!(derived(&emit(&tree("(+ 1 (* 2 3))"), Some(7), &[1, 2, 3])), vec![7]);
    assert_eq!(derived(&emit(&tree("(+ 1 (* 2 3))"), Some(4), &[1, 2, 3])), vec![4]);
    assert_eq!(derived(&emit(&tree("(- (* 4 5) (+ 1 (* 2 3)))"), Some(13), &[])), vec![13]);
}

#[test]
fn a_tree_is_flattened_at_any_depth() {
    let (mut nodes, mut depth) = (Vec::new(), Vec::new());
    assert_eq!(flatten(&tree("(+ 1 2)"), &mut nodes, &mut depth, 40), 0);
    assert_eq!(depth, vec![40, 41, 41]);
    assert_eq!(flatten(&tree("(+ 1 2)"), &mut nodes, &mut depth, 7), 3);
    assert!(matches!(nodes[3], Flat::Op('+', 4, 5)));
    assert_eq!(depth, vec![40, 41, 41, 7, 8, 8]);
}

#[test]
fn generated_expressions_are_nested_exactly() {
    let nesting = |s: &str| -> usize {
        let (mut open, mut most) = (0usize, 0usize);
        for c in s.chars() {
            match c {
                '(' => open += 1,
                ')' => open -= 1,
                _ => {}
            }
            most = most.max(open);
        }
        most
    };
    let mut r = 7u64;
    // No quotient and no remainder is a number from 0 to 0, so that nothing is nested.
    assert_eq!(gen_family(2, &['/', '%'], 0, &mut r).0, "0");
    // A product of one: the number is padded where no attempt fits.
    assert_eq!(nesting(&gen_family(1, &['/'], 1, &mut r).0), 1);
    for depth in 0..4 {
        for maxv in [0, 1, 9] {
            let (s, v) = gen_arith(depth, maxv, &mut r);
            assert_eq!(nesting(&s), depth, "{s}");
            assert!((0..=maxv).contains(&v));
            for ops in [&['<', '>'][..], &['&', '|', '^'], &['+']] {
                assert_eq!(nesting(&gen_family(depth, ops, maxv, &mut r).0), depth);
            }
        }
    }
}
