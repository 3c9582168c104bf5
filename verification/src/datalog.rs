//! The text of the recursive Datalog program for one expression and one answer.
use vstd::prelude::*;
use std::collections::HashMap;
use crate::recursion_dl::{
    abduce, abducted, abduction_is, eval_bounded, flat_depths, flat_lens, flat_nodes, flat_value, flatten, greatest, links_ok,
    max_depth, Abduction, Flat, Node, Outcome,
};
use crate::recursion_laws::{abduction_reproduces, cut_map, flat_links};
use crate::text::{dec, int_text, push_i64, push_usize};

verus! {

broadcast use vstd::std_specs::hash::group_hash_axioms;

pub open spec fn header_text() -> Seq<char> {
    "// recursion → depth-bounded recursive Datalog  (fieldrun --recursion-explain --datalog · Soufflé)\n"@
        + "// FAITHFUL to the model (interpretability first): a depth-bounded recursive evaluator whose CUT clause\n"@
        + "// (out of budget → a memorized/retrieved value) reproduces the model's answer — right or wrong. The\n"@
        + "// budget B is the model's effective recursion depth; the cut is the semiring/forge-tax core made legible.\n"@
        + "// Run:  souffle -D- this.dl\n\n"@
        + ".decl leaf(n:symbol, v:number)\n.decl node(n:symbol, op:symbol, a:symbol, b:symbol)\n"@
        + ".decl retrieved(n:symbol, v:number)\n.decl budget(b:number)\n.decl eval(n:symbol, v:number, b:number)\n"@
        + ".decl answer(v:number)\n.decl model_answer(v:number)\n"@
        + ".decl reproduces(v:number)\n.decl diverges(prog:number, model:number)\n\n"@
        + "// ---- parse tree (recovered from the recursion-explain bracket folds) ----\n"@
}

/// The fact that describes node `i`.
pub open spec fn fact_text(i: nat, f: Flat) -> Seq<char> {
    match f {
        Flat::Leaf(v) => "leaf(\"n"@ + dec(i) + "\", "@ + int_text(v as int) + ").\n"@,
        Flat::Op(op, a, b) => "node(\"n"@ + dec(i) + "\", \""@ + seq![op] + "\", \"n"@ + dec(a as nat) + "\", \"n"@
            + dec(b as nat) + "\").\n"@,
    }
}

pub open spec fn facts_text(nodes: Seq<Flat>) -> Seq<char>
    decreases nodes.len(),
{
    if nodes.len() == 0 {
        Seq::empty()
    } else {
        facts_text(nodes.drop_last()) + fact_text((nodes.len() - 1) as nat, nodes.last())
    }
}

/// The fact that gives a cut node its retrieved value.
pub open spec fn cut_text(cut: (usize, i64, bool)) -> Seq<char> {
    "retrieved(\"n"@ + dec(cut.0 as nat) + "\", "@ + int_text(cut.1 as int)
        + ").   // BROKEN: did not recurse here — "@ + (if cut.2 {
        "memorized literal from context (a genuine retrieval)"@
    } else {
        "value the model held (not a clean context literal)"@
    }) + "\n"@
}

pub open spec fn cut_lines(cuts: Seq<(usize, i64, bool)>) -> Seq<char>
    decreases cuts.len(),
{
    if cuts.len() == 0 {
        Seq::empty()
    } else {
        cut_lines(cuts.drop_last()) + cut_text(cuts.last())
    }
}

pub open spec fn cuts_text(cuts: Seq<(usize, i64, bool)>) -> Seq<char> {
    "\n// ---- the CUTS: where the model ran out of recursion budget and RETRIEVED a value (abduced) ----\n"@
        + cut_lines(cuts) + (if cuts.len() == 0 {
        "// (none — the model recursed all the way; no cut needed)\n"@
    } else {
        Seq::empty()
    })
}

pub open spec fn answer_text(answer: Option<i64>) -> Seq<char> {
    match answer {
        Some(a) => "model_answer("@ + int_text(a as int) + ").\n"@,
        None => "// model_answer: the model's answer did not decode to an integer\n"@,
    }
}

/// The rules, run at the budget `b`. The budgets are the numbers from there down to zero; a leaf has its value under
/// every budget.
pub open spec fn rules_text(b: int) -> Seq<char> {
    "\n// ---- the depth-bounded RECURSIVE evaluator (cut = retrieval at the budget) ----\n"@ + "budget("@ + int_text(b)
        + ").\nbudget(B-1) :- budget(B), B > 0.\n"@
        + "eval(N,V,B) :- budget(B), B <= 0, retrieved(N,V).                       // CUT (the semiring core)\n"@
        + "eval(N,V,B) :- budget(B), leaf(N,V).\n"@
        + "eval(N,V,B) :- budget(B), B > 0, node(N,\"+\",A,C), eval(A,X,B-1), eval(C,Y,B-1), V = X + Y.\n"@
        + "eval(N,V,B) :- budget(B), B > 0, node(N,\"-\",A,C), eval(A,X,B-1), eval(C,Y,B-1), V = X - Y.\n"@
        + "eval(N,V,B) :- budget(B), B > 0, node(N,\"*\",A,C), eval(A,X,B-1), eval(C,Y,B-1), V = X * Y.\n"@
        + "eval(N,V,B) :- budget(B), B > 0, node(N,\"/\",A,C), eval(A,X,B-1), eval(C,Y,B-1), Y != 0, V = X / Y.\n\n"@
        + "answer(V)     :- eval(\"n0\", V, "@ + int_text(b) + ").        // run at the model's effective depth\n"@
        + "reproduces(V)  :- answer(V), model_answer(V).             // FAITHFUL: symbolic == model ✓\n"@
        + "diverges(P,M)  :- answer(P), model_answer(M), P != M.\n\n"@
        + ".output answer\n.output reproduces\n.output diverges\n"@
}

/// How the model's answer was reproduced. What was abduced always reproduces the answer, so the verdict on it is
/// FAITHFUL.
pub open spec fn reproduction_text(correct: Outcome, d: int, cuts: Seq<(usize, i64, bool)>, m: i64) -> Seq<char> {
    " · model: "@ + int_text(m as int) + " · effective recursion depth D="@ + int_text(d) + " ("@ + dec(cuts.len())
        + " cut"@ + (if cuts.len() == 1 { Seq::empty() } else { "s"@ }) + ") · FAITHFUL\n"@ + (if correct
        == Outcome::Value(m) {
        Seq::empty()
    } else {
        "// → the model is mathematically WRONG; the faithful program is the BROKEN (early-cut) recursion above.\n"@
    })
}

pub open spec fn correct_text(correct: Outcome) -> Seq<char> {
    "\n// correct math: "@ + (match correct {
        Outcome::Value(v) => int_text(v as int),
        _ => "?"@,
    })
}

/// The closing comment: the true value, and what became of the model's answer.
pub open spec fn verdict_text(
    correct: Outcome,
    found: Option<(int, Seq<(usize, i64, bool)>)>,
    answer: Option<i64>,
) -> Seq<char> {
    correct_text(correct) + (match (found, answer) {
        (Some((d, cuts)), Some(m)) => reproduction_text(correct, d, cuts, m),
        (None, Some(m)) => " · model: "@ + int_text(m as int)
            + " · could not abduce a depth-cut reproducing it (semiring fallback territory)\n"@,
        _ => " · (model answer not an integer)\n"@,
    })
}

/// What is abduced for a tree, if the answer is known and can be reproduced.
pub open spec fn tree_abduction(root: Node, answer: Option<i64>, literals: Seq<i64>) -> Option<
    (int, Seq<(usize, i64, bool)>),
> {
    match answer {
        Some(a) => abducted(flat_nodes(root, 0), flat_depths(root, 0), a, literals),
        None => None,
    }
}

/// The evaluation of the whole tree does not leave the 64-bit range.
pub open spec fn emit_in_range(root: Node) -> bool {
    !(flat_value(flat_nodes(root, 0), 0, i64::MAX as int, Map::empty()) is OutOfRange)
}

/// The program. Without an abduction it runs at the full depth of the tree.
pub open spec fn emit_text(root: Node, answer: Option<i64>, literals: Seq<i64>) -> Seq<char> {
    let nodes = flat_nodes(root, 0);
    let found = tree_abduction(root, answer, literals);
    let budget = match found {
        Some((d, _)) => d,
        None => (greatest(flat_depths(root, 0)) as i32) as int,
    };
    header_text() + facts_text(nodes) + (match found {
        Some((_, cuts)) => cuts_text(cuts),
        None => Seq::empty(),
    }) + answer_text(answer) + rules_text(budget) + verdict_text(
        flat_value(nodes, 0, i64::MAX as int, Map::empty()),
        found,
        answer,
    )
}

fn push_header(o: &mut String)
    ensures
        final(o)@ == old(o)@ + header_text(),
{
    o.append("// recursion → depth-bounded recursive Datalog  (fieldrun --recursion-explain --datalog · Soufflé)\n");
    o.append("// FAITHFUL to the model (interpretability first): a depth-bounded recursive evaluator whose CUT clause\n");
    o.append("// (out of budget → a memorized/retrieved value) reproduces the model's answer — right or wrong. The\n");
    o.append("// budget B is the model's effective recursion depth; the cut is the semiring/forge-tax core made legible.\n");
    o.append("// Run:  souffle -D- this.dl\n\n");
    o.append(".decl leaf(n:symbol, v:number)\n.decl node(n:symbol, op:symbol, a:symbol, b:symbol)\n");
    o.append(".decl retrieved(n:symbol, v:number)\n.decl budget(b:number)\n.decl eval(n:symbol, v:number, b:number)\n");
    o.append(".decl answer(v:number)\n.decl model_answer(v:number)\n");
    o.append(".decl reproduces(v:number)\n.decl diverges(prog:number, model:number)\n\n");
    o.append("// ---- parse tree (recovered from the recursion-explain bracket folds) ----\n");
    assert(o@ =~= old(o)@ + header_text());
}

fn push_fact(o: &mut String, i: usize, f: &Flat)
    ensures
        final(o)@ == old(o)@ + fact_text(i as nat, *f),
{
    match f {
        Flat::Leaf(v) => {
            o.append("leaf(\"n");
            push_usize(o, i);
            o.append("\", ");
            push_i64(o, *v);
            o.append(").\n");
            assert(o@ =~= old(o)@ + fact_text(i as nat, *f));
        },
        Flat::Op(op, a, b) => {
            o.append("node(\"n");
            push_usize(o, i);
            o.append("\", \"");
            o.push(*op);
            o.append("\", \"n");
            push_usize(o, *a);
            o.append("\", \"n");
            push_usize(o, *b);
            o.append("\").\n");
            assert(o@ =~= old(o)@ + fact_text(i as nat, *f));
        },
    }
}

fn push_facts(o: &mut String, nodes: &[Flat])
    ensures
        final(o)@ == old(o)@ + facts_text(nodes@),
{
    assert(o@ =~= old(o)@ + facts_text(nodes@.take(0)));
    for i in 0..nodes.len()
        invariant
            o@ == old(o)@ + facts_text(nodes@.take(i as int)),
    {
        push_fact(o, i, &nodes[i]);
        assert(nodes@.take(i + 1).drop_last() =~= nodes@.take(i as int));
        assert(o@ =~= old(o)@ + facts_text(nodes@.take(i + 1)));
    }
    assert(nodes@.take(nodes.len() as int) =~= nodes@);
}

fn push_cut(o: &mut String, cut: (usize, i64, bool))
    ensures
        final(o)@ == old(o)@ + cut_text(cut),
{
    o.append("retrieved(\"n");
    push_usize(o, cut.0);
    o.append("\", ");
    push_i64(o, cut.1);
    o.append(").   // BROKEN: did not recurse here — ");
    if cut.2 {
        o.append("memorized literal from context (a genuine retrieval)");
    } else {
        o.append("value the model held (not a clean context literal)");
    }
    o.append("\n");
    assert(o@ =~= old(o)@ + cut_text(cut));
}

fn push_cuts(o: &mut String, cuts: &[(usize, i64, bool)])
    ensures
        final(o)@ == old(o)@ + cuts_text(cuts@),
{
    let ghost title =
        "\n// ---- the CUTS: where the model ran out of recursion budget and RETRIEVED a value (abduced) ----\n"@;
    o.append("\n// ---- the CUTS: where the model ran out of recursion budget and RETRIEVED a value (abduced) ----\n");
    assert(o@ =~= old(o)@ + title + cut_lines(cuts@.take(0)));
    for i in 0..cuts.len()
        invariant
            o@ == old(o)@ + title + cut_lines(cuts@.take(i as int)),
    {
        push_cut(o, cuts[i]);
        assert(cuts@.take(i + 1).drop_last() =~= cuts@.take(i as int));
        assert(o@ =~= old(o)@ + title + cut_lines(cuts@.take(i + 1)));
    }
    assert(cuts@.take(cuts.len() as int) =~= cuts@);
    if cuts.len() == 0 {
        o.append("// (none — the model recursed all the way; no cut needed)\n");
    }
    assert(o@ =~= old(o)@ + cuts_text(cuts@));
}

fn push_answer(o: &mut String, answer: Option<i64>)
    ensures
        final(o)@ == old(o)@ + answer_text(answer),
{
    match answer {
        Some(a) => {
            o.append("model_answer(");
            push_i64(o, a);
            o.append(").\n");
            assert(o@ =~= old(o)@ + answer_text(answer));
        },
        None => o.append("// model_answer: the model's answer did not decode to an integer\n"),
    }
}

fn push_rules(o: &mut String, b: i64)
    ensures
        final(o)@ == old(o)@ + rules_text(b as int),
{
    o.append("\n// ---- the depth-bounded RECURSIVE evaluator (cut = retrieval at the budget) ----\n");
    o.append("budget(");
    push_i64(o, b);
    o.append(").\nbudget(B-1) :- budget(B), B > 0.\n");
    o.append("eval(N,V,B) :- budget(B), B <= 0, retrieved(N,V).                       // CUT (the semiring core)\n");
    o.append("eval(N,V,B) :- budget(B), leaf(N,V).\n");
    o.append("eval(N,V,B) :- budget(B), B > 0, node(N,\"+\",A,C), eval(A,X,B-1), eval(C,Y,B-1), V = X + Y.\n");
    o.append("eval(N,V,B) :- budget(B), B > 0, node(N,\"-\",A,C), eval(A,X,B-1), eval(C,Y,B-1), V = X - Y.\n");
    o.append("eval(N,V,B) :- budget(B), B > 0, node(N,\"*\",A,C), eval(A,X,B-1), eval(C,Y,B-1), V = X * Y.\n");
    o.append("eval(N,V,B) :- budget(B), B > 0, node(N,\"/\",A,C), eval(A,X,B-1), eval(C,Y,B-1), Y != 0, V = X / Y.\n\n");
    o.append("answer(V)     :- eval(\"n0\", V, ");
    push_i64(o, b);
    o.append(").        // run at the model's effective depth\n");
    o.append("reproduces(V)  :- answer(V), model_answer(V).             // FAITHFUL: symbolic == model ✓\n");
    o.append("diverges(P,M)  :- answer(P), model_answer(M), P != M.\n\n");
    o.append(".output answer\n.output reproduces\n.output diverges\n");
    assert(o@ =~= old(o)@ + rules_text(b as int));
}

/// The cut values by node.
fn cut_table(cuts: &[(usize, i64, bool)]) -> (m: HashMap<usize, i64>)
    ensures
        m@ == cut_map(cuts@),
{
    let mut m: HashMap<usize, i64> = HashMap::new();
    assert(m@ =~= cut_map(cuts@.take(0)));
    for i in 0..cuts.len()
        invariant
            m@ == cut_map(cuts@.take(i as int)),
    {
        assert(cuts@.take(i + 1).drop_last() =~= cuts@.take(i as int));
        m.insert(cuts[i].0, cuts[i].1);
    }
    assert(cuts@.take(cuts.len() as int) =~= cuts@);
    m
}

fn push_reproduction(o: &mut String, correct: Outcome, a: &Abduction, m: i64, nodes: &[Flat])
    requires
        nodes@.len() > 0,
        links_ok(nodes@),
        flat_value(nodes@, 0, a.depth as int, cut_map(a.cuts@)) == Outcome::Value(m),
    ensures
        final(o)@ == old(o)@ + reproduction_text(correct, a.depth as int, a.cuts@, m),
{
    o.append(" · model: ");
    push_i64(o, m);
    o.append(" · effective recursion depth D=");
    push_i64(o, a.depth);
    o.append(" (");
    push_usize(o, a.cuts.len());
    o.append(" cut");
    if a.cuts.len() != 1 {
        o.append("s");
    }
    let table = cut_table(a.cuts.as_slice());
    if eval_bounded(nodes, 0, a.depth, &table) == Outcome::Value(m) {
        o.append(") · FAITHFUL\n");
    } else {
        o.append(") · NOT reproduced\n");
    }
    if correct != Outcome::Value(m) {
        o.append("// → the model is mathematically WRONG; the faithful program is the BROKEN (early-cut) recursion above.\n");
    }
    assert(o@ =~= old(o)@ + reproduction_text(correct, a.depth as int, a.cuts@, m));
}

fn push_correct(o: &mut String, correct: Outcome)
    ensures
        final(o)@ == old(o)@ + correct_text(correct),
{
    o.append("\n// correct math: ");
    match correct {
        Outcome::Value(v) => push_i64(o, v),
        _ => o.append("?"),
    }
    assert(o@ =~= old(o)@ + correct_text(correct));
}

fn push_verdict(o: &mut String, correct: Outcome, abd: &Option<Abduction>, answer: Option<i64>, nodes: &[Flat])
    requires
        nodes@.len() > 0,
        links_ok(nodes@),
        (abd, answer) matches (Some(a), Some(m)) ==> flat_value(nodes@, 0, a.depth as int, cut_map(a.cuts@))
            == Outcome::Value(m),
    ensures
        final(o)@ == old(o)@ + verdict_text(
            correct,
            match *abd {
                Some(a) => Some((a.depth as int, a.cuts@)),
                None => None,
            },
            answer,
        ),
{
    push_correct(o, correct);
    let ghost head = correct_text(correct);
    match (abd, answer) {
        (Some(a), Some(m)) => {
            push_reproduction(o, correct, a, m, nodes);
            assert(o@ =~= old(o)@ + (head + reproduction_text(correct, a.depth as int, a.cuts@, m)));
        },
        (None, Some(m)) => {
            o.append(" · model: ");
            push_i64(o, m);
            o.append(" · could not abduce a depth-cut reproducing it (semiring fallback territory)\n");
            assert(o@ =~= old(o)@ + verdict_text(correct, None, answer));
        },
        _ => {
            o.append(" · (model answer not an integer)\n");
            assert(o@ =~= old(o)@ + (head + " · (model answer not an integer)\n"@));
        },
    }
}

/// The program for every tree; `None` when its evaluation leaves the 64-bit range.
pub fn try_emit(root: &Node, model_answer: Option<i64>, literals: &[i64]) -> (r: Option<String>)
    ensures
        match r {
            Some(t) => emit_in_range(*root) && t@ == emit_text(*root, model_answer, literals@),
            None => !emit_in_range(*root),
        },
{
    let mut nodes: Vec<Flat> = Vec::new();
    let mut depth: Vec<usize> = Vec::new();
    flatten(root, &mut nodes, &mut depth, 0);
    let count: usize = nodes.len();
    proof {
        flat_lens(*root, 0, 0);
        assert(nodes@ =~= flat_nodes(*root, 0));
        assert(depth@ =~= flat_depths(*root, 0));
        flat_links(*root);
    }
    let none: HashMap<usize, i64> = HashMap::new();
    assert(none@ =~= Map::empty());
    let correct = eval_bounded(nodes.as_slice(), 0, i64::MAX, &none);
    if correct == Outcome::OutOfRange {
        return None;
    }
    let abd: Option<Abduction> = match model_answer {
        Some(a) => abduce(nodes.as_slice(), depth.as_slice(), a, literals),
        None => None,
    };
    let ghost found = tree_abduction(*root, model_answer, literals@);
    assert(match abd {
        Some(a) => found matches Some(s) && abduction_is(a, s),
        None => found is None,
    });
    let mut o = String::new();
    push_header(&mut o);
    push_facts(&mut o, nodes.as_slice());
    let budget: i64 = match &abd {
        Some(a) => {
            push_cuts(&mut o, a.cuts.as_slice());
            a.depth
        },
        None => #[verifier::truncate] (max_depth(depth.as_slice()) as i32) as i64,
    };
    push_answer(&mut o, model_answer);
    push_rules(&mut o, budget);
    proof {
        if let Some(a) = model_answer {
            abduction_reproduces(nodes@, depth@, a, literals@);
        }
    }
    push_verdict(&mut o, correct, &abd, model_answer, nodes.as_slice());
    assert(o@ =~= emit_text(*root, model_answer, literals@));
    Some(o)
}

/// Emits the depth-bounded recursive program that reproduces the model's answer. `literals` are the integers of
/// the context, the candidates for retrieved values. The evaluation of the tree must not leave the 64-bit range.
pub fn emit(root: &Node, model_answer: Option<i64>, literals: &[i64]) -> (r: String)
    requires
        emit_in_range(*root),
    ensures
        r@ == emit_text(*root, model_answer, literals@),
{
    try_emit(root, model_answer, literals).unwrap()
}

} // verus!
