//! What holds of every written program: its text is a Datalog program, and what that program derives is the answer.
use vstd::prelude::*;
use crate::datalog::{
    answer_text, correct_text, cut_text, cuts_text, emit_in_range, emit_text, facts_text, header_text, reproduction_text,
    rules_text, tree_abduction,
};
use crate::datalog_derivation::{
    answer_is_exact, clauses_of, combined, divergence_is_exact, eval_is_exact, is_cut_fact, is_node_fact, is_number_fact,
    is_valid, relations_differ, reproduction_is_exact, root_worth, rule_is_there, worth, Written,
};
use crate::datalog_program::{
    answer_clause, answer_facts, answer_of, budget_clause, budget_of, computed, cut_clause, cut_fact, cut_facts, declared,
    diverges_clause, diverges_of, eval_of, leaf_clause, leaf_of, less_one, model_answer_of, node_fact, node_facts, node_name,
    node_of, num, operator_clause, program, reproduces_clause, reproduces_of, retrieved_of, rules, sym, var,
};
use crate::datalog_reading::{
    divided, expr_kind, is_declared, is_typed, is_well_declared, is_well_typed, program_of, text_derives, Atom, Clause, Expr,
    Item, Kinds, Term, Val,
};
use crate::datalog_text::{emitted_is_read, quotable, written_run};
use crate::recursion_dl::{
    applied, flat_depths, flat_lens, flat_nodes, flat_value, frontier, height, quotient, size, tree_value, Flat, Node,
    Outcome,
};
use crate::recursion_laws::{
    abduction_lies_in_range, abduction_reproduces, cut_map, cuts_prefer_the_context, enough_budget_is_exact, flat_links,
    frontier_is_operators, greatest_depth_is_height, height_under_size,
};
use crate::text::{dec, int_text};
use crate::words::has_suffix;

verus! {

/// The number that a tree stands for, by what its operators are on the integers.
pub open spec fn exact(n: Node) -> Option<int>
    decreases n,
{
    match n {
        Node::Leaf(v) => Some(v as int),
        Node::Op(op, a, b, _, _) => match (exact(*a), exact(*b)) {
            (Some(x), Some(y)) => combined(op, x, y),
            _ => None,
        },
    }
}

/// No operator of the tree is the quotation mark.
pub open spec fn is_quotable(n: Node) -> bool
    decreases n,
{
    match n {
        Node::Leaf(_) => true,
        Node::Op(op, a, b, _, _) => op != '"' && is_quotable(*a) && is_quotable(*b),
    }
}

proof fn flat_is_quotable(n: Node, base: int)
    requires
        is_quotable(n),
    ensures
        quotable(flat_nodes(n, base)),
    decreases n,
{
    if let Node::Op(op, a, b, _, _) = n {
        let left = flat_nodes(*a, base + 1);
        let right = flat_nodes(*b, base + 1 + left.len());
        flat_is_quotable(*a, base + 1);
        flat_is_quotable(*b, base + 1 + left.len());
        let all = flat_nodes(n, base);
        assert forall|i: int| 0 <= i < all.len() implies (#[trigger] all[i] matches Flat::Op(o, _, _) ==> o != '"') by {
            if 0 < i <= left.len() {
                assert(all[i] == left[i - 1]);
            } else if i > left.len() {
                assert(all[i] == right[i - 1 - left.len()]);
            }
        }
    }
}

proof fn quotients_agree(x: int, y: int)
    requires
        y != 0,
    ensures
        quotient(x, y) == divided(x, y),
{
}

/// An operation that stays within the 64-bit range is the one on the integers.
pub proof fn operations_are_exact(op: char, x: i64, y: i64)
    ensures
        match applied(op, x, y) {
            Outcome::Value(v) => combined(op, x as int, y as int) == Some(v as int),
            Outcome::Undefined => combined(op, x as int, y as int) is None,
            Outcome::OutOfRange => combined(op, x as int, y as int) matches Some(v) && (v < i64::MIN || v > i64::MAX),
        },
{
    if y != 0 {
        quotients_agree(x as int, y as int);
    }
}

/// An evaluation within the 64-bit range gives the number that the tree stands for, and none where there is none.
pub proof fn evaluation_is_exact(n: Node)
    ensures
        match tree_value(n) {
            Outcome::Value(v) => exact(n) == Some(v as int),
            Outcome::Undefined => exact(n) is None,
            Outcome::OutOfRange => true,
        },
    decreases n,
{
    if let Node::Op(op, a, b, _, _) = n {
        evaluation_is_exact(*a);
        evaluation_is_exact(*b);
        if let (Outcome::Value(x), Outcome::Value(y)) = (tree_value(*a), tree_value(*b)) {
            operations_are_exact(op, x, y);
        }
    }
}

/// A bounded evaluation within the 64-bit range gives what the node is worth.
pub proof fn bounded_evaluation_is_exact(nodes: Seq<Flat>, cuts: Map<usize, i64>, idx: int, b: int)
    ensures
        match flat_value(nodes, idx, b, cuts) {
            Outcome::Value(v) => worth(nodes, cuts, idx, b) == Some(v as int),
            Outcome::Undefined => worth(nodes, cuts, idx, b) is None,
            Outcome::OutOfRange => true,
        },
    decreases b,
{
    if let Flat::Op(op, a, c) = nodes[idx] {
        if b > 0 {
            bounded_evaluation_is_exact(nodes, cuts, a as int, b - 1);
            bounded_evaluation_is_exact(nodes, cuts, c as int, b - 1);
            if let (Outcome::Value(x), Outcome::Value(y)) = (
                flat_value(nodes, a as int, b - 1, cuts),
                flat_value(nodes, c as int, b - 1, cuts),
            ) {
                operations_are_exact(op, x, y);
            }
        }
    }
}

/// A budget that covers the tree gives it what it stands for.
proof fn full_budget_is_exact(nodes: Seq<Flat>, n: Node, base: int, b: int, cuts: Map<usize, i64>)
    requires
        0 <= base,
        base + size(n) <= nodes.len() <= usize::MAX,
        nodes.subrange(base, base + size(n)) == flat_nodes(n, base),
        b >= height(n),
    ensures
        worth(nodes, cuts, base, b) == exact(n),
    decreases n,
{
    flat_lens(n, base, 0);
    assert(nodes[base] == nodes.subrange(base, base + size(n))[0]);
    if let Node::Op(op, a, c, _, _) = n {
        let left = flat_nodes(*a, base + 1);
        let mid = base + 1 + left.len();
        let right = flat_nodes(*c, mid);
        flat_lens(*a, base + 1, 0);
        flat_lens(*c, mid, 0);
        let all = flat_nodes(n, base);
        let here = nodes.subrange(base, base + size(n));
        assert forall|i: int| 0 <= i < left.len() implies nodes[base + 1 + i] == left[i] by {
            assert(here[1 + i] == all[1 + i]);
        }
        assert(nodes.subrange(base + 1, base + 1 + size(*a)) =~= left);
        assert forall|i: int| 0 <= i < right.len() implies nodes[mid + i] == right[i] by {
            assert(here[1 + left.len() + i] == all[1 + left.len() + i]);
        }
        assert(nodes.subrange(mid, mid + size(*c)) =~= right);
        full_budget_is_exact(nodes, *a, base + 1, b - 1, cuts);
        full_budget_is_exact(nodes, *c, mid, b - 1, cuts);
    }
}

/// The program that is written for a tree and an answer.
pub open spec fn written_for(root: Node, answer: Option<i64>, literals: Seq<i64>) -> Written {
    Written {
        nodes: flat_nodes(root, 0),
        cuts: written_run(root, answer, literals).1,
        answer,
        run: written_run(root, answer, literals).0,
    }
}

proof fn written_is_valid(root: Node, answer: Option<i64>, literals: Seq<i64>)
    requires
        size(root) <= usize::MAX,
        tree_abduction(root, answer, literals) is None ==> height(root) <= i32::MAX,
    ensures
        is_valid(written_for(root, answer, literals)),
{
    let p = written_for(root, answer, literals);
    let depth = flat_depths(root, 0);
    flat_lens(root, 0, 0);
    flat_links(root);
    height_under_size(root);
    match tree_abduction(root, answer, literals) {
        Some((d, cuts)) => {
            let a = answer->0;
            abduction_lies_in_range(p.nodes, depth, a, literals);
            cuts_prefer_the_context(p.nodes, depth, a, literals);
            frontier_is_operators(p.nodes, depth, d, p.nodes.len() as int);
            let cut = frontier(p.nodes, depth, d, p.nodes.len() as int);
            assert forall|j: int| 0 <= j < p.cuts.len() implies (#[trigger] p.cuts[j]).0 < p.nodes.len()
                && p.nodes[p.cuts[j].0 as int] is Op by {
                assert(p.cuts[j].0 == cut[j]);
            }
            assert forall|j: int, k: int| 0 <= j < k < p.cuts.len() implies (#[trigger] p.cuts[j]).0 < (
            #[trigger] p.cuts[k]).0 by {
                assert(p.cuts[j].0 == cut[j] && p.cuts[k].0 == cut[k]);
            }
        },
        None => greatest_depth_is_height(root),
    }
}

/// What is written for an answer that can be reproduced derives that answer: for the root, at the budget that is written,
/// the answer and no other number. It is put out as the program's answer and as reproduced, and nothing diverges.
pub proof fn written_program_derives_the_answer(root: Node, answer: i64, literals: Seq<i64>, v: int, m: int)
    requires
        size(root) <= usize::MAX,
        is_quotable(root),
        tree_abduction(root, Some(answer), literals) is Some,
    ensures
        ({
            let text = emit_text(root, Some(answer), literals);
            let found = tree_abduction(root, Some(answer), literals)->0;
            &&& text_derives(text, "eval"@, seq![Val::Sym("n0"@), Val::Num(v), Val::Num(found.0)]) == (v == answer)
            &&& text_derives(text, "answer"@, seq![Val::Num(v)]) == (v == answer)
            &&& text_derives(text, "reproduces"@, seq![Val::Num(v)]) == (v == answer)
            &&& !text_derives(text, "diverges"@, seq![Val::Num(v), Val::Num(m)])
        }),
{
    let p = written_for(root, Some(answer), literals);
    let text = emit_text(root, Some(answer), literals);
    flat_is_quotable(root, 0);
    emitted_is_read(root, Some(answer), literals);
    written_is_valid(root, Some(answer), literals);
    abduction_reproduces(p.nodes, flat_depths(root, 0), answer, literals);
    bounded_evaluation_is_exact(p.nodes, cut_map(p.cuts), 0, p.run);
    assert(root_worth(p) == Some(answer as int));
    root_is_named();
    eval_is_exact(p, 0, p.run, v);
    answer_is_exact(p, v);
    reproduction_is_exact(p, v);
    divergence_is_exact(p, v, m);
}

proof fn root_is_named()
    ensures
        "n0"@ == node_name(0),
{
    reveal_strlit("n0");
    assert(dec(0) =~= seq!['0']);
    assert(node_name(0) =~= "n0"@);
}

/// What is written where no answer is reproduced derives the number that the tree stands for, and no other. It diverges
/// from a known answer exactly where that answer is wrong.
pub proof fn written_program_derives_the_value(root: Node, answer: Option<i64>, literals: Seq<i64>, v: int, m: int)
    requires
        size(root) <= usize::MAX,
        height(root) <= i32::MAX,
        is_quotable(root),
        tree_abduction(root, answer, literals) is None,
    ensures
        ({
            let text = emit_text(root, answer, literals);
            let depth = height(root) as int;
            &&& text_derives(text, "eval"@, seq![Val::Sym("n0"@), Val::Num(v), Val::Num(depth)]) == (exact(root) == Some(v))
            &&& text_derives(text, "answer"@, seq![Val::Num(v)]) == (exact(root) == Some(v))
            &&& text_derives(text, "reproduces"@, seq![Val::Num(v)]) == (exact(root) == Some(v) && (answer matches Some(a)
                && a == v))
            &&& text_derives(text, "diverges"@, seq![Val::Num(v), Val::Num(m)]) == (exact(root) == Some(v) && (
            answer matches Some(a) && a == m) && v != m)
        }),
{
    let p = written_for(root, answer, literals);
    let text = emit_text(root, answer, literals);
    flat_is_quotable(root, 0);
    emitted_is_read(root, answer, literals);
    written_is_valid(root, answer, literals);
    height_under_size(root);
    greatest_depth_is_height(root);
    flat_lens(root, 0, 0);
    assert(p.nodes.subrange(0, size(root) as int) =~= flat_nodes(root, 0));
    full_budget_is_exact(p.nodes, root, 0, p.run, cut_map(p.cuts));
    root_is_named();
    eval_is_exact(p, 0, p.run, v);
    answer_is_exact(p, v);
    reproduction_is_exact(p, v);
    divergence_is_exact(p, v, m);
}

// ---- The declarations.

/// In the rules the variables for nodes are symbols, and all others numbers.
spec fn letter_kinds() -> Kinds {
    |x: Seq<char>| if x[0] == 'N' || x[0] == 'A' || x[0] == 'C' { "symbol"@ } else { "number"@ }
}

proof fn declared_here(p: Written, k: int)
    requires
        0 <= k < 9,
    ensures
        p.items().contains(declared()[k]),
{
    assert(p.items()[k] == declared()[k]);
}

proof fn atom_is_declared(p: Written, k: int, a: Atom, types: Seq<Seq<char>>)
    requires
        0 <= k < 9,
        declared()[k] == Item::Decl(a.name, types),
        types.len() == a.args.len(),
        forall|i: int| 0 <= i < types.len() ==> expr_kind(#[trigger] a.args[i], letter_kinds()) == Some(types[i]),
    ensures
        is_declared(p.items(), a, letter_kinds()),
{
    declared_here(p, k);
}

spec fn is_symbol(e: Expr) -> bool {
    expr_kind(e, letter_kinds()) == Some("symbol"@)
}

spec fn is_number(e: Expr) -> bool {
    expr_kind(e, letter_kinds()) == Some("number"@)
}

proof fn values_are_declared(p: Written, a: Expr, b: Expr)
    requires
        is_symbol(a),
        is_number(b),
    ensures
        is_declared(p.items(), leaf_of(a, b), letter_kinds()),
        is_declared(p.items(), retrieved_of(a, b), letter_kinds()),
{
    atom_is_declared(p, 0, leaf_of(a, b), seq!["symbol"@, "number"@]);
    atom_is_declared(p, 2, retrieved_of(a, b), seq!["symbol"@, "number"@]);
}

proof fn nodes_are_declared(p: Written, a: Expr, b: Expr, c: Expr, d: Expr)
    requires
        is_symbol(a),
        is_symbol(b),
        is_symbol(c),
        is_symbol(d),
    ensures
        is_declared(p.items(), node_of(a, b, c, d), letter_kinds()),
{
    let s = "symbol"@;
    atom_is_declared(p, 1, node_of(a, b, c, d), seq![s, s, s, s]);
}

proof fn evals_are_declared(p: Written, a: Expr, b: Expr, c: Expr)
    requires
        is_symbol(a),
        is_number(b),
        is_number(c),
    ensures
        is_declared(p.items(), eval_of(a, b, c), letter_kinds()),
{
    atom_is_declared(p, 4, eval_of(a, b, c), seq!["symbol"@, "number"@, "number"@]);
}

proof fn numbers_are_declared(p: Written, a: Expr, b: Expr)
    requires
        is_number(a),
        is_number(b),
    ensures
        is_declared(p.items(), budget_of(a), letter_kinds()),
        is_declared(p.items(), answer_of(a), letter_kinds()),
        is_declared(p.items(), model_answer_of(a), letter_kinds()),
        is_declared(p.items(), reproduces_of(a), letter_kinds()),
        is_declared(p.items(), diverges_of(a, b), letter_kinds()),
{
    let n = "number"@;
    atom_is_declared(p, 3, budget_of(a), seq![n]);
    atom_is_declared(p, 5, answer_of(a), seq![n]);
    atom_is_declared(p, 6, model_answer_of(a), seq![n]);
    atom_is_declared(p, 7, reproduces_of(a), seq![n]);
    atom_is_declared(p, 8, diverges_of(a, b), seq![n, n]);
}

proof fn letters_have_kinds()
    ensures
        forall|c: char|
            expr_kind(#[trigger] var(c), letter_kinds()) == Some(
                if c == 'N' || c == 'A' || c == 'C' { "symbol"@ } else { "number"@ },
            ),
        forall|n: int| expr_kind(#[trigger] num(n), letter_kinds()) == Some("number"@),
        forall|s: Seq<char>| expr_kind(#[trigger] sym(s), letter_kinds()) == Some("symbol"@),
        expr_kind(less_one(), letter_kinds()) == Some("number"@),
        forall|op: char|
            #[trigger] expr_kind(Expr::Two(Term::Var(seq!['X']), op, Term::Var(seq!['Y'])), letter_kinds()) == Some(
                "number"@,
            ),
{
    assert forall|c: char|
        expr_kind(#[trigger] var(c), letter_kinds()) == Some(
            if c == 'N' || c == 'A' || c == 'C' { "symbol"@ } else { "number"@ },
        ) by {
        assert(seq![c][0] == c);
    }
    assert(seq!['B'][0] == 'B' && seq!['X'][0] == 'X' && seq!['Y'][0] == 'Y');
}

proof fn operator_rule_is_typed(p: Written, op: char)
    ensures
        is_well_typed(p.items(), operator_clause(op), letter_kinds()),
{
    let c = operator_clause(op);
    letters_have_kinds();
    evals_are_declared(p, var('N'), var('V'), var('B'));
    numbers_are_declared(p, var('B'), var('B'));
    nodes_are_declared(p, var('N'), sym(seq![op]), var('A'), var('C'));
    evals_are_declared(p, var('A'), var('X'), less_one());
    evals_are_declared(p, var('C'), var('Y'), less_one());
    assert(is_typed(p.items(), computed(op), letter_kinds()));
    assert forall|i: int| 0 <= i < c.body.len() implies is_typed(p.items(), #[trigger] c.body[i], letter_kinds()) by {
        assert(i == 0 || i == 1 || i == 2 || i == 3 || i == 4 || i == 5 || i == 6);
    }
}

proof fn base_rules_are_typed(p: Written)
    ensures
        is_well_typed(p.items(), budget_clause(), letter_kinds()),
        is_well_typed(p.items(), cut_clause(), letter_kinds()),
        is_well_typed(p.items(), leaf_clause(), letter_kinds()),
{
    letters_have_kinds();
    evals_are_declared(p, var('N'), var('V'), var('B'));
    numbers_are_declared(p, var('B'), var('B'));
    numbers_are_declared(p, less_one(), var('B'));
    values_are_declared(p, var('N'), var('V'));
    let b = budget_clause();
    assert forall|i: int| 0 <= i < b.body.len() implies is_typed(p.items(), #[trigger] b.body[i], letter_kinds()) by {
        assert(i == 0 || i == 1);
    }
    let c = cut_clause();
    assert forall|i: int| 0 <= i < c.body.len() implies is_typed(p.items(), #[trigger] c.body[i], letter_kinds()) by {
        assert(i == 0 || i == 1 || i == 2);
    }
    let l = leaf_clause();
    assert forall|i: int| 0 <= i < l.body.len() implies is_typed(p.items(), #[trigger] l.body[i], letter_kinds()) by {
        assert(i == 0 || i == 1);
    }
}

proof fn answer_rules_are_typed(p: Written)
    ensures
        is_well_typed(p.items(), answer_clause(p.run), letter_kinds()),
        is_well_typed(p.items(), reproduces_clause(), letter_kinds()),
        is_well_typed(p.items(), diverges_clause(), letter_kinds()),
{
    letters_have_kinds();
    evals_are_declared(p, sym(node_name(0)), var('V'), num(p.run));
    numbers_are_declared(p, var('V'), var('V'));
    numbers_are_declared(p, var('P'), var('M'));
    numbers_are_declared(p, var('M'), var('M'));
    let a = answer_clause(p.run);
    assert forall|i: int| 0 <= i < a.body.len() implies is_typed(p.items(), #[trigger] a.body[i], letter_kinds()) by {
        assert(i == 0);
    }
    let r = reproduces_clause();
    assert forall|i: int| 0 <= i < r.body.len() implies is_typed(p.items(), #[trigger] r.body[i], letter_kinds()) by {
        assert(i == 0 || i == 1);
    }
    let d = diverges_clause();
    assert forall|i: int| 0 <= i < d.body.len() implies is_typed(p.items(), #[trigger] d.body[i], letter_kinds()) by {
        assert(i == 0 || i == 1 || i == 2);
    }
}

proof fn clause_is_typed(p: Written, c: Clause)
    requires
        p.items().contains(Item::Rule(c)),
    ensures
        is_well_typed(p.items(), c, letter_kinds()),
{
    clauses_of(p, c);
    if is_node_fact(p, c) {
        letters_have_kinds();
        let i = choose|i: int| 0 <= i < p.nodes.len() && c.head == #[trigger] node_fact(i as nat, p.nodes[i]);
        let name = sym(node_name(i as nat));
        match p.nodes[i] {
            Flat::Leaf(v) => values_are_declared(p, name, num(v as int)),
            Flat::Op(op, a, b) => nodes_are_declared(
                p,
                name,
                sym(seq![op]),
                sym(node_name(a as nat)),
                sym(node_name(b as nat)),
            ),
        }
    } else if is_cut_fact(p, c) {
        letters_have_kinds();
        let j = choose|j: int| 0 <= j < p.cuts.len() && c.head == cut_fact(#[trigger] p.cuts[j]);
        values_are_declared(p, sym(node_name(p.cuts[j].0 as nat)), num(p.cuts[j].1 as int));
    } else if is_number_fact(p, c) {
        letters_have_kinds();
        numbers_are_declared(p, num(p.run), num(p.run));
        if let Some(a) = p.answer {
            numbers_are_declared(p, num(a as int), num(a as int));
        }
    } else {
        base_rules_are_typed(p);
        operator_rule_is_typed(p, '+');
        operator_rule_is_typed(p, '-');
        operator_rule_is_typed(p, '*');
        operator_rule_is_typed(p, '/');
        answer_rules_are_typed(p);
    }
}

proof fn nothing_is_declared_twice(p: Written)
    ensures
        forall|i: int, j: int|
            0 <= i < j < p.items().len() && #[trigger] p.items()[i] is Decl && #[trigger] p.items()[j] is Decl
                ==> p.items()[i]->Decl_0 != p.items()[j]->Decl_0,
{
    let items = p.items();
    let n0 = declared().len() as int;
    let n1 = n0 + p.nodes.len();
    let n2 = n1 + p.cuts.len();
    let n3 = n2 + answer_facts(p.answer).len();
    assert forall|i: int| 0 <= i < items.len() && #[trigger] items[i] is Decl implies i < 9 && items[i] == declared()[i] by {
        if i < n0 {
            assert(items[i] == declared()[i]);
        } else if i < n1 {
            assert(items[i] == node_facts(p.nodes)[i - n0]);
        } else if i < n2 {
            assert(items[i] == cut_facts(p.cuts)[i - n1]);
        } else if i < n3 {
            assert(items[i] == answer_facts(p.answer)[i - n2]);
        } else {
            assert(items[i] == rules(p.run)[i - n3]);
            assert(i - n3 < 14);
        }
    }
    relations_differ();
}

/// Whatever is written is a program that declares its relations with the types of their columns, and puts out the
/// answer, its reproduction and its divergence.
pub proof fn written_program_is_declared(root: Node, answer: Option<i64>, literals: Seq<i64>)
    requires
        is_quotable(root),
    ensures
        program_of(emit_text(root, answer, literals)) matches Some(items) && is_well_declared(items) && items.contains(
            Item::Output("answer"@),
        ) && items.contains(Item::Output("reproduces"@)) && items.contains(Item::Output("diverges"@)),
{
    let p = written_for(root, answer, literals);
    let items = p.items();
    flat_is_quotable(root, 0);
    emitted_is_read(root, answer, literals);
    nothing_is_declared_twice(p);
    rule_is_there(p, 11);
    rule_is_there(p, 12);
    rule_is_there(p, 13);
    assert forall|c: Clause| #[trigger] items.contains(Item::Rule(c)) implies exists|kinds: Kinds| is_well_typed(items, c, kinds) by {
        clause_is_typed(p, c);
    }
    assert forall|name: Seq<char>| #[trigger] items.contains(Item::Output(name)) implies exists|types: Seq<Seq<char>>|
        items.contains(Item::Decl(name, types)) by {
        output_is_declared(p, name);
    }
}

proof fn output_is_declared(p: Written, name: Seq<char>)
    requires
        p.items().contains(Item::Output(name)),
    ensures
        exists|types: Seq<Seq<char>>| p.items().contains(Item::Decl(name, types)),
{
    let items = p.items();
    let n0 = declared().len() as int;
    let n1 = n0 + p.nodes.len();
    let n2 = n1 + p.cuts.len();
    let n3 = n2 + answer_facts(p.answer).len();
    let i = choose|i: int| 0 <= i < items.len() && items[i] == Item::Output(name);
    if i < n0 {
        assert(items[i] == declared()[i]);
    } else if i < n1 {
        assert(items[i] == node_facts(p.nodes)[i - n0]);
    } else if i < n2 {
        assert(items[i] == cut_facts(p.cuts)[i - n1]);
    } else if i < n3 {
        assert(items[i] == answer_facts(p.answer)[i - n2]);
    } else {
        assert(items[i] == rules(p.run)[i - n3]);
        assert(i - n3 < 14);
        declared_here(p, 5);
        declared_here(p, 7);
        declared_here(p, 8);
    }
}

// ---- The remarks.

proof fn ends_with_end(a: Seq<char>, b: Seq<char>)
    ensures
        has_suffix(a + b, b),
{
    assert((a + b).skip(a.len() as int) =~= b);
}

proof fn grouped(a: Seq<char>, b: Seq<char>, c: Seq<char>)
    ensures
        a + b + c == a + (b + c),
{
    assert(a + b + c =~= a + (b + c));
}

/// Whether a text ends with another is decided by a long enough part at its end.
proof fn end_decides(a: Seq<char>, b: Seq<char>, p: Seq<char>)
    requires
        b.len() >= p.len(),
    ensures
        has_suffix(a + b, p) == has_suffix(b, p),
{
    assert((a + b).skip((a + b).len() - p.len()) =~= b.skip(b.len() - p.len()));
}

/// A cut line says that its value was retrieved from the context exactly where it was taken from there.
pub proof fn cut_remarks_are_true(cut: (usize, i64, bool))
    ensures
        has_suffix(cut_text(cut), "from context (a genuine retrieval)\n"@) == cut.2,
        has_suffix(cut_text(cut), "(not a clean context literal)\n"@) == !cut.2,
{
    let head = "retrieved(\"n"@ + dec(cut.0 as nat) + "\", "@ + int_text(cut.1 as int)
        + ").   // BROKEN: did not recurse here — "@;
    let yes = "memorized literal from context (a genuine retrieval)"@;
    let no = "value the model held (not a clean context literal)"@;
    let y = "from context (a genuine retrieval)\n"@;
    let n = "(not a clean context literal)\n"@;
    reveal_strlit("memorized literal from context (a genuine retrieval)");
    reveal_strlit("value the model held (not a clean context literal)");
    reveal_strlit("from context (a genuine retrieval)\n");
    reveal_strlit("(not a clean context literal)\n");
    reveal_strlit("\n");
    let s = cut_text(cut);
    if cut.2 {
        assert(yes + "\n"@ =~= "memorized literal "@ + y) by {
            reveal_strlit("memorized literal ");
        }
        grouped(head, yes, "\n"@);
        grouped(head, "memorized literal "@, y);
        ends_with_end(head + "memorized literal "@, y);
        let t = s.skip(s.len() - n.len());
        assert(t[n.len() - 5] == y[y.len() - 5]);
        assert(n[n.len() - 5] != y[y.len() - 5]);
    } else {
        assert(no + "\n"@ =~= "value the model held "@ + n) by {
            reveal_strlit("value the model held ");
        }
        grouped(head, no, "\n"@);
        grouped(head, "value the model held "@, n);
        ends_with_end(head + "value the model held "@, n);
        let t = s.skip(s.len() - y.len());
        assert(t[y.len() - 5] == n[n.len() - 5]);
        assert(n[n.len() - 5] != y[y.len() - 5]);
    }
}

/// A program that reproduces an answer ends by saying that the model is wrong exactly where the answer is not the number
/// that the tree stands for.
pub proof fn wrong_answers_are_told(root: Node, answer: i64, literals: Seq<i64>)
    requires
        size(root) <= usize::MAX,
        emit_in_range(root),
        tree_abduction(root, Some(answer), literals) is Some,
        height(root) <= i64::MAX,
    ensures
        has_suffix(emit_text(root, Some(answer), literals), "(early-cut) recursion above.\n"@) == (exact(root) != Some(
            answer as int,
        )),
{
    let nodes = flat_nodes(root, 0);
    let (d, cuts) = tree_abduction(root, Some(answer), literals)->0;
    let correct = flat_value(nodes, 0, i64::MAX as int, Map::empty());
    flat_lens(root, 0, 0);
    assert(nodes.subrange(0, size(root) as int) =~= nodes);
    enough_budget_is_exact(nodes, root, 0, i64::MAX as int, Map::empty());
    evaluation_is_exact(root);
    remark_tells_the_wrong(correct, d, cuts, answer);
    let before = header_text() + facts_text(nodes) + cuts_text(cuts) + answer_text(Some(answer)) + rules_text(d);
    let last = reproduction_text(correct, d, cuts, answer);
    let end = "(early-cut) recursion above.\n"@;
    end_decides(correct_text(correct), last, end);
    end_decides(before, correct_text(correct) + last, end);
}

proof fn remark_tells_the_wrong(correct: Outcome, d: int, cuts: Seq<(usize, i64, bool)>, answer: i64)
    ensures
        reproduction_text(correct, d, cuts, answer).len() >= "(early-cut) recursion above.\n"@.len(),
        has_suffix(reproduction_text(correct, d, cuts, answer), "(early-cut) recursion above.\n"@) == (correct
            != Outcome::Value(answer)),
{
    let text = reproduction_text(correct, d, cuts, answer);
    let end = "(early-cut) recursion above.\n"@;
    let right = ") · FAITHFUL\n"@;
    let depth = " · effective recursion depth D="@;
    let middle = " · model: "@ + int_text(answer as int) + depth + int_text(d) + " ("@ + dec(cuts.len()) + " cut"@ + (if cuts.len()
        == 1 {
        Seq::empty()
    } else {
        "s"@
    });
    reveal_strlit("(early-cut) recursion above.\n");
    reveal_strlit(") · FAITHFUL\n");
    reveal_strlit(" · effective recursion depth D=");
    assert(end.len() == 29 && right.len() == 13 && depth.len() == 31);
    assert(middle.len() >= 31);
    if correct == Outcome::Value(answer) {
        assert(text =~= middle + right);
        assert(text[text.len() - 2] == right[right.len() - 2]);
        assert(text.skip(text.len() - end.len())[end.len() - 2] == text[text.len() - 2]);
    } else {
        let wrong = "// → the model is mathematically WRONG; the faithful program is the BROKEN (early-cut) recursion above.\n"@;
        let start = "// → the model is mathematically WRONG; the faithful program is the BROKEN "@;
        assert(wrong =~= start + end) by {
            reveal_strlit("// → the model is mathematically WRONG; the faithful program is the BROKEN ");
            reveal_strlit("// → the model is mathematically WRONG; the faithful program is the BROKEN (early-cut) recursion above.\n");
        }
        grouped(middle + right, start, end);
        ends_with_end(middle + right + start, end);
    }
}

} // verus!
