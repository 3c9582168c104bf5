//! What the written program derives: for a node under a budget, exactly the value that bounded evaluation gives it.
use vstd::prelude::*;
use crate::datalog_program::{
    above_zero, answer_clause, answer_facts, answer_of, budget_clause, budget_of, computed, cut_clause, cut_fact, cut_facts,
    declared, diverges_clause, eval_of, fact, has_operator, leaf_clause, leaf_of, left_operand, less_one, model_answer_of,
    node_fact, node_facts, node_name, node_of, nonzero, num, operator_clause, program, reproduces_clause, retrieved_of,
    right_operand, rules, sym, var,
};
use crate::datalog_reading::{
    compares, derivable, divided, expr_val, fires, have_values, is_derived, is_met, values, Atom, Clause, Env, Expr, Item,
    Literal, Term, Val,
};
use crate::probe_laws::numeral_is_read_back;
use crate::recursion_dl::{links_ok, Flat};
use crate::recursion_laws::cut_map;
use crate::text::dec;

verus! {

/// What an operator makes of two numbers.
pub open spec fn combined(op: char, x: int, y: int) -> Option<int> {
    if op == '+' {
        Some(x + y)
    } else if op == '-' {
        Some(x - y)
    } else if op == '*' {
        Some(x * y)
    } else if op == '/' && y != 0 {
        Some(divided(x, y))
    } else {
        None
    }
}

/// The number that a node stands for under the budget `b`, without any bound on numbers.
pub open spec fn worth(nodes: Seq<Flat>, cuts: Map<usize, i64>, idx: int, b: int) -> Option<int>
    decreases b,
{
    match nodes[idx] {
        Flat::Leaf(v) => Some(v as int),
        Flat::Op(op, a, c) => if b <= 0 {
            if cuts.contains_key(idx as usize) { Some(cuts[idx as usize] as int) } else { None }
        } else {
            match (worth(nodes, cuts, a as int, b - 1), worth(nodes, cuts, c as int, b - 1)) {
                (Some(x), Some(y)) => combined(op, x, y),
                _ => None,
            }
        },
    }
}

/// The program and what it is made of.
pub struct Written {
    pub nodes: Seq<Flat>,
    pub cuts: Seq<(usize, i64, bool)>,
    pub answer: Option<i64>,
    pub run: int,
}

impl Written {
    pub open spec fn items(self) -> Seq<Item> {
        program(self.nodes, self.cuts, self.answer, self.run)
    }
}

pub open spec fn is_node_fact(p: Written, c: Clause) -> bool {
    c.body.len() == 0 && exists|i: int| 0 <= i < p.nodes.len() && c.head == #[trigger] node_fact(i as nat, p.nodes[i])
}

pub open spec fn is_cut_fact(p: Written, c: Clause) -> bool {
    c.body.len() == 0 && exists|j: int| 0 <= j < p.cuts.len() && c.head == cut_fact(#[trigger] p.cuts[j])
}

pub open spec fn is_number_fact(p: Written, c: Clause) -> bool {
    c.body.len() == 0 && (c.head == budget_of(num(p.run)) || (p.answer matches Some(a) && c.head == model_answer_of(
        num(a as int),
    )))
}

pub open spec fn is_rule(p: Written, c: Clause) -> bool {
    ||| c == budget_clause()
    ||| c == cut_clause()
    ||| c == leaf_clause()
    ||| c == operator_clause('+')
    ||| c == operator_clause('-')
    ||| c == operator_clause('*')
    ||| c == operator_clause('/')
    ||| c == answer_clause(p.run)
    ||| c == reproduces_clause()
    ||| c == diverges_clause()
}

/// The clauses of the program, and no others.
pub(crate) proof fn clauses_of(p: Written, c: Clause)
    requires
        p.items().contains(Item::Rule(c)),
    ensures
        is_node_fact(p, c) || is_cut_fact(p, c) || is_number_fact(p, c) || is_rule(p, c),
{
    let items = p.items();
    let k = choose|k: int| 0 <= k < items.len() && items[k] == Item::Rule(c);
    let n0 = declared().len() as int;
    let n1 = n0 + p.nodes.len();
    let n2 = n1 + p.cuts.len();
    let n3 = n2 + answer_facts(p.answer).len();
    if k < n0 {
        assert(items[k] == declared()[k]);
        assert(declared()[k] is Decl);
    } else if k < n1 {
        let i = k - n0;
        assert(items[k] == node_facts(p.nodes)[i]);
        assert(c.head == node_fact(i as nat, p.nodes[i]));
    } else if k < n2 {
        let j = k - n1;
        assert(items[k] == cut_facts(p.cuts)[j]);
        assert(c.head == cut_fact(p.cuts[j]));
    } else if k < n3 {
        assert(items[k] == answer_facts(p.answer)[k - n2]);
    } else {
        assert(items[k] == rules(p.run)[k - n3]);
        assert(k - n3 < 14);
        assert(c.body.len() == 0 ==> c.body =~= Seq::empty());
    }
}

pub(crate) proof fn rule_is_there(p: Written, k: int)
    requires
        0 <= k < 14,
    ensures
        p.items().contains(rules(p.run)[k]),
{
    let n3 = declared().len() + p.nodes.len() + p.cuts.len() + answer_facts(p.answer).len();
    assert(p.items()[n3 + k] == rules(p.run)[k]);
}

/// Every clause is in the program.
pub(crate) proof fn clauses_are_there(p: Written)
    ensures
        forall|i: int| 0 <= i < p.nodes.len() ==> p.items().contains(fact(#[trigger] node_fact(i as nat, p.nodes[i]))),
        forall|j: int| 0 <= j < p.cuts.len() ==> p.items().contains(fact(cut_fact(#[trigger] p.cuts[j]))),
        p.answer matches Some(a) ==> p.items().contains(fact(model_answer_of(num(a as int)))),
        p.items().contains(fact(budget_of(num(p.run)))),
        p.items().contains(Item::Rule(budget_clause())),
        p.items().contains(Item::Rule(cut_clause())),
        p.items().contains(Item::Rule(leaf_clause())),
        p.items().contains(Item::Rule(operator_clause('+'))),
        p.items().contains(Item::Rule(operator_clause('-'))),
        p.items().contains(Item::Rule(operator_clause('*'))),
        p.items().contains(Item::Rule(operator_clause('/'))),
        p.items().contains(Item::Rule(answer_clause(p.run))),
        p.items().contains(Item::Rule(reproduces_clause())),
        p.items().contains(Item::Rule(diverges_clause())),
{
    let n0 = declared().len() as int;
    let n1 = n0 + p.nodes.len();
    let n2 = n1 + p.cuts.len();
    assert forall|i: int| 0 <= i < p.nodes.len() implies p.items().contains(fact(#[trigger] node_fact(i as nat, p.nodes[i]))) by {
        assert(p.items()[n0 + i] == node_facts(p.nodes)[i]);
    }
    assert forall|j: int| 0 <= j < p.cuts.len() implies p.items().contains(fact(cut_fact(#[trigger] p.cuts[j]))) by {
        assert(p.items()[n1 + j] == cut_facts(p.cuts)[j]);
    }
    if p.answer is Some {
        assert(p.items()[n2] == answer_facts(p.answer)[0]);
    }
    rule_is_there(p, 0);
    rule_is_there(p, 1);
    rule_is_there(p, 2);
    rule_is_there(p, 3);
    rule_is_there(p, 4);
    rule_is_there(p, 5);
    rule_is_there(p, 6);
    rule_is_there(p, 7);
    rule_is_there(p, 8);
    rule_is_there(p, 9);
    rule_is_there(p, 10);
}

/// The clause by which something is derived, and what its variables stand for.
pub(crate) proof fn derived_by(items: Seq<Item>, name: Seq<char>, vals: Seq<Val>, n: nat) -> (r: (Clause, Env))
    requires
        derivable(items, name, vals, n),
    ensures
        n > 0,
        items.contains(Item::Rule(r.0)),
        r.0.head.name == name,
        have_values(r.0.head.args, r.1),
        values(r.0.head.args, r.1) == vals,
        forall|i: int| 0 <= i < r.0.body.len() ==> is_met(items, #[trigger] r.0.body[i], r.1, (n - 1) as nat),
{
    reveal_with_fuel(derivable, 3);
    reveal_with_fuel(fires, 3);
    reveal_with_fuel(is_met, 3);
    choose|c: Clause, env: Env|
        #![trigger values(c.head.args, env)]
        fires(items, c, env, name, vals, (n - 1) as nat)
}

/// What a clause gives is derived.
pub(crate) proof fn derived_with(items: Seq<Item>, c: Clause, env: Env, vals: Seq<Val>, n: nat)
    requires
        items.contains(Item::Rule(c)),
        have_values(c.head.args, env),
        values(c.head.args, env) == vals,
        forall|i: int| 0 <= i < c.body.len() ==> is_met(items, #[trigger] c.body[i], env, n),
    ensures
        derivable(items, c.head.name, vals, n + 1),
{
    reveal_with_fuel(derivable, 3);
    reveal_with_fuel(fires, 3);
    reveal_with_fuel(is_met, 3);
    assert(fires(items, c, env, c.head.name, vals, n));
}

proof fn met_atom(items: Seq<Item>, a: Atom, env: Env, n: nat)
    ensures
        is_met(items, Literal::Holds(a), env, n) == (have_values(a.args, env) && derivable(
            items,
            a.name,
            values(a.args, env),
            n,
        )),
{
    reveal_with_fuel(is_met, 3);
    reveal_with_fuel(derivable, 3);
}

proof fn met_comparison(items: Seq<Item>, op: Seq<char>, x: Expr, y: Expr, env: Env, n: nat)
    ensures
        is_met(items, Literal::Compare(op, x, y), env, n) == (match (expr_val(x, env), expr_val(y, env)) {
            (Some(a), Some(b)) => compares(op, a, b),
            _ => false,
        }),
{
    reveal_with_fuel(is_met, 3);
}

/// What has a derivation has longer ones.
pub(crate) proof fn derivable_in_more(items: Seq<Item>, name: Seq<char>, vals: Seq<Val>, n: nat, m: nat)
    requires
        derivable(items, name, vals, n),
        n <= m,
    ensures
        derivable(items, name, vals, m),
    decreases n,
{
    let (c, env) = derived_by(items, name, vals, n);
    let k = (n - 1) as nat;
    let l = (m - 1) as nat;
    assert forall|i: int| 0 <= i < c.body.len() implies is_met(items, #[trigger] c.body[i], env, l) by {
        assert(is_met(items, c.body[i], env, k));
        match c.body[i] {
            Literal::Holds(a) => {
                met_atom(items, a, env, k);
                met_atom(items, a, env, l);
                derivable_in_more(items, a.name, values(a.args, env), k, l);
            },
            Literal::Compare(op, x, y) => {
                met_comparison(items, op, x, y, env, k);
                met_comparison(items, op, x, y, env, l);
            },
        }
    }
    derived_with(items, c, env, vals, l);
}

// ---- Values of arguments.

proof fn one_value(a: Expr, env: Env)
    ensures
        have_values(seq![a], env) == (expr_val(a, env) is Some),
        values(seq![a], env) == seq![expr_val(a, env)->0],
{
    let args = seq![a];
    assert(args[0] == a);
    assert(values(args, env) =~= seq![expr_val(a, env)->0]);
    if have_values(args, env) {
        assert(expr_val(args[0], env) is Some);
    }
}

proof fn two_values(a: Expr, b: Expr, env: Env)
    ensures
        have_values(seq![a, b], env) == (expr_val(a, env) is Some && expr_val(b, env) is Some),
        values(seq![a, b], env) == seq![expr_val(a, env)->0, expr_val(b, env)->0],
{
    let args = seq![a, b];
    assert(args[0] == a && args[1] == b);
    assert(values(args, env) =~= seq![expr_val(a, env)->0, expr_val(b, env)->0]);
    if have_values(args, env) {
        assert(expr_val(args[0], env) is Some && expr_val(args[1], env) is Some);
    }
}

proof fn three_values(a: Expr, b: Expr, c: Expr, env: Env)
    ensures
        have_values(seq![a, b, c], env) == (expr_val(a, env) is Some && expr_val(b, env) is Some && expr_val(c, env) is Some),
        values(seq![a, b, c], env) == seq![expr_val(a, env)->0, expr_val(b, env)->0, expr_val(c, env)->0],
{
    let args = seq![a, b, c];
    assert(args[0] == a && args[1] == b && args[2] == c);
    assert(values(args, env) =~= seq![expr_val(a, env)->0, expr_val(b, env)->0, expr_val(c, env)->0]);
    if have_values(args, env) {
        assert(expr_val(args[0], env) is Some && expr_val(args[1], env) is Some && expr_val(args[2], env) is Some);
    }
}

proof fn four_values(a: Expr, b: Expr, c: Expr, d: Expr, env: Env)
    ensures
        have_values(seq![a, b, c, d], env) == (expr_val(a, env) is Some && expr_val(b, env) is Some && expr_val(c, env) is Some
            && expr_val(d, env) is Some),
        values(seq![a, b, c, d], env) == seq![
            expr_val(a, env)->0,
            expr_val(b, env)->0,
            expr_val(c, env)->0,
            expr_val(d, env)->0,
        ],
{
    let args = seq![a, b, c, d];
    assert(args[0] == a && args[1] == b && args[2] == c && args[3] == d);
    assert(values(args, env) =~= seq![
        expr_val(a, env)->0,
        expr_val(b, env)->0,
        expr_val(c, env)->0,
        expr_val(d, env)->0,
    ]);
    if have_values(args, env) {
        assert(expr_val(args[0], env) is Some && expr_val(args[1], env) is Some && expr_val(args[2], env) is Some && expr_val(
            args[3],
            env,
        ) is Some);
    }
}

/// The names of the relations are told apart by their first letters and lengths.
pub(crate) proof fn relations_differ()
    ensures
        "leaf"@.len() == 4 && "leaf"@[0] == 'l',
        "node"@.len() == 4 && "node"@[0] == 'n',
        "eval"@.len() == 4 && "eval"@[0] == 'e',
        "retrieved"@.len() == 9,
        "budget"@.len() == 6 && "budget"@[0] == 'b',
        "answer"@.len() == 6 && "answer"@[0] == 'a',
        "model_answer"@.len() == 12,
        "reproduces"@.len() == 10,
        "diverges"@.len() == 8,
{
    reveal_strlit("leaf");
    reveal_strlit("node");
    reveal_strlit("eval");
    reveal_strlit("retrieved");
    reveal_strlit("budget");
    reveal_strlit("answer");
    reveal_strlit("model_answer");
    reveal_strlit("reproduces");
    reveal_strlit("diverges");
}

/// Different nodes have different names.
pub(crate) proof fn names_tell_nodes(i: nat, j: nat)
    ensures
        node_name(i) == node_name(j) ==> i == j,
{
    numeral_is_read_back(i);
    numeral_is_read_back(j);
    assert(node_name(i).skip(1) =~= dec(i));
    assert(node_name(j).skip(1) =~= dec(j));
}

// ---- What the facts give.

/// A fact about the constants of its atom is derived.
proof fn fact_is_derived(items: Seq<Item>, head: Atom, vals: Seq<Val>, env: Env)
    requires
        items.contains(fact(head)),
        have_values(head.args, env),
        values(head.args, env) == vals,
    ensures
        derivable(items, head.name, vals, 1),
{
    derived_with(items, Clause { head, body: Seq::empty() }, env, vals, 0);
}

pub open spec fn any_env() -> Env {
    |x: Seq<char>| Val::Num(0)
}

/// A leaf that is derived is one of the tree.
proof fn leaf_is_known(p: Written, vals: Seq<Val>, n: nat)
    requires
        derivable(p.items(), "leaf"@, vals, n),
    ensures
        exists|i: int|
            0 <= i < p.nodes.len() && (#[trigger] p.nodes[i] matches Flat::Leaf(v) && vals == seq![
                Val::Sym(node_name(i as nat)),
                Val::Num(v as int),
            ]),
{
    let items = p.items();
    let (c, env) = derived_by(items, "leaf"@, vals, n);
    clauses_of(p, c);
    relations_differ();
    assert(is_node_fact(p, c));
    let i = choose|i: int| 0 <= i < p.nodes.len() && c.head == #[trigger] node_fact(i as nat, p.nodes[i]);
    match p.nodes[i] {
        Flat::Leaf(v) => {
            two_values(sym(node_name(i as nat)), num(v as int), env);
        },
        Flat::Op(_, _, _) => {},
    }
}

proof fn node_is_known(p: Written, vals: Seq<Val>, n: nat)
    requires
        derivable(p.items(), "node"@, vals, n),
    ensures
        exists|i: int|
            0 <= i < p.nodes.len() && (#[trigger] p.nodes[i] matches Flat::Op(op, a, b) && vals == seq![
                Val::Sym(node_name(i as nat)),
                Val::Sym(seq![op]),
                Val::Sym(node_name(a as nat)),
                Val::Sym(node_name(b as nat)),
            ]),
{
    let items = p.items();
    let (c, env) = derived_by(items, "node"@, vals, n);
    clauses_of(p, c);
    relations_differ();
    assert(is_node_fact(p, c));
    let i = choose|i: int| 0 <= i < p.nodes.len() && c.head == #[trigger] node_fact(i as nat, p.nodes[i]);
    match p.nodes[i] {
        Flat::Leaf(_) => {},
        Flat::Op(op, a, b) => {
            four_values(sym(node_name(i as nat)), sym(seq![op]), sym(node_name(a as nat)), sym(node_name(b as nat)), env);
        },
    }
}

proof fn cut_is_known(p: Written, vals: Seq<Val>, n: nat)
    requires
        derivable(p.items(), "retrieved"@, vals, n),
    ensures
        exists|j: int|
            0 <= j < p.cuts.len() && vals == seq![
                Val::Sym(node_name((#[trigger] p.cuts[j]).0 as nat)),
                Val::Num(p.cuts[j].1 as int),
            ],
{
    let items = p.items();
    let (c, env) = derived_by(items, "retrieved"@, vals, n);
    clauses_of(p, c);
    relations_differ();
    assert(is_cut_fact(p, c)) by {
        if is_node_fact(p, c) {
            let i = choose|i: int| 0 <= i < p.nodes.len() && c.head == #[trigger] node_fact(i as nat, p.nodes[i]);
            assert(c.head.name == "leaf"@ || c.head.name == "node"@);
        }
    }
    let j = choose|j: int| 0 <= j < p.cuts.len() && c.head == cut_fact(#[trigger] p.cuts[j]);
    two_values(sym(node_name(p.cuts[j].0 as nat)), num(p.cuts[j].1 as int), env);
}

proof fn model_answer_is_known(p: Written, vals: Seq<Val>, n: nat)
    requires
        derivable(p.items(), "model_answer"@, vals, n),
    ensures
        p.answer matches Some(a) && vals == seq![Val::Num(a as int)],
{
    let items = p.items();
    let (c, env) = derived_by(items, "model_answer"@, vals, n);
    clauses_of(p, c);
    relations_differ();
    assert(is_number_fact(p, c)) by {
        if is_node_fact(p, c) {
            let i = choose|i: int| 0 <= i < p.nodes.len() && c.head == #[trigger] node_fact(i as nat, p.nodes[i]);
            assert(c.head.name == "leaf"@ || c.head.name == "node"@);
        }
    }
    one_value(num(p.answer->0 as int), env);
}

/// The budgets go from the written one down to zero.
proof fn budget_is_known(p: Written, vals: Seq<Val>, n: nat)
    requires
        p.run >= 0,
        derivable(p.items(), "budget"@, vals, n),
    ensures
        vals.len() == 1 && (vals[0] matches Val::Num(b) && 0 <= b <= p.run),
    decreases n,
{
    let items = p.items();
    let k = (n - 1) as nat;
    let (c, env) = derived_by(items, "budget"@, vals, n);
    clauses_of(p, c);
    relations_differ();
    if is_node_fact(p, c) {
        let i = choose|i: int| 0 <= i < p.nodes.len() && c.head == #[trigger] node_fact(i as nat, p.nodes[i]);
        assert(c.head.name == "leaf"@ || c.head.name == "node"@);
    }
    if c == budget_clause() {
        assert(is_met(items, c.body[0], env, k));
        assert(is_met(items, c.body[1], env, k));
        met_atom(items, budget_of(var('B')), env, k);
        met_comparison(items, seq!['>'], var('B'), num(0), env, k);
        one_value(var('B'), env);
        one_value(less_one(), env);
        budget_is_known(p, values(seq![var('B')], env), k);
        assert(seq!['>'] != seq!['='] && seq!['>'] != seq!['!', '='] && seq!['>'] != seq!['<']) by {
            assert(seq!['>'][0] == '>' && seq!['='][0] == '=' && seq!['<'][0] == '<' && seq!['!', '='].len() == 2);
        }
    } else {
        one_value(num(p.run), env);
    }
}

// ---- What the rules give.

/// The cut nodes rise, and each is an operator; the links name nodes.
pub open spec fn is_valid(p: Written) -> bool {
    &&& p.run >= 0
    &&& 0 < p.nodes.len() <= usize::MAX
    &&& links_ok(p.nodes)
    &&& forall|j: int| 0 <= j < p.cuts.len() ==> (#[trigger] p.cuts[j]).0 < p.nodes.len() && p.nodes[p.cuts[j].0 as int] is Op
    &&& forall|j: int, k: int| 0 <= j < k < p.cuts.len() ==> (#[trigger] p.cuts[j]).0 < (#[trigger] p.cuts[k]).0
}

/// The cut values by node are those that are written.
proof fn cut_values(cuts: Seq<(usize, i64, bool)>)
    requires
        forall|j: int, k: int| 0 <= j < k < cuts.len() ==> (#[trigger] cuts[j]).0 < (#[trigger] cuts[k]).0,
    ensures
        forall|j: int|
            0 <= j < cuts.len() ==> cut_map(cuts).contains_key((#[trigger] cuts[j]).0) && cut_map(cuts)[cuts[j].0] == cuts[j].1,
        forall|i: usize| #[trigger] cut_map(cuts).contains_key(i) ==> exists|j: int| 0 <= j < cuts.len() && (#[trigger] cuts[j]).0 == i,
    decreases cuts.len(),
{
    if cuts.len() > 0 {
        let head = cuts.drop_last();
        assert forall|j: int, k: int| 0 <= j < k < head.len() implies (#[trigger] head[j]).0 < (#[trigger] head[k]).0 by {
            assert(head[j] == cuts[j] && head[k] == cuts[k]);
        }
        cut_values(head);
        assert forall|j: int| 0 <= j < cuts.len() implies cut_map(cuts).contains_key((#[trigger] cuts[j]).0) && cut_map(
            cuts,
        )[cuts[j].0] == cuts[j].1 by {
            if j < cuts.len() - 1 {
                assert(head[j] == cuts[j]);
                assert(cuts[j].0 < cuts[cuts.len() - 1].0);
            }
        }
        assert forall|i: usize| #[trigger] cut_map(cuts).contains_key(i) implies exists|j: int|
            0 <= j < cuts.len() && (#[trigger] cuts[j]).0 == i by {
            if i == cuts.last().0 {
                assert(cuts[cuts.len() - 1].0 == i);
            } else {
                assert(cut_map(head).contains_key(i));
                let j = choose|j: int| 0 <= j < head.len() && (#[trigger] head[j]).0 == i;
                assert(cuts[j].0 == i);
            }
        }
    }
}

/// The values are a node, its worth under a budget, and that budget.
pub open spec fn holds_at(p: Written, vals: Seq<Val>, i: int, b: int) -> bool {
    &&& 0 <= i < p.nodes.len()
    &&& 0 <= b <= p.run
    &&& worth(p.nodes, cut_map(p.cuts), i, b) is Some
    &&& vals == seq![Val::Sym(node_name(i as nat)), Val::Num(worth(p.nodes, cut_map(p.cuts), i, b)->0), Val::Num(b)]
}

/// What the head of a rule of the evaluator speaks of.
pub open spec fn head_vals(env: Env) -> Seq<Val> {
    seq![env(seq!['N']), env(seq!['V']), env(seq!['B'])]
}

proof fn comparisons_differ()
    ensures
        seq!['>'] != seq!['='],
        seq!['>'] != seq!['!', '='],
        seq!['>'] != seq!['<'],
        seq!['<', '='] != seq!['='],
        seq!['<', '='] != seq!['!', '='],
        seq!['<', '='] != seq!['<'],
        seq!['<', '='] != seq!['>'],
        seq!['!', '='] != seq!['='],
{
    assert(seq!['>'][0] == '>' && seq!['='][0] == '=' && seq!['<'][0] == '<' && seq!['!', '='].len() == 2 && seq![
        '<',
        '=',
    ].len() == 2 && seq!['<', '='][0] == '<' && seq!['!', '='][0] == '!');
}

proof fn cut_case(p: Written, env: Env, k: nat)
    requires
        is_valid(p),
        forall|i: int|
            0 <= i < cut_clause().body.len() ==> is_met(p.items(), #[trigger] cut_clause().body[i], env, k),
    ensures
        exists|i: int, b: int| #[trigger] holds_at(p, head_vals(env), i, b),
{
    let items = p.items();
    let c = cut_clause();
    assert(is_met(items, c.body[0], env, k) && is_met(items, c.body[1], env, k) && is_met(items, c.body[2], env, k));
    met_atom(items, budget_of(var('B')), env, k);
    met_comparison(items, seq!['<', '='], var('B'), num(0), env, k);
    met_atom(items, retrieved_of(var('N'), var('V')), env, k);
    one_value(var('B'), env);
    two_values(var('N'), var('V'), env);
    comparisons_differ();
    budget_is_known(p, seq![env(seq!['B'])], k);
    cut_is_known(p, seq![env(seq!['N']), env(seq!['V'])], k);
    let vals = seq![env(seq!['N']), env(seq!['V'])];
    assert(vals[0] == env(seq!['N']) && vals[1] == env(seq!['V']));
    assert(seq![env(seq!['B'])][0] == env(seq!['B']));
    let j = choose|j: int|
        0 <= j < p.cuts.len() && vals == seq![
            Val::Sym(node_name((#[trigger] p.cuts[j]).0 as nat)),
            Val::Num(p.cuts[j].1 as int),
        ];
    cut_values(p.cuts);
    let x = p.cuts[j];
    assert(worth(p.nodes, cut_map(p.cuts), x.0 as int, 0) == Some(x.1 as int));
    assert(holds_at(p, head_vals(env), x.0 as int, 0));
}

proof fn leaf_case(p: Written, env: Env, k: nat)
    requires
        is_valid(p),
        forall|i: int|
            0 <= i < leaf_clause().body.len() ==> is_met(p.items(), #[trigger] leaf_clause().body[i], env, k),
    ensures
        exists|i: int, b: int| #[trigger] holds_at(p, head_vals(env), i, b),
{
    let items = p.items();
    let c = leaf_clause();
    assert(is_met(items, c.body[0], env, k) && is_met(items, c.body[1], env, k));
    met_atom(items, budget_of(var('B')), env, k);
    met_atom(items, leaf_of(var('N'), var('V')), env, k);
    one_value(var('B'), env);
    two_values(var('N'), var('V'), env);
    budget_is_known(p, seq![env(seq!['B'])], k);
    let vals = seq![env(seq!['N']), env(seq!['V'])];
    leaf_is_known(p, vals, k);
    assert(vals[0] == env(seq!['N']) && vals[1] == env(seq!['V']));
    assert(seq![env(seq!['B'])][0] == env(seq!['B']));
    let i = choose|i: int|
        0 <= i < p.nodes.len() && (#[trigger] p.nodes[i] matches Flat::Leaf(v) && vals == seq![
            Val::Sym(node_name(i as nat)),
            Val::Num(v as int),
        ]);
    let b = env(seq!['B'])->Num_0;
    assert(holds_at(p, head_vals(env), i, b));
}

/// What an operand is worth, by its derivation.
proof fn operand_case(p: Written, at: char, value: char, env: Env, a: usize, b: int, k: nat)
    requires
        is_valid(p),
        a < p.nodes.len(),
        env(seq!['B']) == Val::Num(b),
        env(seq![at]) == Val::Sym(node_name(a as nat)),
        is_met(p.items(), Literal::Holds(eval_of(var(at), var(value), less_one())), env, k),
    ensures
        worth(p.nodes, cut_map(p.cuts), a as int, b - 1) is Some,
        env(seq![value]) == Val::Num(worth(p.nodes, cut_map(p.cuts), a as int, b - 1)->0),
    decreases k, 2nat,
{
    let items = p.items();
    met_atom(items, eval_of(var(at), var(value), less_one()), env, k);
    three_values(var(at), var(value), less_one(), env);
    let vals = seq![env(seq![at]), env(seq![value]), Val::Num(b - 1)];
    assert(expr_val(less_one(), env) == Some(Val::Num(b - 1)));
    eval_is_worth(p, vals, k);
    let (i, c) = choose|i: int, c: int| #[trigger] holds_at(p, vals, i, c);
    assert(vals[0] == env(seq![at]) && vals[1] == env(seq![value]) && vals[2] == Val::Num(b - 1));
    names_tell_nodes(i as nat, a as nat);
}

proof fn operator_case(p: Written, op: char, env: Env, k: nat)
    requires
        is_valid(p),
        op == '+' || op == '-' || op == '*' || op == '/',
        forall|i: int|
            0 <= i < operator_clause(op).body.len() ==> is_met(p.items(), #[trigger] operator_clause(op).body[i], env, k),
    ensures
        exists|i: int, b: int| #[trigger] holds_at(p, head_vals(env), i, b),
    decreases k, 3nat,
{
    let items = p.items();
    let c = operator_clause(op);
    assert(is_met(items, c.body[0], env, k) && is_met(items, c.body[1], env, k) && is_met(items, c.body[2], env, k));
    assert(is_met(items, c.body[3], env, k) && is_met(items, c.body[4], env, k) && is_met(items, c.body.last(), env, k));
    met_atom(items, budget_of(var('B')), env, k);
    met_comparison(items, seq!['>'], var('B'), num(0), env, k);
    one_value(var('B'), env);
    comparisons_differ();
    budget_is_known(p, seq![env(seq!['B'])], k);
    assert(seq![env(seq!['B'])][0] == env(seq!['B']));
    let b = env(seq!['B'])->Num_0;
    met_atom(items, node_of(var('N'), sym(seq![op]), var('A'), var('C')), env, k);
    four_values(var('N'), sym(seq![op]), var('A'), var('C'), env);
    let vals = seq![env(seq!['N']), Val::Sym(seq![op]), env(seq!['A']), env(seq!['C'])];
    node_is_known(p, vals, k);
    assert(vals[0] == env(seq!['N']) && vals[1] == Val::Sym(seq![op]) && vals[2] == env(seq!['A']) && vals[3] == env(seq!['C']));
    let i = choose|i: int|
        0 <= i < p.nodes.len() && (#[trigger] p.nodes[i] matches Flat::Op(op, a, b) && vals == seq![
            Val::Sym(node_name(i as nat)),
            Val::Sym(seq![op]),
            Val::Sym(node_name(a as nat)),
            Val::Sym(node_name(b as nat)),
        ]);
    if let Flat::Op(o, x, y) = p.nodes[i] {
        assert(seq![o][0] == o && seq![op][0] == op);
        operand_case(p, 'A', 'X', env, x, b, k);
        operand_case(p, 'C', 'Y', env, y, b, k);
        met_comparison(items, seq!['='], var('V'), Expr::Two(Term::Var(seq!['X']), op, Term::Var(seq!['Y'])), env, k);
        if op == '/' {
            assert(is_met(items, c.body[5], env, k));
            met_comparison(items, seq!['!', '='], var('Y'), num(0), env, k);
        }
        assert(holds_at(p, head_vals(env), i, b));
    }
}

/// What is derived for a node under a budget is what it is worth.
proof fn eval_is_worth(p: Written, vals: Seq<Val>, n: nat)
    requires
        is_valid(p),
        derivable(p.items(), "eval"@, vals, n),
    ensures
        exists|i: int, b: int| #[trigger] holds_at(p, vals, i, b),
    decreases n, 1nat,
{
    let items = p.items();
    let k = (n - 1) as nat;
    let (c, env) = derived_by(items, "eval"@, vals, n);
    clauses_of(p, c);
    relations_differ();
    if is_node_fact(p, c) {
        let i = choose|i: int| 0 <= i < p.nodes.len() && c.head == #[trigger] node_fact(i as nat, p.nodes[i]);
        assert(c.head.name == "leaf"@ || c.head.name == "node"@);
    }
    three_values(var('N'), var('V'), var('B'), env);
    if c == cut_clause() {
        cut_case(p, env, k);
    } else if c == leaf_clause() {
        leaf_case(p, env, k);
    } else if c == operator_clause('+') {
        operator_case(p, '+', env, k);
    } else if c == operator_clause('-') {
        operator_case(p, '-', env, k);
    } else if c == operator_clause('*') {
        operator_case(p, '*', env, k);
    } else {
        operator_case(p, '/', env, k);
    }
}

// ---- What is worth something is derived.

pub open spec fn greater(n: nat, m: nat) -> nat {
    if n >= m { n } else { m }
}

/// The variables of a rule of the evaluator.
pub open spec fn eval_env(n: Val, v: Val, b: Val, a: Val, c: Val, x: Val, y: Val) -> Env {
    |s: Seq<char>|
        if s[0] == 'N' {
            n
        } else if s[0] == 'V' {
            v
        } else if s[0] == 'B' {
            b
        } else if s[0] == 'A' {
            a
        } else if s[0] == 'C' {
            c
        } else if s[0] == 'X' {
            x
        } else {
            y
        }
}

proof fn eval_env_says(n: Val, v: Val, b: Val, a: Val, c: Val, x: Val, y: Val)
    ensures
        eval_env(n, v, b, a, c, x, y)(seq!['N']) == n,
        eval_env(n, v, b, a, c, x, y)(seq!['V']) == v,
        eval_env(n, v, b, a, c, x, y)(seq!['B']) == b,
        eval_env(n, v, b, a, c, x, y)(seq!['A']) == a,
        eval_env(n, v, b, a, c, x, y)(seq!['C']) == c,
        eval_env(n, v, b, a, c, x, y)(seq!['X']) == x,
        eval_env(n, v, b, a, c, x, y)(seq!['Y']) == y,
{
}

proof fn budget_is_derived(p: Written, b: int) -> (n: nat)
    requires
        0 <= b <= p.run,
    ensures
        derivable(p.items(), "budget"@, seq![Val::Num(b)], n),
    decreases p.run - b,
{
    let items = p.items();
    clauses_are_there(p);
    if b == p.run {
        one_value(num(p.run), any_env());
        fact_is_derived(items, budget_of(num(p.run)), seq![Val::Num(b)], any_env());
        1
    } else {
        let n = budget_is_derived(p, b + 1);
        let z = Val::Num(0);
        let env = eval_env(z, z, Val::Num(b + 1), z, z, z, z);
        eval_env_says(z, z, Val::Num(b + 1), z, z, z, z);
        let c = budget_clause();
        one_value(less_one(), env);
        one_value(var('B'), env);
        met_atom(items, budget_of(var('B')), env, n);
        met_comparison(items, seq!['>'], var('B'), num(0), env, n);
        comparisons_differ();
        assert forall|i: int| 0 <= i < c.body.len() implies is_met(items, #[trigger] c.body[i], env, n) by {
            assert(i == 0 || i == 1);
        }
        derived_with(items, c, env, seq![Val::Num(b)], n);
        n + 1
    }
}

proof fn leaf_fires(items: Seq<Item>, name: Val, v: Val, b: Val, k: nat)
    requires
        items.contains(Item::Rule(leaf_clause())),
        derivable(items, "budget"@, seq![b], k),
        derivable(items, "leaf"@, seq![name, v], k),
    ensures
        derivable(items, "eval"@, seq![name, v, b], k + 1),
{
    let z = Val::Num(0);
    let env = eval_env(name, v, b, z, z, z, z);
    eval_env_says(name, v, b, z, z, z, z);
    let c = leaf_clause();
    one_value(var('B'), env);
    two_values(var('N'), var('V'), env);
    three_values(var('N'), var('V'), var('B'), env);
    met_atom(items, budget_of(var('B')), env, k);
    met_atom(items, leaf_of(var('N'), var('V')), env, k);
    assert forall|j: int| 0 <= j < c.body.len() implies is_met(items, #[trigger] c.body[j], env, k) by {
        assert(j == 0 || j == 1);
    }
    derived_with(items, c, env, seq![name, v, b], k);
}

proof fn leaf_is_derived(p: Written, i: int, b: int) -> (n: nat)
    requires
        0 <= i < p.nodes.len(),
        0 <= b <= p.run,
        p.nodes[i] is Leaf,
    ensures
        derivable(
            p.items(),
            "eval"@,
            seq![Val::Sym(node_name(i as nat)), Val::Num(p.nodes[i]->Leaf_0 as int), Val::Num(b)],
            n,
        ),
{
    let items = p.items();
    let v = p.nodes[i]->Leaf_0 as int;
    let head = leaf_of(sym(node_name(i as nat)), num(v));
    let vals = seq![Val::Sym(node_name(i as nat)), Val::Num(v)];
    assert(items.contains(fact(head)) && items.contains(Item::Rule(leaf_clause()))) by {
        clauses_are_there(p);
        assert(node_fact(i as nat, p.nodes[i]) == head);
    }
    let m = budget_is_derived(p, b);
    let k = greater(1, m);
    derivable_in_more(items, "budget"@, seq![Val::Num(b)], m, k);
    two_values(sym(node_name(i as nat)), num(v), any_env());
    fact_is_derived(items, head, vals, any_env());
    derivable_in_more(items, "leaf"@, vals, 1, k);
    leaf_fires(items, vals[0], vals[1], Val::Num(b), k);
    k + 1
}

proof fn cut_fires(items: Seq<Item>, name: Val, v: Val, k: nat)
    requires
        items.contains(Item::Rule(cut_clause())),
        derivable(items, "budget"@, seq![Val::Num(0)], k),
        derivable(items, "retrieved"@, seq![name, v], k),
    ensures
        derivable(items, "eval"@, seq![name, v, Val::Num(0)], k + 1),
{
    let z = Val::Num(0);
    let env = eval_env(name, v, z, z, z, z, z);
    eval_env_says(name, v, z, z, z, z, z);
    let c = cut_clause();
    one_value(var('B'), env);
    two_values(var('N'), var('V'), env);
    three_values(var('N'), var('V'), var('B'), env);
    met_atom(items, budget_of(var('B')), env, k);
    met_comparison(items, seq!['<', '='], var('B'), num(0), env, k);
    comparisons_differ();
    met_atom(items, retrieved_of(var('N'), var('V')), env, k);
    assert forall|j: int| 0 <= j < c.body.len() implies is_met(items, #[trigger] c.body[j], env, k) by {
        assert(j == 0 || j == 1 || j == 2);
    }
    derived_with(items, c, env, seq![name, v, z], k);
}

proof fn cut_is_derived(p: Written, i: int) -> (n: nat)
    requires
        is_valid(p),
        0 <= i < p.nodes.len(),
        cut_map(p.cuts).contains_key(i as usize),
    ensures
        derivable(
            p.items(),
            "eval"@,
            seq![Val::Sym(node_name(i as nat)), Val::Num(cut_map(p.cuts)[i as usize] as int), Val::Num(0)],
            n,
        ),
{
    let items = p.items();
    let v = cut_map(p.cuts)[i as usize] as int;
    let head = retrieved_of(sym(node_name(i as nat)), num(v));
    let vals = seq![Val::Sym(node_name(i as nat)), Val::Num(v)];
    assert(items.contains(fact(head)) && items.contains(Item::Rule(cut_clause()))) by {
        cut_values(p.cuts);
        clauses_are_there(p);
        let j = choose|j: int| 0 <= j < p.cuts.len() && (#[trigger] p.cuts[j]).0 == i as usize;
        assert(cut_fact(p.cuts[j]) == head);
    }
    let m = budget_is_derived(p, 0);
    let k = greater(1, m);
    derivable_in_more(items, "budget"@, seq![Val::Num(0)], m, k);
    two_values(sym(node_name(i as nat)), num(v), any_env());
    fact_is_derived(items, head, vals, any_env());
    derivable_in_more(items, "retrieved"@, vals, 1, k);
    cut_fires(items, vals[0], vals[1], k);
    k + 1
}

/// The conditions of an operator's rule are met.
proof fn operator_conditions(items: Seq<Item>, op: char, env: Env, b: int, x: int, y: int, k: nat)
    requires
        b > 0,
        env(seq!['B']) == Val::Num(b),
        env(seq!['X']) == Val::Num(x),
        env(seq!['Y']) == Val::Num(y),
        combined(op, x, y) is Some,
        env(seq!['V']) == Val::Num(combined(op, x, y)->0),
        derivable(items, "budget"@, seq![Val::Num(b)], k),
        derivable(items, "node"@, seq![env(seq!['N']), Val::Sym(seq![op]), env(seq!['A']), env(seq!['C'])], k),
        derivable(items, "eval"@, seq![env(seq!['A']), Val::Num(x), Val::Num(b - 1)], k),
        derivable(items, "eval"@, seq![env(seq!['C']), Val::Num(y), Val::Num(b - 1)], k),
    ensures
        is_met(items, Literal::Holds(budget_of(var('B'))), env, k),
        is_met(items, above_zero(), env, k),
        is_met(items, has_operator(op), env, k),
        is_met(items, left_operand(), env, k),
        is_met(items, right_operand(), env, k),
        op == '/' ==> is_met(items, nonzero(), env, k),
        is_met(items, computed(op), env, k),
{
    assert(expr_val(less_one(), env) == Some(Val::Num(b - 1)));
    one_value(var('B'), env);
    three_values(var('A'), var('X'), less_one(), env);
    three_values(var('C'), var('Y'), less_one(), env);
    four_values(var('N'), sym(seq![op]), var('A'), var('C'), env);
    comparisons_differ();
    met_atom(items, budget_of(var('B')), env, k);
    met_comparison(items, seq!['>'], var('B'), num(0), env, k);
    met_atom(items, node_of(var('N'), sym(seq![op]), var('A'), var('C')), env, k);
    met_atom(items, eval_of(var('A'), var('X'), less_one()), env, k);
    met_atom(items, eval_of(var('C'), var('Y'), less_one()), env, k);
    met_comparison(items, seq!['!', '='], var('Y'), num(0), env, k);
    met_comparison(items, seq!['='], var('V'), Expr::Two(Term::Var(seq!['X']), op, Term::Var(seq!['Y'])), env, k);
}

proof fn operator_fires(items: Seq<Item>, op: char, name: Val, a: Val, c: Val, b: int, x: int, y: int, k: nat)
    requires
        b > 0,
        items.contains(Item::Rule(operator_clause(op))),
        combined(op, x, y) is Some,
        derivable(items, "budget"@, seq![Val::Num(b)], k),
        derivable(items, "node"@, seq![name, Val::Sym(seq![op]), a, c], k),
        derivable(items, "eval"@, seq![a, Val::Num(x), Val::Num(b - 1)], k),
        derivable(items, "eval"@, seq![c, Val::Num(y), Val::Num(b - 1)], k),
    ensures
        derivable(items, "eval"@, seq![name, Val::Num(combined(op, x, y)->0), Val::Num(b)], k + 1),
{
    let v = Val::Num(combined(op, x, y)->0);
    let env = eval_env(name, v, Val::Num(b), a, c, Val::Num(x), Val::Num(y));
    eval_env_says(name, v, Val::Num(b), a, c, Val::Num(x), Val::Num(y));
    operator_conditions(items, op, env, b, x, y, k);
    let r = operator_clause(op);
    three_values(var('N'), var('V'), var('B'), env);
    assert forall|j: int| 0 <= j < r.body.len() implies is_met(items, #[trigger] r.body[j], env, k) by {
        assert(j == 0 || j == 1 || j == 2 || j == 3 || j == 4 || j == 5 || j == 6);
    }
    derived_with(items, r, env, seq![name, v, Val::Num(b)], k);
}

/// The rule of an operator, once its operands are derived.
proof fn operator_is_derived(p: Written, i: int, b: int, x: int, y: int, n: nat) -> (r: nat)
    requires
        0 <= i < p.nodes.len(),
        0 < b <= p.run,
        p.nodes[i] matches Flat::Op(op, a, c) && combined(op, x, y) is Some && derivable(
            p.items(),
            "eval"@,
            seq![Val::Sym(node_name(a as nat)), Val::Num(x), Val::Num(b - 1)],
            n,
        ) && derivable(p.items(), "eval"@, seq![Val::Sym(node_name(c as nat)), Val::Num(y), Val::Num(b - 1)], n),
    ensures
        derivable(
            p.items(),
            "eval"@,
            seq![Val::Sym(node_name(i as nat)), Val::Num(combined(p.nodes[i]->Op_0, x, y)->0), Val::Num(b)],
            r,
        ),
{
    let items = p.items();
    let op = p.nodes[i]->Op_0;
    let left = node_name(p.nodes[i]->Op_1 as nat);
    let right = node_name(p.nodes[i]->Op_2 as nat);
    let name = node_name(i as nat);
    let head = node_of(sym(name), sym(seq![op]), sym(left), sym(right));
    let vals = seq![Val::Sym(name), Val::Sym(seq![op]), Val::Sym(left), Val::Sym(right)];
    assert(items.contains(fact(head)) && items.contains(Item::Rule(operator_clause(op)))) by {
        clauses_are_there(p);
        assert(node_fact(i as nat, p.nodes[i]) == head);
    }
    let m = budget_is_derived(p, b);
    let k = greater(greater(1, m), n);
    derivable_in_more(items, "budget"@, seq![Val::Num(b)], m, k);
    derivable_in_more(items, "eval"@, seq![Val::Sym(left), Val::Num(x), Val::Num(b - 1)], n, k);
    derivable_in_more(items, "eval"@, seq![Val::Sym(right), Val::Num(y), Val::Num(b - 1)], n, k);
    four_values(sym(name), sym(seq![op]), sym(left), sym(right), any_env());
    fact_is_derived(items, head, vals, any_env());
    derivable_in_more(items, "node"@, vals, 1, k);
    operator_fires(items, op, Val::Sym(name), Val::Sym(left), Val::Sym(right), b, x, y, k);
    k + 1
}

/// What a node is worth under a budget is derived.
proof fn worth_is_derived(p: Written, i: int, b: int) -> (n: nat)
    requires
        is_valid(p),
        0 <= i < p.nodes.len(),
        0 <= b <= p.run,
        worth(p.nodes, cut_map(p.cuts), i, b) is Some,
    ensures
        derivable(
            p.items(),
            "eval"@,
            seq![Val::Sym(node_name(i as nat)), Val::Num(worth(p.nodes, cut_map(p.cuts), i, b)->0), Val::Num(b)],
            n,
        ),
    decreases b,
{
    match p.nodes[i] {
        Flat::Leaf(_) => leaf_is_derived(p, i, b),
        Flat::Op(op, a, c) => if b == 0 {
            cut_is_derived(p, i)
        } else {
            assert(a < p.nodes.len() && c < p.nodes.len());
            let x = worth(p.nodes, cut_map(p.cuts), a as int, b - 1)->0;
            let y = worth(p.nodes, cut_map(p.cuts), c as int, b - 1)->0;
            let n = worth_is_derived(p, a as int, b - 1);
            let m = worth_is_derived(p, c as int, b - 1);
            let k = greater(n, m);
            derivable_in_more(
                p.items(),
                "eval"@,
                seq![Val::Sym(node_name(a as nat)), Val::Num(x), Val::Num(b - 1)],
                n,
                k,
            );
            derivable_in_more(
                p.items(),
                "eval"@,
                seq![Val::Sym(node_name(c as nat)), Val::Num(y), Val::Num(b - 1)],
                m,
                k,
            );
            operator_is_derived(p, i, b, x, y, k)
        },
    }
}

// ---- What the program puts out.

/// For a node under a budget exactly its worth is derived.
pub(crate) proof fn eval_is_exact(p: Written, i: int, b: int, v: int)
    requires
        is_valid(p),
        0 <= i < p.nodes.len(),
        0 <= b <= p.run,
    ensures
        is_derived(p.items(), "eval"@, seq![Val::Sym(node_name(i as nat)), Val::Num(v), Val::Num(b)]) == (worth(
            p.nodes,
            cut_map(p.cuts),
            i,
            b,
        ) == Some(v)),
{
    let vals = seq![Val::Sym(node_name(i as nat)), Val::Num(v), Val::Num(b)];
    if is_derived(p.items(), "eval"@, vals) {
        let n = choose|n: nat| derivable(p.items(), "eval"@, vals, n);
        eval_is_worth(p, vals, n);
        let (j, c) = choose|j: int, c: int| #[trigger] holds_at(p, vals, j, c);
        assert(vals[0] == Val::Sym(node_name(i as nat)) && vals[1] == Val::Num(v) && vals[2] == Val::Num(b));
        names_tell_nodes(i as nat, j as nat);
    }
    if worth(p.nodes, cut_map(p.cuts), i, b) == Some(v) {
        let n = worth_is_derived(p, i, b);
        assert(derivable(p.items(), "eval"@, vals, n));
    }
}

/// What the program is run for.
pub open spec fn root_worth(p: Written) -> Option<int> {
    worth(p.nodes, cut_map(p.cuts), 0, p.run)
}

proof fn no_fact_is_named(p: Written, c: Clause, name: Seq<char>)
    requires
        c.head.name == name,
        name == "answer"@ || name == "reproduces"@ || name == "diverges"@,
        p.items().contains(Item::Rule(c)),
    ensures
        name == "answer"@ ==> c == answer_clause(p.run),
        name == "reproduces"@ ==> c == reproduces_clause(),
        name == "diverges"@ ==> c == diverges_clause(),
{
    clauses_of(p, c);
    relations_differ();
    if is_node_fact(p, c) {
        let i = choose|i: int| 0 <= i < p.nodes.len() && c.head == #[trigger] node_fact(i as nat, p.nodes[i]);
        assert(c.head.name == "leaf"@ || c.head.name == "node"@);
    }
}

proof fn answer_fires(p: Written, v: int, n: nat)
    requires
        derivable(p.items(), "eval"@, seq![Val::Sym(node_name(0)), Val::Num(v), Val::Num(p.run)], n),
    ensures
        derivable(p.items(), "answer"@, seq![Val::Num(v)], n + 1),
{
    let items = p.items();
    let z = Val::Num(0);
    let env = eval_env(z, Val::Num(v), z, z, z, z, z);
    eval_env_says(z, Val::Num(v), z, z, z, z, z);
    let c = answer_clause(p.run);
    assert(items.contains(Item::Rule(c))) by {
        clauses_are_there(p);
    }
    three_values(sym(node_name(0)), var('V'), num(p.run), env);
    one_value(var('V'), env);
    met_atom(items, eval_of(sym(node_name(0)), var('V'), num(p.run)), env, n);
    assert forall|j: int| 0 <= j < c.body.len() implies is_met(items, #[trigger] c.body[j], env, n) by {
        assert(j == 0);
    }
    derived_with(items, c, env, seq![Val::Num(v)], n);
}

/// The answers are what the root is worth, and nothing else.
pub(crate) proof fn answer_is_exact(p: Written, v: int)
    requires
        is_valid(p),
    ensures
        is_derived(p.items(), "answer"@, seq![Val::Num(v)]) == (root_worth(p) == Some(v)),
{
    let items = p.items();
    let vals = seq![Val::Num(v)];
    if is_derived(items, "answer"@, vals) {
        let n = choose|n: nat| derivable(items, "answer"@, vals, n);
        answer_is_known(p, vals, n);
        assert(vals[0] == Val::Num(v));
    }
    if root_worth(p) == Some(v) {
        let n = worth_is_derived(p, 0, p.run);
        answer_fires(p, v, n);
    }
}

proof fn answer_is_known(p: Written, vals: Seq<Val>, n: nat)
    requires
        is_valid(p),
        derivable(p.items(), "answer"@, vals, n),
    ensures
        root_worth(p) matches Some(v) && vals == seq![Val::Num(v)],
{
    let items = p.items();
    let (c, env) = derived_by(items, "answer"@, vals, n);
    let k = (n - 1) as nat;
    no_fact_is_named(p, c, "answer"@);
    assert(is_met(items, c.body[0], env, k));
    met_atom(items, eval_of(sym(node_name(0)), var('V'), num(p.run)), env, k);
    three_values(sym(node_name(0)), var('V'), num(p.run), env);
    one_value(var('V'), env);
    let found = seq![Val::Sym(node_name(0)), env(seq!['V']), Val::Num(p.run)];
    eval_is_worth(p, found, k);
    let (j, b) = choose|j: int, b: int| #[trigger] holds_at(p, found, j, b);
    assert(found[0] == Val::Sym(node_name(0)) && found[1] == env(seq!['V']) && found[2] == Val::Num(p.run));
    names_tell_nodes(0, j as nat);
}

proof fn model_answer_is_derived(p: Written, a: i64)
    requires
        p.answer == Some(a),
    ensures
        derivable(p.items(), "model_answer"@, seq![Val::Num(a as int)], 1),
{
    clauses_are_there(p);
    one_value(num(a as int), any_env());
    fact_is_derived(p.items(), model_answer_of(num(a as int)), seq![Val::Num(a as int)], any_env());
}

/// The answer is said to be reproduced exactly when it is the model's.
pub(crate) proof fn reproduction_is_exact(p: Written, v: int)
    requires
        is_valid(p),
    ensures
        is_derived(p.items(), "reproduces"@, seq![Val::Num(v)]) == (root_worth(p) == Some(v) && (
        p.answer matches Some(a) && a == v)),
{
    let items = p.items();
    let vals = seq![Val::Num(v)];
    let c = reproduces_clause();
    if is_derived(items, "reproduces"@, vals) {
        let n = choose|n: nat| derivable(items, "reproduces"@, vals, n);
        let (r, env) = derived_by(items, "reproduces"@, vals, n);
        let k = (n - 1) as nat;
        no_fact_is_named(p, r, "reproduces"@);
        assert(is_met(items, r.body[0], env, k) && is_met(items, r.body[1], env, k));
        met_atom(items, answer_of(var('V')), env, k);
        met_atom(items, model_answer_of(var('V')), env, k);
        one_value(var('V'), env);
        answer_is_known(p, vals, k);
        model_answer_is_known(p, vals, k);
        assert(vals[0] == Val::Num(v));
    }
    if root_worth(p) == Some(v) && (p.answer matches Some(a) && a == v) {
        let n = worth_is_derived(p, 0, p.run);
        let m = n + 1;
        answer_fires(p, v, n);
        model_answer_is_derived(p, p.answer->0);
        derivable_in_more(items, "model_answer"@, vals, 1, m);
        let z = Val::Num(0);
        let env = eval_env(z, Val::Num(v), z, z, z, z, z);
        eval_env_says(z, Val::Num(v), z, z, z, z, z);
        assert(items.contains(Item::Rule(c))) by {
            clauses_are_there(p);
        }
        one_value(var('V'), env);
        met_atom(items, answer_of(var('V')), env, m);
        met_atom(items, model_answer_of(var('V')), env, m);
        assert forall|j: int| 0 <= j < c.body.len() implies is_met(items, #[trigger] c.body[j], env, m) by {
            assert(j == 0 || j == 1);
        }
        derived_with(items, c, env, vals, m);
    }
}

pub open spec fn pair_env(x: Val, y: Val) -> Env {
    |s: Seq<char>| if s[0] == 'P' { x } else { y }
}

/// The program is said to diverge exactly when its answer is not the model's.
pub(crate) proof fn divergence_is_exact(p: Written, x: int, m: int)
    requires
        is_valid(p),
    ensures
        is_derived(p.items(), "diverges"@, seq![Val::Num(x), Val::Num(m)]) == (root_worth(p) == Some(x) && (
        p.answer matches Some(a) && a == m) && x != m),
{
    let items = p.items();
    let vals = seq![Val::Num(x), Val::Num(m)];
    let c = diverges_clause();
    comparisons_differ();
    if is_derived(items, "diverges"@, vals) {
        let n = choose|n: nat| derivable(items, "diverges"@, vals, n);
        let (r, env) = derived_by(items, "diverges"@, vals, n);
        let k = (n - 1) as nat;
        no_fact_is_named(p, r, "diverges"@);
        assert(is_met(items, r.body[0], env, k) && is_met(items, r.body[1], env, k) && is_met(items, r.body[2], env, k));
        met_atom(items, answer_of(var('P')), env, k);
        met_atom(items, model_answer_of(var('M')), env, k);
        met_comparison(items, seq!['!', '='], var('P'), var('M'), env, k);
        one_value(var('P'), env);
        one_value(var('M'), env);
        two_values(var('P'), var('M'), env);
        assert(vals[0] == Val::Num(x) && vals[1] == Val::Num(m));
        let left = seq![env(seq!['P'])];
        let right = seq![env(seq!['M'])];
        answer_is_known(p, left, k);
        model_answer_is_known(p, right, k);
        assert(left[0] == env(seq!['P']) && right[0] == env(seq!['M']));
    }
    if root_worth(p) == Some(x) && (p.answer matches Some(a) && a == m) && x != m {
        let n = worth_is_derived(p, 0, p.run);
        let k = n + 1;
        answer_fires(p, x, n);
        model_answer_is_derived(p, p.answer->0);
        derivable_in_more(items, "model_answer"@, seq![Val::Num(m)], 1, k);
        let env = pair_env(Val::Num(x), Val::Num(m));
        assert(env(seq!['P']) == Val::Num(x) && env(seq!['M']) == Val::Num(m));
        assert(items.contains(Item::Rule(c))) by {
            clauses_are_there(p);
        }
        one_value(var('P'), env);
        one_value(var('M'), env);
        two_values(var('P'), var('M'), env);
        met_atom(items, answer_of(var('P')), env, k);
        met_atom(items, model_answer_of(var('M')), env, k);
        met_comparison(items, seq!['!', '='], var('P'), var('M'), env, k);
        assert forall|j: int| 0 <= j < c.body.len() implies is_met(items, #[trigger] c.body[j], env, k) by {
            assert(j == 0 || j == 1 || j == 2);
        }
        derived_with(items, c, env, vals, k);
    }
}

} // verus!
