//! The written program as a Datalog program: its declarations, facts and rules.
use vstd::prelude::*;
use crate::datalog_reading::{Atom, Clause, Expr, Item, Literal, Term};
use crate::recursion_dl::Flat;
use crate::text::dec;

verus! {

// ---- The clauses of the written program.

pub open spec fn var(c: char) -> Expr {
    Expr::One(Term::Var(seq![c]))
}

pub open spec fn num(n: int) -> Expr {
    Expr::One(Term::Num(n))
}

pub open spec fn sym(s: Seq<char>) -> Expr {
    Expr::One(Term::Sym(s))
}

/// The budget below.
pub open spec fn less_one() -> Expr {
    Expr::Two(Term::Var(seq!['B']), '-', Term::Num(1))
}

/// The name of a node.
pub open spec fn node_name(i: nat) -> Seq<char> {
    seq!['n'] + dec(i)
}
pub open spec fn eval_of(n: Expr, v: Expr, b: Expr) -> Atom {
    Atom { name: "eval"@, args: seq![n, v, b] }
}
pub open spec fn budget_of(b: Expr) -> Atom {
    Atom { name: "budget"@, args: seq![b] }
}
pub open spec fn retrieved_of(n: Expr, v: Expr) -> Atom {
    Atom { name: "retrieved"@, args: seq![n, v] }
}
pub open spec fn leaf_of(n: Expr, v: Expr) -> Atom {
    Atom { name: "leaf"@, args: seq![n, v] }
}
pub open spec fn node_of(n: Expr, op: Expr, a: Expr, c: Expr) -> Atom {
    Atom { name: "node"@, args: seq![n, op, a, c] }
}
pub open spec fn answer_of(v: Expr) -> Atom {
    Atom { name: "answer"@, args: seq![v] }
}
pub open spec fn model_answer_of(v: Expr) -> Atom {
    Atom { name: "model_answer"@, args: seq![v] }
}
pub open spec fn reproduces_of(v: Expr) -> Atom {
    Atom { name: "reproduces"@, args: seq![v] }
}
pub open spec fn diverges_of(p: Expr, m: Expr) -> Atom {
    Atom { name: "diverges"@, args: seq![p, m] }
}
pub open spec fn fact(head: Atom) -> Item {
    Item::Rule(Clause { head, body: Seq::empty() })
}

/// The fact that describes node `i`.
pub open spec fn node_fact(i: nat, f: Flat) -> Atom {
    match f {
        Flat::Leaf(v) => leaf_of(sym(node_name(i)), num(v as int)),
        Flat::Op(op, a, b) => node_of(sym(node_name(i)), sym(seq![op]), sym(node_name(a as nat)), sym(node_name(b as nat))),
    }
}

pub open spec fn cut_fact(c: (usize, i64, bool)) -> Atom {
    retrieved_of(sym(node_name(c.0 as nat)), num(c.1 as int))
}

/// The budgets go down from the written one.
pub open spec fn budget_clause() -> Clause {
    Clause { head: budget_of(less_one()), body: seq![Literal::Holds(budget_of(var('B'))), above_zero()] }
}

pub open spec fn above_zero() -> Literal {
    Literal::Compare(seq!['>'], var('B'), num(0))
}

pub open spec fn used_up() -> Literal {
    Literal::Compare(seq!['<', '='], var('B'), num(0))
}

pub open spec fn eval_head() -> Atom {
    eval_of(var('N'), var('V'), var('B'))
}

/// Where the budget is used up, a value is retrieved.
pub open spec fn cut_clause() -> Clause {
    Clause {
        head: eval_head(),
        body: seq![
            Literal::Holds(budget_of(var('B'))),
            used_up(),
            Literal::Holds(retrieved_of(var('N'), var('V'))),
        ],
    }
}

pub open spec fn leaf_clause() -> Clause {
    Clause { head: eval_head(), body: seq![Literal::Holds(budget_of(var('B'))), Literal::Holds(leaf_of(var('N'), var('V')))] }
}

pub open spec fn has_operator(op: char) -> Literal {
    Literal::Holds(node_of(var('N'), sym(seq![op]), var('A'), var('C')))
}

pub open spec fn left_operand() -> Literal {
    Literal::Holds(eval_of(var('A'), var('X'), less_one()))
}

pub open spec fn right_operand() -> Literal {
    Literal::Holds(eval_of(var('C'), var('Y'), less_one()))
}

pub open spec fn nonzero() -> Literal {
    Literal::Compare(seq!['!', '='], var('Y'), num(0))
}

pub open spec fn computed(op: char) -> Literal {
    Literal::Compare(seq!['='], var('V'), Expr::Two(Term::Var(seq!['X']), op, Term::Var(seq!['Y'])))
}

/// An operator node has the value that the operator makes of the values of its operands.
pub open spec fn operator_clause(op: char) -> Clause {
    Clause {
        head: eval_head(),
        body: if op == '/' {
            seq![
                Literal::Holds(budget_of(var('B'))),
                above_zero(),
                has_operator(op),
                left_operand(),
                right_operand(),
                nonzero(),
                computed(op),
            ]
        } else {
            seq![
                Literal::Holds(budget_of(var('B'))),
                above_zero(),
                has_operator(op),
                left_operand(),
                right_operand(),
                computed(op),
            ]
        },
    }
}

pub open spec fn run_at(b: int) -> Literal {
    Literal::Holds(eval_of(sym(node_name(0)), var('V'), num(b)))
}

pub open spec fn answer_clause(b: int) -> Clause {
    Clause { head: answer_of(var('V')), body: seq![run_at(b)] }
}

pub open spec fn reproduces_clause() -> Clause {
    Clause {
        head: reproduces_of(var('V')),
        body: seq![Literal::Holds(answer_of(var('V'))), Literal::Holds(model_answer_of(var('V')))],
    }
}

pub open spec fn diverges_clause() -> Clause {
    Clause {
        head: diverges_of(var('P'), var('M')),
        body: seq![
            Literal::Holds(answer_of(var('P'))),
            Literal::Holds(model_answer_of(var('M'))),
            Literal::Compare(seq!['!', '='], var('P'), var('M')),
        ],
    }
}

pub open spec fn declared() -> Seq<Item> {
    let s = "symbol"@;
    let n = "number"@;
    seq![
        Item::Decl("leaf"@, seq![s, n]),
        Item::Decl("node"@, seq![s, s, s, s]),
        Item::Decl("retrieved"@, seq![s, n]),
        Item::Decl("budget"@, seq![n]),
        Item::Decl("eval"@, seq![s, n, n]),
        Item::Decl("answer"@, seq![n]),
        Item::Decl("model_answer"@, seq![n]),
        Item::Decl("reproduces"@, seq![n]),
        Item::Decl("diverges"@, seq![n, n]),
    ]
}

pub open spec fn node_facts(nodes: Seq<Flat>) -> Seq<Item> {
    Seq::new(nodes.len(), |i: int| fact(node_fact(i as nat, nodes[i])))
}

pub open spec fn cut_facts(cuts: Seq<(usize, i64, bool)>) -> Seq<Item> {
    Seq::new(cuts.len(), |i: int| fact(cut_fact(cuts[i])))
}

pub open spec fn answer_facts(answer: Option<i64>) -> Seq<Item> {
    match answer {
        Some(a) => seq![fact(model_answer_of(num(a as int)))],
        None => Seq::empty(),
    }
}

/// The rules of the evaluator, run at the budget `b`.
pub open spec fn rules(b: int) -> Seq<Item> {
    seq![
        fact(budget_of(num(b))),
        Item::Rule(budget_clause()),
        Item::Rule(cut_clause()),
        Item::Rule(leaf_clause()),
        Item::Rule(operator_clause('+')),
        Item::Rule(operator_clause('-')),
        Item::Rule(operator_clause('*')),
        Item::Rule(operator_clause('/')),
        Item::Rule(answer_clause(b)),
        Item::Rule(reproduces_clause()),
        Item::Rule(diverges_clause()),
        Item::Output("answer"@),
        Item::Output("reproduces"@),
        Item::Output("diverges"@),
    ]
}

/// The whole program.
pub open spec fn program(nodes: Seq<Flat>, cuts: Seq<(usize, i64, bool)>, answer: Option<i64>, b: int) -> Seq<Item> {
    declared() + node_facts(nodes) + cut_facts(cuts) + answer_facts(answer) + rules(b)
}

} // verus!
