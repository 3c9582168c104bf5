//! How the text of the written program spells its declarations, facts and rules.
use vstd::prelude::*;
use crate::datalog_program::{
    above_zero, answer_of, budget_clause, budget_of, computed, cut_clause, diverges_clause, diverges_of, eval_head,
    has_operator, leaf_clause, leaf_of, left_operand, less_one, model_answer_of, nonzero, num, operator_clause,
    reproduces_clause, reproduces_of, retrieved_of, right_operand, sym, used_up, var,
};
use crate::datalog_reading::{between, is_name, read_item, scan, Atom, Clause, Expr, Item, Literal};
use crate::datalog_tokens::{
    args_toks, atom_ok, atom_toks, body_toks, clause_toks, columns_are_read, columns_toks, cut, cut_both, expr_ok, expr_toks,
    literal_ok, literal_toks, num_toks, quoted, spaced_remark_is_cut, spaces_are_cut, spells, spells_behind_blank,
    spells_both, spells_clause, term_toks, written_one,
};
use crate::text::dec;

verus! {

// ---- Tokens of the atoms.

pub(crate) proof fn atom_of_one(name: Seq<char>, a: Expr)
    ensures
        atom_toks(Atom { name, args: seq![a] }) == seq![name, seq!['(']] + expr_toks(a) + seq![seq![')']],
        is_name(name) && expr_ok(a) ==> atom_ok(Atom { name, args: seq![a] }),
{
    reveal(atom_toks);
    reveal(args_toks);
    assert(atom_toks(Atom { name, args: seq![a] }) =~= seq![name, seq!['(']] + expr_toks(a) + seq![seq![')']]);
}

pub(crate) proof fn atom_of_two(name: Seq<char>, a: Expr, b: Expr)
    ensures
        atom_toks(Atom { name, args: seq![a, b] }) == seq![name, seq!['(']] + expr_toks(a) + seq![seq![',']] + expr_toks(b)
            + seq![seq![')']],
        is_name(name) && expr_ok(a) && expr_ok(b) ==> atom_ok(Atom { name, args: seq![a, b] }),
{
    reveal(atom_toks);
    reveal_with_fuel(args_toks, 2);
    assert(atom_toks(Atom { name, args: seq![a, b] }) =~= seq![name, seq!['(']] + expr_toks(a) + seq![seq![',']] + expr_toks(b)
        + seq![seq![')']]);
}

pub(crate) proof fn atom_of_three(name: Seq<char>, a: Expr, b: Expr, c: Expr)
    ensures
        atom_toks(Atom { name, args: seq![a, b, c] }) == seq![name, seq!['(']] + expr_toks(a) + seq![seq![',']] + expr_toks(b)
            + seq![seq![',']] + expr_toks(c) + seq![seq![')']],
        is_name(name) && expr_ok(a) && expr_ok(b) && expr_ok(c) ==> atom_ok(Atom { name, args: seq![a, b, c] }),
{
    reveal(atom_toks);
    reveal_with_fuel(args_toks, 3);
    assert(atom_toks(Atom { name, args: seq![a, b, c] }) =~= seq![name, seq!['(']] + expr_toks(a) + seq![seq![',']] + expr_toks(
        b,
    ) + seq![seq![',']] + expr_toks(c) + seq![seq![')']]);
}

pub(crate) proof fn atom_of_four(name: Seq<char>, a: Expr, b: Expr, c: Expr, d: Expr)
    ensures
        atom_toks(Atom { name, args: seq![a, b, c, d] }) == seq![name, seq!['(']] + expr_toks(a) + seq![seq![',']] + expr_toks(
            b,
        ) + seq![seq![',']] + expr_toks(c) + seq![seq![',']] + expr_toks(d) + seq![seq![')']],
        is_name(name) && expr_ok(a) && expr_ok(b) && expr_ok(c) && expr_ok(d) ==> atom_ok(
            Atom { name, args: seq![a, b, c, d] },
        ),
{
    reveal(atom_toks);
    reveal_with_fuel(args_toks, 4);
    assert(atom_toks(Atom { name, args: seq![a, b, c, d] }) =~= seq![name, seq!['(']] + expr_toks(a) + seq![seq![',']]
        + expr_toks(b) + seq![seq![',']] + expr_toks(c) + seq![seq![',']] + expr_toks(d) + seq![seq![')']]);
}

pub(crate) proof fn small_exprs()
    ensures
        forall|c: char| #[trigger] expr_toks(var(c)) == seq![seq![c]],
        forall|c: char| 'A' <= c && c <= 'Z' ==> expr_ok(#[trigger] var(c)),
        forall|s: Seq<char>| #[trigger] expr_toks(sym(s)) == seq![quoted(s)],
        forall|s: Seq<char>| expr_ok(#[trigger] sym(s)),
        forall|n: int| #[trigger] expr_toks(num(n)) == num_toks(n),
        forall|n: int| expr_ok(#[trigger] num(n)),
        expr_toks(num(0)) == seq![seq!['0']],
        expr_toks(less_one()) == seq![seq!['B'], seq!['-'], seq!['1']],
        expr_ok(less_one()),
{
    reveal(expr_toks);
    reveal(term_toks);
    assert(dec(0) =~= seq!['0']);
    assert(dec(1) =~= seq!['1']);
    assert(num_toks(0) =~= seq![seq!['0']]);
    assert(expr_toks(less_one()) =~= seq![seq!['B'], seq!['-'], seq!['1']]);
}

pub(crate) proof fn relations_are_names()
    ensures
        is_name("eval"@),
        is_name("budget"@),
        is_name("retrieved"@),
        is_name("leaf"@),
        is_name("node"@),
        is_name("answer"@),
        is_name("model_answer"@),
        is_name("reproduces"@),
        is_name("diverges"@),
{
    reveal_strlit("eval");
    reveal_strlit("budget");
    reveal_strlit("retrieved");
    reveal_strlit("leaf");
    reveal_strlit("node");
    reveal_strlit("answer");
    reveal_strlit("model_answer");
    reveal_strlit("reproduces");
    reveal_strlit("diverges");
}

// ---- Rules put together from their pieces.

pub open spec fn body_ok(body: Seq<Literal>) -> bool {
    body.len() > 0 && forall|i: int| 0 <= i < body.len() ==> literal_ok(#[trigger] body[i])
}

pub(crate) proof fn last_condition(text: Seq<char>, l: Literal)
    requires
        literal_ok(l),
        cut(text, literal_toks(l) + seq![seq!['.']]),
    ensures
        body_ok(seq![l]),
        cut(text, body_toks(seq![l])),
{
    reveal(body_toks);
}

proof fn condition(text: Seq<char>, l: Literal, rest: Seq<char>, body: Seq<Literal>)
    requires
        literal_ok(l),
        cut(text, literal_toks(l) + seq![seq![',']]),
        body_ok(body),
        cut(rest, body_toks(body)),
    ensures
        body_ok(seq![l] + body),
        cut(text + rest, body_toks(seq![l] + body)),
{
    let all = seq![l] + body;
    assert(all.skip(1) =~= body);
    assert(body_toks(all) == literal_toks(l) + seq![seq![',']] + body_toks(body)) by {
        reveal(body_toks);
    }
    cut_both(text, literal_toks(l) + seq![seq![',']], rest, body_toks(body));
    assert forall|i: int| 0 <= i < all.len() implies literal_ok(#[trigger] all[i]) by {
        if i > 0 {
            assert(all[i] == body[i - 1]);
        }
    }
}

pub(crate) proof fn rule_is_spelled(text: Seq<char>, head: Atom, rest: Seq<char>, body: Seq<Literal>)
    requires
        atom_ok(head),
        cut(text, atom_toks(head)),
        body_ok(body),
        cut(rest, body_toks(body)),
    ensures
        spells(text + (":- "@ + rest), seq![Item::Rule(Clause { head, body })]),
{
    arrow_is_cut();
    cut_both(":- "@, seq![seq![':', '-']], rest, body_toks(body));
    cut_both(text, atom_toks(head), ":- "@ + rest, seq![seq![':', '-']] + body_toks(body));
    reveal(clause_toks);
    spells_clause(text + (":- "@ + rest), Clause { head, body });
}

proof fn arrow_is_cut()
    ensures
        cut(":- "@, seq![seq![':', '-']]),
{
    reveal_strlit(":- ");
    let toks = seq![seq![':', '-']];
    assert forall|done: Seq<Seq<char>>| #[trigger] scan(between(done), ":- "@) == between(done + toks) by {
        reveal_with_fuel(scan, 5);
        let r = scan(between(done), ":- "@);
        assert(r.done =~~= done + toks);
        assert(r.word =~= Seq::empty());
    }
}

// ---- The pieces.

proof fn eval_head_piece()
    ensures
        cut("eval(N,V,B) "@, atom_toks(eval_head())),
        atom_ok(eval_head()),
{
    reveal_strlit("eval(N,V,B) ");
    reveal_strlit("eval");
    let toks = seq!["eval"@, seq!['('], seq!['N'], seq![','], seq!['V'], seq![','], seq!['B'], seq![')']];
    assert forall|done: Seq<Seq<char>>| #[trigger] scan(between(done), "eval(N,V,B) "@) == between(done + toks) by {
        reveal_with_fuel(scan, 14);
        let r = scan(between(done), "eval(N,V,B) "@);
        assert(r.done =~~= done + toks);
        assert(r.word =~= Seq::empty());
    }
    small_exprs();
    relations_are_names();
    atom_of_three("eval"@, var('N'), var('V'), var('B'));
    assert(atom_toks(eval_head()) =~= toks);
}

proof fn budget_head_piece()
    ensures
        cut("budget(B-1) "@, atom_toks(budget_of(less_one()))),
        atom_ok(budget_of(less_one())),
{
    reveal_strlit("budget(B-1) ");
    reveal_strlit("budget");
    let toks = seq!["budget"@, seq!['('], seq!['B'], seq!['-'], seq!['1'], seq![')']];
    assert forall|done: Seq<Seq<char>>| #[trigger] scan(between(done), "budget(B-1) "@) == between(done + toks) by {
        reveal_with_fuel(scan, 14);
        let r = scan(between(done), "budget(B-1) "@);
        assert(r.done =~~= done + toks);
        assert(r.word =~= Seq::empty());
    }
    small_exprs();
    relations_are_names();
    atom_of_one("budget"@, less_one());
    assert(atom_toks(budget_of(less_one())) =~= toks);
}

pub(crate) proof fn answer_head_piece()
    ensures
        cut("answer(V)     "@, atom_toks(answer_of(var('V')))),
        atom_ok(answer_of(var('V'))),
{
    reveal_strlit("answer(V)     ");
    reveal_strlit("answer");
    let toks = seq!["answer"@, seq!['('], seq!['V'], seq![')']];
    assert forall|done: Seq<Seq<char>>| #[trigger] scan(between(done), "answer(V)     "@) == between(done + toks) by {
        reveal_with_fuel(scan, 16);
        let r = scan(between(done), "answer(V)     "@);
        assert(r.done =~~= done + toks);
        assert(r.word =~= Seq::empty());
    }
    small_exprs();
    relations_are_names();
    atom_of_one("answer"@, var('V'));
    assert(atom_toks(answer_of(var('V'))) =~= toks);
}

proof fn reproduces_head_piece()
    ensures
        cut("reproduces(V)  "@, atom_toks(reproduces_of(var('V')))),
        atom_ok(reproduces_of(var('V'))),
{
    reveal_strlit("reproduces(V)  ");
    reveal_strlit("reproduces");
    let toks = seq!["reproduces"@, seq!['('], seq!['V'], seq![')']];
    assert forall|done: Seq<Seq<char>>| #[trigger] scan(between(done), "reproduces(V)  "@) == between(done + toks) by {
        reveal_with_fuel(scan, 17);
        let r = scan(between(done), "reproduces(V)  "@);
        assert(r.done =~~= done + toks);
        assert(r.word =~= Seq::empty());
    }
    small_exprs();
    relations_are_names();
    atom_of_one("reproduces"@, var('V'));
    assert(atom_toks(reproduces_of(var('V'))) =~= toks);
}

proof fn diverges_head_piece()
    ensures
        cut("diverges(P,M)  "@, atom_toks(diverges_of(var('P'), var('M')))),
        atom_ok(diverges_of(var('P'), var('M'))),
{
    reveal_strlit("diverges(P,M)  ");
    reveal_strlit("diverges");
    let toks = seq!["diverges"@, seq!['('], seq!['P'], seq![','], seq!['M'], seq![')']];
    assert forall|done: Seq<Seq<char>>| #[trigger] scan(between(done), "diverges(P,M)  "@) == between(done + toks) by {
        reveal_with_fuel(scan, 17);
        let r = scan(between(done), "diverges(P,M)  "@);
        assert(r.done =~~= done + toks);
        assert(r.word =~= Seq::empty());
    }
    small_exprs();
    relations_are_names();
    atom_of_two("diverges"@, var('P'), var('M'));
    assert(atom_toks(diverges_of(var('P'), var('M'))) =~= toks);
}

proof fn budget_piece()
    ensures
        cut("budget(B), "@, literal_toks(Literal::Holds(budget_of(var('B')))) + seq![seq![',']]),
        literal_ok(Literal::Holds(budget_of(var('B')))),
{
    reveal_strlit("budget(B), ");
    reveal_strlit("budget");
    let toks = seq!["budget"@, seq!['('], seq!['B'], seq![')'], seq![',']];
    assert forall|done: Seq<Seq<char>>| #[trigger] scan(between(done), "budget(B), "@) == between(done + toks) by {
        reveal_with_fuel(scan, 13);
        let r = scan(between(done), "budget(B), "@);
        assert(r.done =~~= done + toks);
        assert(r.word =~= Seq::empty());
    }
    small_exprs();
    relations_are_names();
    reveal(literal_toks);
    atom_of_one("budget"@, var('B'));
    assert(literal_toks(Literal::Holds(budget_of(var('B')))) + seq![seq![',']] =~= toks);
}

proof fn above_zero_piece()
    ensures
        cut("B > 0, "@, literal_toks(above_zero()) + seq![seq![',']]),
        literal_ok(above_zero()),
{
    reveal_strlit("B > 0, ");
    let toks = seq![seq!['B'], seq!['>'], seq!['0'], seq![',']];
    assert forall|done: Seq<Seq<char>>| #[trigger] scan(between(done), "B > 0, "@) == between(done + toks) by {
        reveal_with_fuel(scan, 9);
        let r = scan(between(done), "B > 0, "@);
        assert(r.done =~~= done + toks);
        assert(r.word =~= Seq::empty());
    }
    small_exprs();
    relations_are_names();
    reveal(literal_toks);
    assert(literal_toks(above_zero()) + seq![seq![',']] =~= toks);
}

proof fn above_zero_end()
    ensures
        cut("B > 0.\n"@, literal_toks(above_zero()) + seq![seq!['.']]),
        literal_ok(above_zero()),
{
    reveal_strlit("B > 0.\n");
    let toks = seq![seq!['B'], seq!['>'], seq!['0'], seq!['.']];
    assert forall|done: Seq<Seq<char>>| #[trigger] scan(between(done), "B > 0.\n"@) == between(done + toks) by {
        reveal_with_fuel(scan, 9);
        let r = scan(between(done), "B > 0.\n"@);
        assert(r.done =~~= done + toks);
        assert(r.word =~= Seq::empty());
    }
    small_exprs();
    relations_are_names();
    reveal(literal_toks);
    assert(literal_toks(above_zero()) + seq![seq!['.']] =~= toks);
}

proof fn used_up_piece()
    ensures
        cut("B <= 0, "@, literal_toks(used_up()) + seq![seq![',']]),
        literal_ok(used_up()),
{
    reveal_strlit("B <= 0, ");
    let toks = seq![seq!['B'], seq!['<', '='], seq!['0'], seq![',']];
    assert forall|done: Seq<Seq<char>>| #[trigger] scan(between(done), "B <= 0, "@) == between(done + toks) by {
        reveal_with_fuel(scan, 10);
        let r = scan(between(done), "B <= 0, "@);
        assert(r.done =~~= done + toks);
        assert(r.word =~= Seq::empty());
    }
    small_exprs();
    relations_are_names();
    reveal(literal_toks);
    assert(literal_toks(used_up()) + seq![seq![',']] =~= toks);
}

proof fn retrieved_end()
    ensures
        cut("retrieved(N,V). "@, literal_toks(Literal::Holds(retrieved_of(var('N'), var('V')))) + seq![seq!['.']]),
        literal_ok(Literal::Holds(retrieved_of(var('N'), var('V')))),
{
    reveal_strlit("retrieved(N,V). ");
    reveal_strlit("retrieved");
    let toks = seq!["retrieved"@, seq!['('], seq!['N'], seq![','], seq!['V'], seq![')'], seq!['.']];
    assert forall|done: Seq<Seq<char>>| #[trigger] scan(between(done), "retrieved(N,V). "@) == between(done + toks) by {
        reveal_with_fuel(scan, 18);
        let r = scan(between(done), "retrieved(N,V). "@);
        assert(r.done =~~= done + toks);
        assert(r.word =~= Seq::empty());
    }
    small_exprs();
    relations_are_names();
    reveal(literal_toks);
    atom_of_two("retrieved"@, var('N'), var('V'));
    assert(literal_toks(Literal::Holds(retrieved_of(var('N'), var('V')))) + seq![seq!['.']] =~= toks);
}

proof fn leaf_end()
    ensures
        cut("leaf(N,V).\n"@, literal_toks(Literal::Holds(leaf_of(var('N'), var('V')))) + seq![seq!['.']]),
        literal_ok(Literal::Holds(leaf_of(var('N'), var('V')))),
{
    reveal_strlit("leaf(N,V).\n");
    reveal_strlit("leaf");
    let toks = seq!["leaf"@, seq!['('], seq!['N'], seq![','], seq!['V'], seq![')'], seq!['.']];
    assert forall|done: Seq<Seq<char>>| #[trigger] scan(between(done), "leaf(N,V).\n"@) == between(done + toks) by {
        reveal_with_fuel(scan, 13);
        let r = scan(between(done), "leaf(N,V).\n"@);
        assert(r.done =~~= done + toks);
        assert(r.word =~= Seq::empty());
    }
    small_exprs();
    relations_are_names();
    reveal(literal_toks);
    atom_of_two("leaf"@, var('N'), var('V'));
    assert(literal_toks(Literal::Holds(leaf_of(var('N'), var('V')))) + seq![seq!['.']] =~= toks);
}

proof fn plus_node_piece()
    ensures
        cut("node(N,\"+\",A,C), "@, literal_toks(has_operator('+')) + seq![seq![',']]),
        literal_ok(has_operator('+')),
{
    reveal_strlit("node(N,\"+\",A,C), ");
    reveal_strlit("node");
    let toks = seq!["node"@, seq!['('], seq!['N'], seq![','], quoted(seq!['+']), seq![','], seq!['A'], seq![','], seq!['C'], seq![')'], seq![',']];
    assert forall|done: Seq<Seq<char>>| #[trigger] scan(between(done), "node(N,\"+\",A,C), "@) == between(done + toks) by {
        reveal_with_fuel(scan, 19);
        let r = scan(between(done), "node(N,\"+\",A,C), "@);
        assert(r.done =~~= done + toks);
        assert(r.word =~= Seq::empty());
    }
    small_exprs();
    relations_are_names();
    reveal(literal_toks);
    atom_of_four("node"@, var('N'), sym(seq!['+']), var('A'), var('C'));
    assert(literal_toks(has_operator('+')) + seq![seq![',']] =~= toks);
}

proof fn plus_value_end()
    ensures
        cut("V = X + Y.\n"@, literal_toks(computed('+')) + seq![seq!['.']]),
        literal_ok(computed('+')),
{
    reveal_strlit("V = X + Y.\n");
    let toks = seq![seq!['V'], seq!['='], seq!['X'], seq!['+'], seq!['Y'], seq!['.']];
    assert forall|done: Seq<Seq<char>>| #[trigger] scan(between(done), "V = X + Y.\n"@) == between(done + toks) by {
        reveal_with_fuel(scan, 13);
        let r = scan(between(done), "V = X + Y.\n"@);
        assert(r.done =~~= done + toks);
        assert(r.word =~= Seq::empty());
    }
    small_exprs();
    relations_are_names();
    reveal(literal_toks);
    reveal(expr_toks);
    reveal(term_toks);
    assert(literal_toks(computed('+')) + seq![seq!['.']] =~= toks);
}

proof fn minus_node_piece()
    ensures
        cut("node(N,\"-\",A,C), "@, literal_toks(has_operator('-')) + seq![seq![',']]),
        literal_ok(has_operator('-')),
{
    reveal_strlit("node(N,\"-\",A,C), ");
    reveal_strlit("node");
    let toks = seq!["node"@, seq!['('], seq!['N'], seq![','], quoted(seq!['-']), seq![','], seq!['A'], seq![','], seq!['C'], seq![')'], seq![',']];
    assert forall|done: Seq<Seq<char>>| #[trigger] scan(between(done), "node(N,\"-\",A,C), "@) == between(done + toks) by {
        reveal_with_fuel(scan, 19);
        let r = scan(between(done), "node(N,\"-\",A,C), "@);
        assert(r.done =~~= done + toks);
        assert(r.word =~= Seq::empty());
    }
    small_exprs();
    relations_are_names();
    reveal(literal_toks);
    atom_of_four("node"@, var('N'), sym(seq!['-']), var('A'), var('C'));
    assert(literal_toks(has_operator('-')) + seq![seq![',']] =~= toks);
}

proof fn minus_value_end()
    ensures
        cut("V = X - Y.\n"@, literal_toks(computed('-')) + seq![seq!['.']]),
        literal_ok(computed('-')),
{
    reveal_strlit("V = X - Y.\n");
    let toks = seq![seq!['V'], seq!['='], seq!['X'], seq!['-'], seq!['Y'], seq!['.']];
    assert forall|done: Seq<Seq<char>>| #[trigger] scan(between(done), "V = X - Y.\n"@) == between(done + toks) by {
        reveal_with_fuel(scan, 13);
        let r = scan(between(done), "V = X - Y.\n"@);
        assert(r.done =~~= done + toks);
        assert(r.word =~= Seq::empty());
    }
    small_exprs();
    relations_are_names();
    reveal(literal_toks);
    reveal(expr_toks);
    reveal(term_toks);
    assert(literal_toks(computed('-')) + seq![seq!['.']] =~= toks);
}

proof fn times_node_piece()
    ensures
        cut("node(N,\"*\",A,C), "@, literal_toks(has_operator('*')) + seq![seq![',']]),
        literal_ok(has_operator('*')),
{
    reveal_strlit("node(N,\"*\",A,C), ");
    reveal_strlit("node");
    let toks = seq!["node"@, seq!['('], seq!['N'], seq![','], quoted(seq!['*']), seq![','], seq!['A'], seq![','], seq!['C'], seq![')'], seq![',']];
    assert forall|done: Seq<Seq<char>>| #[trigger] scan(between(done), "node(N,\"*\",A,C), "@) == between(done + toks) by {
        reveal_with_fuel(scan, 19);
        let r = scan(between(done), "node(N,\"*\",A,C), "@);
        assert(r.done =~~= done + toks);
        assert(r.word =~= Seq::empty());
    }
    small_exprs();
    relations_are_names();
    reveal(literal_toks);
    atom_of_four("node"@, var('N'), sym(seq!['*']), var('A'), var('C'));
    assert(literal_toks(has_operator('*')) + seq![seq![',']] =~= toks);
}

proof fn times_value_end()
    ensures
        cut("V = X * Y.\n"@, literal_toks(computed('*')) + seq![seq!['.']]),
        literal_ok(computed('*')),
{
    reveal_strlit("V = X * Y.\n");
    let toks = seq![seq!['V'], seq!['='], seq!['X'], seq!['*'], seq!['Y'], seq!['.']];
    assert forall|done: Seq<Seq<char>>| #[trigger] scan(between(done), "V = X * Y.\n"@) == between(done + toks) by {
        reveal_with_fuel(scan, 13);
        let r = scan(between(done), "V = X * Y.\n"@);
        assert(r.done =~~= done + toks);
        assert(r.word =~= Seq::empty());
    }
    small_exprs();
    relations_are_names();
    reveal(literal_toks);
    reveal(expr_toks);
    reveal(term_toks);
    assert(literal_toks(computed('*')) + seq![seq!['.']] =~= toks);
}

proof fn over_node_piece()
    ensures
        cut("node(N,\"/\",A,C), "@, literal_toks(has_operator('/')) + seq![seq![',']]),
        literal_ok(has_operator('/')),
{
    reveal_strlit("node(N,\"/\",A,C), ");
    reveal_strlit("node");
    let toks = seq!["node"@, seq!['('], seq!['N'], seq![','], quoted(seq!['/']), seq![','], seq!['A'], seq![','], seq!['C'], seq![')'], seq![',']];
    assert forall|done: Seq<Seq<char>>| #[trigger] scan(between(done), "node(N,\"/\",A,C), "@) == between(done + toks) by {
        reveal_with_fuel(scan, 19);
        let r = scan(between(done), "node(N,\"/\",A,C), "@);
        assert(r.done =~~= done + toks);
        assert(r.word =~= Seq::empty());
    }
    small_exprs();
    relations_are_names();
    reveal(literal_toks);
    atom_of_four("node"@, var('N'), sym(seq!['/']), var('A'), var('C'));
    assert(literal_toks(has_operator('/')) + seq![seq![',']] =~= toks);
}

proof fn over_value_end()
    ensures
        cut("V = X / Y.\n"@, literal_toks(computed('/')) + seq![seq!['.']]),
        literal_ok(computed('/')),
{
    reveal_strlit("V = X / Y.\n");
    let toks = seq![seq!['V'], seq!['='], seq!['X'], seq!['/'], seq!['Y'], seq!['.']];
    assert forall|done: Seq<Seq<char>>| #[trigger] scan(between(done), "V = X / Y.\n"@) == between(done + toks) by {
        reveal_with_fuel(scan, 13);
        let r = scan(between(done), "V = X / Y.\n"@);
        assert(r.done =~~= done + toks);
        assert(r.word =~= Seq::empty());
    }
    small_exprs();
    relations_are_names();
    reveal(literal_toks);
    reveal(expr_toks);
    reveal(term_toks);
    assert(literal_toks(computed('/')) + seq![seq!['.']] =~= toks);
}

proof fn left_piece()
    ensures
        cut("eval(A,X,B-1), "@, literal_toks(left_operand()) + seq![seq![',']]),
        literal_ok(left_operand()),
{
    reveal_strlit("eval(A,X,B-1), ");
    reveal_strlit("eval");
    let toks = seq!["eval"@, seq!['('], seq!['A'], seq![','], seq!['X'], seq![','], seq!['B'], seq!['-'], seq!['1'], seq![')'], seq![',']];
    assert forall|done: Seq<Seq<char>>| #[trigger] scan(between(done), "eval(A,X,B-1), "@) == between(done + toks) by {
        reveal_with_fuel(scan, 17);
        let r = scan(between(done), "eval(A,X,B-1), "@);
        assert(r.done =~~= done + toks);
        assert(r.word =~= Seq::empty());
    }
    small_exprs();
    relations_are_names();
    reveal(literal_toks);
    atom_of_three("eval"@, var('A'), var('X'), less_one());
    assert(literal_toks(left_operand()) + seq![seq![',']] =~= toks);
}

proof fn right_piece()
    ensures
        cut("eval(C,Y,B-1), "@, literal_toks(right_operand()) + seq![seq![',']]),
        literal_ok(right_operand()),
{
    reveal_strlit("eval(C,Y,B-1), ");
    reveal_strlit("eval");
    let toks = seq!["eval"@, seq!['('], seq!['C'], seq![','], seq!['Y'], seq![','], seq!['B'], seq!['-'], seq!['1'], seq![')'], seq![',']];
    assert forall|done: Seq<Seq<char>>| #[trigger] scan(between(done), "eval(C,Y,B-1), "@) == between(done + toks) by {
        reveal_with_fuel(scan, 17);
        let r = scan(between(done), "eval(C,Y,B-1), "@);
        assert(r.done =~~= done + toks);
        assert(r.word =~= Seq::empty());
    }
    small_exprs();
    relations_are_names();
    reveal(literal_toks);
    atom_of_three("eval"@, var('C'), var('Y'), less_one());
    assert(literal_toks(right_operand()) + seq![seq![',']] =~= toks);
}

proof fn nonzero_piece()
    ensures
        cut("Y != 0, "@, literal_toks(nonzero()) + seq![seq![',']]),
        literal_ok(nonzero()),
{
    reveal_strlit("Y != 0, ");
    let toks = seq![seq!['Y'], seq!['!', '='], seq!['0'], seq![',']];
    assert forall|done: Seq<Seq<char>>| #[trigger] scan(between(done), "Y != 0, "@) == between(done + toks) by {
        reveal_with_fuel(scan, 10);
        let r = scan(between(done), "Y != 0, "@);
        assert(r.done =~~= done + toks);
        assert(r.word =~= Seq::empty());
    }
    small_exprs();
    relations_are_names();
    reveal(literal_toks);
    assert(literal_toks(nonzero()) + seq![seq![',']] =~= toks);
}

proof fn answer_v_piece()
    ensures
        cut("answer(V), "@, literal_toks(Literal::Holds(answer_of(var('V')))) + seq![seq![',']]),
        literal_ok(Literal::Holds(answer_of(var('V')))),
{
    reveal_strlit("answer(V), ");
    reveal_strlit("answer");
    let toks = seq!["answer"@, seq!['('], seq!['V'], seq![')'], seq![',']];
    assert forall|done: Seq<Seq<char>>| #[trigger] scan(between(done), "answer(V), "@) == between(done + toks) by {
        reveal_with_fuel(scan, 13);
        let r = scan(between(done), "answer(V), "@);
        assert(r.done =~~= done + toks);
        assert(r.word =~= Seq::empty());
    }
    small_exprs();
    relations_are_names();
    reveal(literal_toks);
    atom_of_one("answer"@, var('V'));
    assert(literal_toks(Literal::Holds(answer_of(var('V')))) + seq![seq![',']] =~= toks);
}

proof fn answer_p_piece()
    ensures
        cut("answer(P), "@, literal_toks(Literal::Holds(answer_of(var('P')))) + seq![seq![',']]),
        literal_ok(Literal::Holds(answer_of(var('P')))),
{
    reveal_strlit("answer(P), ");
    reveal_strlit("answer");
    let toks = seq!["answer"@, seq!['('], seq!['P'], seq![')'], seq![',']];
    assert forall|done: Seq<Seq<char>>| #[trigger] scan(between(done), "answer(P), "@) == between(done + toks) by {
        reveal_with_fuel(scan, 13);
        let r = scan(between(done), "answer(P), "@);
        assert(r.done =~~= done + toks);
        assert(r.word =~= Seq::empty());
    }
    small_exprs();
    relations_are_names();
    reveal(literal_toks);
    atom_of_one("answer"@, var('P'));
    assert(literal_toks(Literal::Holds(answer_of(var('P')))) + seq![seq![',']] =~= toks);
}

proof fn model_v_end()
    ensures
        cut("model_answer(V). "@, literal_toks(Literal::Holds(model_answer_of(var('V')))) + seq![seq!['.']]),
        literal_ok(Literal::Holds(model_answer_of(var('V')))),
{
    reveal_strlit("model_answer(V). ");
    reveal_strlit("model_answer");
    let toks = seq!["model_answer"@, seq!['('], seq!['V'], seq![')'], seq!['.']];
    assert forall|done: Seq<Seq<char>>| #[trigger] scan(between(done), "model_answer(V). "@) == between(done + toks) by {
        reveal_with_fuel(scan, 19);
        let r = scan(between(done), "model_answer(V). "@);
        assert(r.done =~~= done + toks);
        assert(r.word =~= Seq::empty());
    }
    small_exprs();
    relations_are_names();
    reveal(literal_toks);
    atom_of_one("model_answer"@, var('V'));
    assert(literal_toks(Literal::Holds(model_answer_of(var('V')))) + seq![seq!['.']] =~= toks);
}

proof fn model_m_piece()
    ensures
        cut("model_answer(M), "@, literal_toks(Literal::Holds(model_answer_of(var('M')))) + seq![seq![',']]),
        literal_ok(Literal::Holds(model_answer_of(var('M')))),
{
    reveal_strlit("model_answer(M), ");
    reveal_strlit("model_answer");
    let toks = seq!["model_answer"@, seq!['('], seq!['M'], seq![')'], seq![',']];
    assert forall|done: Seq<Seq<char>>| #[trigger] scan(between(done), "model_answer(M), "@) == between(done + toks) by {
        reveal_with_fuel(scan, 19);
        let r = scan(between(done), "model_answer(M), "@);
        assert(r.done =~~= done + toks);
        assert(r.word =~= Seq::empty());
    }
    small_exprs();
    relations_are_names();
    reveal(literal_toks);
    atom_of_one("model_answer"@, var('M'));
    assert(literal_toks(Literal::Holds(model_answer_of(var('M')))) + seq![seq![',']] =~= toks);
}

proof fn differ_end()
    ensures
        cut("P != M.\n"@, literal_toks(Literal::Compare(seq!['!', '='], var('P'), var('M'))) + seq![seq!['.']]),
        literal_ok(Literal::Compare(seq!['!', '='], var('P'), var('M'))),
{
    reveal_strlit("P != M.\n");
    let toks = seq![seq!['P'], seq!['!', '='], seq!['M'], seq!['.']];
    assert forall|done: Seq<Seq<char>>| #[trigger] scan(between(done), "P != M.\n"@) == between(done + toks) by {
        reveal_with_fuel(scan, 10);
        let r = scan(between(done), "P != M.\n"@);
        assert(r.done =~~= done + toks);
        assert(r.word =~= Seq::empty());
    }
    small_exprs();
    relations_are_names();
    reveal(literal_toks);
    assert(literal_toks(Literal::Compare(seq!['!', '='], var('P'), var('M'))) + seq![seq!['.']] =~= toks);
}

// ---- The lines of the rules.

pub(crate) proof fn budget_line()
    ensures
        spells("budget(B-1) :- budget(B), B > 0.\n"@, seq![Item::Rule(budget_clause())]),
{
    budget_head_piece();
    budget_piece();
    above_zero_end();
    let t2 = "B > 0.\n"@;
    let b2 = seq![above_zero()];
    last_condition(t2, above_zero());
    condition("budget(B), "@, Literal::Holds(budget_of(var('B'))), t2, b2);
    let t1 = "budget(B), "@ + t2;
    let b1 = seq![Literal::Holds(budget_of(var('B')))] + b2;
    rule_is_spelled("budget(B-1) "@, budget_of(less_one()), t1, b1);
    assert(b1 =~= budget_clause().body);
    let line = "budget(B-1) "@ + (":- "@ + t1);
    reveal_strlit("budget(B-1) :- budget(B), B > 0.\n");
    reveal_strlit("budget(B-1) ");
    reveal_strlit(":- ");
    reveal_strlit("budget(B), ");
    reveal_strlit("B > 0.\n");
    assert(line =~= "budget(B-1) :- budget(B), B > 0.\n"@);
}

pub(crate) proof fn cut_line()
    ensures
        spells("eval(N,V,B) :- budget(B), B <= 0, retrieved(N,V).                       // CUT (the semiring core)\n"@, seq![Item::Rule(cut_clause())]),
{
    eval_head_piece();
    budget_piece();
    used_up_piece();
    retrieved_end();
    let t3 = "retrieved(N,V). "@;
    let b3 = seq![Literal::Holds(retrieved_of(var('N'), var('V')))];
    last_condition(t3, Literal::Holds(retrieved_of(var('N'), var('V'))));
    condition("B <= 0, "@, used_up(), t3, b3);
    let t2 = "B <= 0, "@ + t3;
    let b2 = seq![used_up()] + b3;
    condition("budget(B), "@, Literal::Holds(budget_of(var('B'))), t2, b2);
    let t1 = "budget(B), "@ + t2;
    let b1 = seq![Literal::Holds(budget_of(var('B')))] + b2;
    rule_is_spelled("eval(N,V,B) "@, eval_head(), t1, b1);
    assert(b1 =~= cut_clause().body);
    let line = "eval(N,V,B) "@ + (":- "@ + t1);
    reveal_strlit("eval(N,V,B) :- budget(B), B <= 0, retrieved(N,V).                       // CUT (the semiring core)\n");
    reveal_strlit("eval(N,V,B) ");
    reveal_strlit(":- ");
    reveal_strlit("budget(B), ");
    reveal_strlit("B <= 0, ");
    reveal_strlit("retrieved(N,V). ");
    reveal_strlit("                      // CUT (the semiring core)\n");
    let tail = "                      // CUT (the semiring core)\n"@;
    spaced_remark_is_cut(tail, 22);
    spells_behind_blank(tail, line, seq![Item::Rule(cut_clause())]);
    assert(line + tail =~= "eval(N,V,B) :- budget(B), B <= 0, retrieved(N,V).                       // CUT (the semiring core)\n"@);
}

pub(crate) proof fn leaf_line()
    ensures
        spells("eval(N,V,B) :- budget(B), leaf(N,V).\n"@, seq![Item::Rule(leaf_clause())]),
{
    eval_head_piece();
    budget_piece();
    leaf_end();
    let t2 = "leaf(N,V).\n"@;
    let b2 = seq![Literal::Holds(leaf_of(var('N'), var('V')))];
    last_condition(t2, Literal::Holds(leaf_of(var('N'), var('V'))));
    condition("budget(B), "@, Literal::Holds(budget_of(var('B'))), t2, b2);
    let t1 = "budget(B), "@ + t2;
    let b1 = seq![Literal::Holds(budget_of(var('B')))] + b2;
    rule_is_spelled("eval(N,V,B) "@, eval_head(), t1, b1);
    assert(b1 =~= leaf_clause().body);
    let line = "eval(N,V,B) "@ + (":- "@ + t1);
    reveal_strlit("eval(N,V,B) :- budget(B), leaf(N,V).\n");
    reveal_strlit("eval(N,V,B) ");
    reveal_strlit(":- ");
    reveal_strlit("budget(B), ");
    reveal_strlit("leaf(N,V).\n");
    assert(line =~= "eval(N,V,B) :- budget(B), leaf(N,V).\n"@);
}

pub(crate) proof fn plus_line()
    ensures
        spells("eval(N,V,B) :- budget(B), B > 0, node(N,\"+\",A,C), eval(A,X,B-1), eval(C,Y,B-1), V = X + Y.\n"@, seq![Item::Rule(operator_clause('+'))]),
{
    eval_head_piece();
    budget_piece();
    above_zero_piece();
    plus_node_piece();
    left_piece();
    right_piece();
    plus_value_end();
    let t6 = "V = X + Y.\n"@;
    let b6 = seq![computed('+')];
    last_condition(t6, computed('+'));
    condition("eval(C,Y,B-1), "@, right_operand(), t6, b6);
    let t5 = "eval(C,Y,B-1), "@ + t6;
    let b5 = seq![right_operand()] + b6;
    condition("eval(A,X,B-1), "@, left_operand(), t5, b5);
    let t4 = "eval(A,X,B-1), "@ + t5;
    let b4 = seq![left_operand()] + b5;
    condition("node(N,\"+\",A,C), "@, has_operator('+'), t4, b4);
    let t3 = "node(N,\"+\",A,C), "@ + t4;
    let b3 = seq![has_operator('+')] + b4;
    condition("B > 0, "@, above_zero(), t3, b3);
    let t2 = "B > 0, "@ + t3;
    let b2 = seq![above_zero()] + b3;
    condition("budget(B), "@, Literal::Holds(budget_of(var('B'))), t2, b2);
    let t1 = "budget(B), "@ + t2;
    let b1 = seq![Literal::Holds(budget_of(var('B')))] + b2;
    rule_is_spelled("eval(N,V,B) "@, eval_head(), t1, b1);
    assert(b1 =~= operator_clause('+').body);
    let line = "eval(N,V,B) "@ + (":- "@ + t1);
    reveal_strlit("eval(N,V,B) :- budget(B), B > 0, node(N,\"+\",A,C), eval(A,X,B-1), eval(C,Y,B-1), V = X + Y.\n");
    reveal_strlit("eval(N,V,B) ");
    reveal_strlit(":- ");
    reveal_strlit("budget(B), ");
    reveal_strlit("B > 0, ");
    reveal_strlit("node(N,\"+\",A,C), ");
    reveal_strlit("eval(A,X,B-1), ");
    reveal_strlit("eval(C,Y,B-1), ");
    reveal_strlit("V = X + Y.\n");
    assert(line =~= "eval(N,V,B) :- budget(B), B > 0, node(N,\"+\",A,C), eval(A,X,B-1), eval(C,Y,B-1), V = X + Y.\n"@);
}

pub(crate) proof fn minus_line()
    ensures
        spells("eval(N,V,B) :- budget(B), B > 0, node(N,\"-\",A,C), eval(A,X,B-1), eval(C,Y,B-1), V = X - Y.\n"@, seq![Item::Rule(operator_clause('-'))]),
{
    eval_head_piece();
    budget_piece();
    above_zero_piece();
    minus_node_piece();
    left_piece();
    right_piece();
    minus_value_end();
    let t6 = "V = X - Y.\n"@;
    let b6 = seq![computed('-')];
    last_condition(t6, computed('-'));
    condition("eval(C,Y,B-1), "@, right_operand(), t6, b6);
    let t5 = "eval(C,Y,B-1), "@ + t6;
    let b5 = seq![right_operand()] + b6;
    condition("eval(A,X,B-1), "@, left_operand(), t5, b5);
    let t4 = "eval(A,X,B-1), "@ + t5;
    let b4 = seq![left_operand()] + b5;
    condition("node(N,\"-\",A,C), "@, has_operator('-'), t4, b4);
    let t3 = "node(N,\"-\",A,C), "@ + t4;
    let b3 = seq![has_operator('-')] + b4;
    condition("B > 0, "@, above_zero(), t3, b3);
    let t2 = "B > 0, "@ + t3;
    let b2 = seq![above_zero()] + b3;
    condition("budget(B), "@, Literal::Holds(budget_of(var('B'))), t2, b2);
    let t1 = "budget(B), "@ + t2;
    let b1 = seq![Literal::Holds(budget_of(var('B')))] + b2;
    rule_is_spelled("eval(N,V,B) "@, eval_head(), t1, b1);
    assert(b1 =~= operator_clause('-').body);
    let line = "eval(N,V,B) "@ + (":- "@ + t1);
    reveal_strlit("eval(N,V,B) :- budget(B), B > 0, node(N,\"-\",A,C), eval(A,X,B-1), eval(C,Y,B-1), V = X - Y.\n");
    reveal_strlit("eval(N,V,B) ");
    reveal_strlit(":- ");
    reveal_strlit("budget(B), ");
    reveal_strlit("B > 0, ");
    reveal_strlit("node(N,\"-\",A,C), ");
    reveal_strlit("eval(A,X,B-1), ");
    reveal_strlit("eval(C,Y,B-1), ");
    reveal_strlit("V = X - Y.\n");
    assert(line =~= "eval(N,V,B) :- budget(B), B > 0, node(N,\"-\",A,C), eval(A,X,B-1), eval(C,Y,B-1), V = X - Y.\n"@);
}

pub(crate) proof fn times_line()
    ensures
        spells("eval(N,V,B) :- budget(B), B > 0, node(N,\"*\",A,C), eval(A,X,B-1), eval(C,Y,B-1), V = X * Y.\n"@, seq![Item::Rule(operator_clause('*'))]),
{
    eval_head_piece();
    budget_piece();
    above_zero_piece();
    times_node_piece();
    left_piece();
    right_piece();
    times_value_end();
    let t6 = "V = X * Y.\n"@;
    let b6 = seq![computed('*')];
    last_condition(t6, computed('*'));
    condition("eval(C,Y,B-1), "@, right_operand(), t6, b6);
    let t5 = "eval(C,Y,B-1), "@ + t6;
    let b5 = seq![right_operand()] + b6;
    condition("eval(A,X,B-1), "@, left_operand(), t5, b5);
    let t4 = "eval(A,X,B-1), "@ + t5;
    let b4 = seq![left_operand()] + b5;
    condition("node(N,\"*\",A,C), "@, has_operator('*'), t4, b4);
    let t3 = "node(N,\"*\",A,C), "@ + t4;
    let b3 = seq![has_operator('*')] + b4;
    condition("B > 0, "@, above_zero(), t3, b3);
    let t2 = "B > 0, "@ + t3;
    let b2 = seq![above_zero()] + b3;
    condition("budget(B), "@, Literal::Holds(budget_of(var('B'))), t2, b2);
    let t1 = "budget(B), "@ + t2;
    let b1 = seq![Literal::Holds(budget_of(var('B')))] + b2;
    rule_is_spelled("eval(N,V,B) "@, eval_head(), t1, b1);
    assert(b1 =~= operator_clause('*').body);
    let line = "eval(N,V,B) "@ + (":- "@ + t1);
    reveal_strlit("eval(N,V,B) :- budget(B), B > 0, node(N,\"*\",A,C), eval(A,X,B-1), eval(C,Y,B-1), V = X * Y.\n");
    reveal_strlit("eval(N,V,B) ");
    reveal_strlit(":- ");
    reveal_strlit("budget(B), ");
    reveal_strlit("B > 0, ");
    reveal_strlit("node(N,\"*\",A,C), ");
    reveal_strlit("eval(A,X,B-1), ");
    reveal_strlit("eval(C,Y,B-1), ");
    reveal_strlit("V = X * Y.\n");
    assert(line =~= "eval(N,V,B) :- budget(B), B > 0, node(N,\"*\",A,C), eval(A,X,B-1), eval(C,Y,B-1), V = X * Y.\n"@);
}

pub(crate) proof fn over_line()
    ensures
        spells("eval(N,V,B) :- budget(B), B > 0, node(N,\"/\",A,C), eval(A,X,B-1), eval(C,Y,B-1), Y != 0, V = X / Y.\n\n"@, seq![Item::Rule(operator_clause('/'))]),
{
    eval_head_piece();
    budget_piece();
    above_zero_piece();
    over_node_piece();
    left_piece();
    right_piece();
    nonzero_piece();
    over_value_end();
    let t7 = "V = X / Y.\n"@;
    let b7 = seq![computed('/')];
    last_condition(t7, computed('/'));
    condition("Y != 0, "@, nonzero(), t7, b7);
    let t6 = "Y != 0, "@ + t7;
    let b6 = seq![nonzero()] + b7;
    condition("eval(C,Y,B-1), "@, right_operand(), t6, b6);
    let t5 = "eval(C,Y,B-1), "@ + t6;
    let b5 = seq![right_operand()] + b6;
    condition("eval(A,X,B-1), "@, left_operand(), t5, b5);
    let t4 = "eval(A,X,B-1), "@ + t5;
    let b4 = seq![left_operand()] + b5;
    condition("node(N,\"/\",A,C), "@, has_operator('/'), t4, b4);
    let t3 = "node(N,\"/\",A,C), "@ + t4;
    let b3 = seq![has_operator('/')] + b4;
    condition("B > 0, "@, above_zero(), t3, b3);
    let t2 = "B > 0, "@ + t3;
    let b2 = seq![above_zero()] + b3;
    condition("budget(B), "@, Literal::Holds(budget_of(var('B'))), t2, b2);
    let t1 = "budget(B), "@ + t2;
    let b1 = seq![Literal::Holds(budget_of(var('B')))] + b2;
    rule_is_spelled("eval(N,V,B) "@, eval_head(), t1, b1);
    assert(b1 =~= operator_clause('/').body);
    let line = "eval(N,V,B) "@ + (":- "@ + t1);
    reveal_strlit("eval(N,V,B) :- budget(B), B > 0, node(N,\"/\",A,C), eval(A,X,B-1), eval(C,Y,B-1), Y != 0, V = X / Y.\n\n");
    reveal_strlit("eval(N,V,B) ");
    reveal_strlit(":- ");
    reveal_strlit("budget(B), ");
    reveal_strlit("B > 0, ");
    reveal_strlit("node(N,\"/\",A,C), ");
    reveal_strlit("eval(A,X,B-1), ");
    reveal_strlit("eval(C,Y,B-1), ");
    reveal_strlit("Y != 0, ");
    reveal_strlit("V = X / Y.\n");
    reveal_strlit("\n");
    let tail = "\n"@;
    spaces_are_cut(tail);
    spells_behind_blank(tail, line, seq![Item::Rule(operator_clause('/'))]);
    assert(line + tail =~= "eval(N,V,B) :- budget(B), B > 0, node(N,\"/\",A,C), eval(A,X,B-1), eval(C,Y,B-1), Y != 0, V = X / Y.\n\n"@);
}

pub(crate) proof fn reproduces_line()
    ensures
        spells("reproduces(V)  :- answer(V), model_answer(V).             // FAITHFUL: symbolic == model ✓\n"@, seq![Item::Rule(reproduces_clause())]),
{
    reproduces_head_piece();
    answer_v_piece();
    model_v_end();
    let t2 = "model_answer(V). "@;
    let b2 = seq![Literal::Holds(model_answer_of(var('V')))];
    last_condition(t2, Literal::Holds(model_answer_of(var('V'))));
    condition("answer(V), "@, Literal::Holds(answer_of(var('V'))), t2, b2);
    let t1 = "answer(V), "@ + t2;
    let b1 = seq![Literal::Holds(answer_of(var('V')))] + b2;
    rule_is_spelled("reproduces(V)  "@, reproduces_of(var('V')), t1, b1);
    assert(b1 =~= reproduces_clause().body);
    let line = "reproduces(V)  "@ + (":- "@ + t1);
    reveal_strlit("reproduces(V)  :- answer(V), model_answer(V).             // FAITHFUL: symbolic == model ✓\n");
    reveal_strlit("reproduces(V)  ");
    reveal_strlit(":- ");
    reveal_strlit("answer(V), ");
    reveal_strlit("model_answer(V). ");
    reveal_strlit("            // FAITHFUL: symbolic == model ✓\n");
    let tail = "            // FAITHFUL: symbolic == model ✓\n"@;
    spaced_remark_is_cut(tail, 12);
    spells_behind_blank(tail, line, seq![Item::Rule(reproduces_clause())]);
    assert(line + tail =~= "reproduces(V)  :- answer(V), model_answer(V).             // FAITHFUL: symbolic == model ✓\n"@);
}

pub(crate) proof fn diverges_line()
    ensures
        spells("diverges(P,M)  :- answer(P), model_answer(M), P != M.\n\n"@, seq![Item::Rule(diverges_clause())]),
{
    diverges_head_piece();
    answer_p_piece();
    model_m_piece();
    differ_end();
    let t3 = "P != M.\n"@;
    let b3 = seq![Literal::Compare(seq!['!', '='], var('P'), var('M'))];
    last_condition(t3, Literal::Compare(seq!['!', '='], var('P'), var('M')));
    condition("model_answer(M), "@, Literal::Holds(model_answer_of(var('M'))), t3, b3);
    let t2 = "model_answer(M), "@ + t3;
    let b2 = seq![Literal::Holds(model_answer_of(var('M')))] + b3;
    condition("answer(P), "@, Literal::Holds(answer_of(var('P'))), t2, b2);
    let t1 = "answer(P), "@ + t2;
    let b1 = seq![Literal::Holds(answer_of(var('P')))] + b2;
    rule_is_spelled("diverges(P,M)  "@, diverges_of(var('P'), var('M')), t1, b1);
    assert(b1 =~= diverges_clause().body);
    let line = "diverges(P,M)  "@ + (":- "@ + t1);
    reveal_strlit("diverges(P,M)  :- answer(P), model_answer(M), P != M.\n\n");
    reveal_strlit("diverges(P,M)  ");
    reveal_strlit(":- ");
    reveal_strlit("answer(P), ");
    reveal_strlit("model_answer(M), ");
    reveal_strlit("P != M.\n");
    reveal_strlit("\n");
    let tail = "\n"@;
    spaces_are_cut(tail);
    spells_behind_blank(tail, line, seq![Item::Rule(diverges_clause())]);
    assert(line + tail =~= "diverges(P,M)  :- answer(P), model_answer(M), P != M.\n\n"@);
}

// ---- The declarations and the outputs.

proof fn columns_go_on(name: Seq<char>, kind: Seq<char>, cols: Seq<(Seq<char>, Seq<char>)>)
    requires
        cols.len() > 0,
    ensures
        columns_toks(seq![(name, kind)] + cols) == seq![name, seq![':'], kind, seq![',']] + columns_toks(cols),
{
    assert((seq![(name, kind)] + cols).skip(1) =~= cols);
    reveal(columns_toks);
}

proof fn column_is_cut(text: Seq<char>, name: Seq<char>, kind: Seq<char>, rest: Seq<char>, cols: Seq<(Seq<char>, Seq<char>)>)
    requires
        cut(text, seq![name, seq![':'], kind, seq![',']]),
        cols.len() > 0,
        cut(rest, columns_toks(cols)),
    ensures
        cut(text + rest, columns_toks(seq![(name, kind)] + cols)),
{
    columns_go_on(name, kind, cols);
    cut_both(text, seq![name, seq![':'], kind, seq![',']], rest, columns_toks(cols));
}

proof fn last_column_is_cut(text: Seq<char>, name: Seq<char>, kind: Seq<char>)
    requires
        cut(text, seq![name, seq![':'], kind, seq![')']]),
    ensures
        cut(text, columns_toks(seq![(name, kind)])),
{
    reveal(columns_toks);
}

proof fn declaration_is_spelled(
    text: Seq<char>,
    name: Seq<char>,
    cols: Seq<(Seq<char>, Seq<char>)>,
    types: Seq<Seq<char>>,
)
    requires
        is_name(name),
        cut(text, seq![seq!['.'], "decl"@, name, seq!['(']] + columns_toks(cols)),
        cols.len() > 0,
        forall|i: int| 0 <= i < cols.len() ==> is_name((#[trigger] cols[i]).0) && is_name(cols[i].1),
        types.len() == cols.len(),
        forall|i: int| 0 <= i < cols.len() ==> #[trigger] types[i] == cols[i].1,
    ensures
        spells(text, seq![Item::Decl(name, types)]),
{
    let first = seq![seq!['.'], "decl"@, name, seq!['(']];
    let toks = first + columns_toks(cols);
    assert forall|more: Seq<Seq<char>>| read_item(#[trigger] (toks + more)) == Some((Item::Decl(name, types), more)) by {
        let all = toks + more;
        columns_are_read(cols, more);
        assert(all.skip(4) =~= columns_toks(cols) + more);
        assert(cols.map_values(|t: (Seq<char>, Seq<char>)| t.1) =~= types);
        assert(all[0] == seq!['.'] && all[1] == "decl"@ && all[2] == name && all[3] == seq!['(']);
        reveal(read_item);
    }
    written_one(toks, Item::Decl(name, types));
}

proof fn output_is_spelled(text: Seq<char>, name: Seq<char>)
    requires
        is_name(name),
        cut(text, seq![seq!['.'], "output"@, name]),
    ensures
        spells(text, seq![Item::Output(name)]),
{
    let toks = seq![seq!['.'], "output"@, name];
    reveal_strlit("decl");
    reveal_strlit("output");
    assert("decl"@.len() != "output"@.len());
    assert forall|more: Seq<Seq<char>>| read_item(#[trigger] (toks + more)) == Some((Item::Output(name), more)) by {
        let all = toks + more;
        assert(all.skip(3) =~= more);
        assert(all[0] == seq!['.'] && all[1] == "output"@ && all[2] == name);
        reveal(read_item);
    }
    written_one(toks, Item::Output(name));
}

proof fn leaf_declared()
    ensures
        cut(".decl leaf(n:symbol, "@, seq![seq!['.'], "decl"@, "leaf"@, seq!['('], "n"@, seq![':'], "symbol"@, seq![',']]),
{
    reveal_strlit(".decl leaf(n:symbol, ");
    reveal_strlit("decl");
    reveal_strlit("leaf");
    reveal_strlit("n");
    reveal_strlit("symbol");
    let toks = seq![seq!['.'], "decl"@, "leaf"@, seq!['('], "n"@, seq![':'], "symbol"@, seq![',']];
    assert forall|done: Seq<Seq<char>>| #[trigger] scan(between(done), ".decl leaf(n:symbol, "@) == between(done + toks) by {
        reveal_with_fuel(scan, 23);
        let r = scan(between(done), ".decl leaf(n:symbol, "@);
        assert(r.done =~~= done + toks);
        assert(r.word =~= Seq::empty());
    }
}

proof fn v_number_column_end()
    ensures
        cut("v:number)\n"@, seq!["v"@, seq![':'], "number"@, seq![')']]),
{
    reveal_strlit("v:number)\n");
    reveal_strlit("number");
    reveal_strlit("v");
    let toks = seq!["v"@, seq![':'], "number"@, seq![')']];
    assert forall|done: Seq<Seq<char>>| #[trigger] scan(between(done), "v:number)\n"@) == between(done + toks) by {
        reveal_with_fuel(scan, 12);
        let r = scan(between(done), "v:number)\n"@);
        assert(r.done =~~= done + toks);
        assert(r.word =~= Seq::empty());
    }
}

proof fn node_declared()
    ensures
        cut(".decl node(n:symbol, "@, seq![seq!['.'], "decl"@, "node"@, seq!['('], "n"@, seq![':'], "symbol"@, seq![',']]),
{
    reveal_strlit(".decl node(n:symbol, ");
    reveal_strlit("decl");
    reveal_strlit("n");
    reveal_strlit("node");
    reveal_strlit("symbol");
    let toks = seq![seq!['.'], "decl"@, "node"@, seq!['('], "n"@, seq![':'], "symbol"@, seq![',']];
    assert forall|done: Seq<Seq<char>>| #[trigger] scan(between(done), ".decl node(n:symbol, "@) == between(done + toks) by {
        reveal_with_fuel(scan, 23);
        let r = scan(between(done), ".decl node(n:symbol, "@);
        assert(r.done =~~= done + toks);
        assert(r.word =~= Seq::empty());
    }
}

proof fn op_symbol_column()
    ensures
        cut("op:symbol, "@, seq!["op"@, seq![':'], "symbol"@, seq![',']]),
{
    reveal_strlit("op:symbol, ");
    reveal_strlit("op");
    reveal_strlit("symbol");
    let toks = seq!["op"@, seq![':'], "symbol"@, seq![',']];
    assert forall|done: Seq<Seq<char>>| #[trigger] scan(between(done), "op:symbol, "@) == between(done + toks) by {
        reveal_with_fuel(scan, 13);
        let r = scan(between(done), "op:symbol, "@);
        assert(r.done =~~= done + toks);
        assert(r.word =~= Seq::empty());
    }
}

proof fn a_symbol_column()
    ensures
        cut("a:symbol, "@, seq!["a"@, seq![':'], "symbol"@, seq![',']]),
{
    reveal_strlit("a:symbol, ");
    reveal_strlit("a");
    reveal_strlit("symbol");
    let toks = seq!["a"@, seq![':'], "symbol"@, seq![',']];
    assert forall|done: Seq<Seq<char>>| #[trigger] scan(between(done), "a:symbol, "@) == between(done + toks) by {
        reveal_with_fuel(scan, 12);
        let r = scan(between(done), "a:symbol, "@);
        assert(r.done =~~= done + toks);
        assert(r.word =~= Seq::empty());
    }
}

proof fn b_symbol_column_end()
    ensures
        cut("b:symbol)\n"@, seq!["b"@, seq![':'], "symbol"@, seq![')']]),
{
    reveal_strlit("b:symbol)\n");
    reveal_strlit("b");
    reveal_strlit("symbol");
    let toks = seq!["b"@, seq![':'], "symbol"@, seq![')']];
    assert forall|done: Seq<Seq<char>>| #[trigger] scan(between(done), "b:symbol)\n"@) == between(done + toks) by {
        reveal_with_fuel(scan, 12);
        let r = scan(between(done), "b:symbol)\n"@);
        assert(r.done =~~= done + toks);
        assert(r.word =~= Seq::empty());
    }
}

proof fn retrieved_declared()
    ensures
        cut(".decl retrieved(n:symbol, "@, seq![seq!['.'], "decl"@, "retrieved"@, seq!['('], "n"@, seq![':'], "symbol"@, seq![',']]),
{
    reveal_strlit(".decl retrieved(n:symbol, ");
    reveal_strlit("decl");
    reveal_strlit("n");
    reveal_strlit("retrieved");
    reveal_strlit("symbol");
    let toks = seq![seq!['.'], "decl"@, "retrieved"@, seq!['('], "n"@, seq![':'], "symbol"@, seq![',']];
    assert forall|done: Seq<Seq<char>>| #[trigger] scan(between(done), ".decl retrieved(n:symbol, "@) == between(done + toks) by {
        reveal_with_fuel(scan, 28);
        let r = scan(between(done), ".decl retrieved(n:symbol, "@);
        assert(r.done =~~= done + toks);
        assert(r.word =~= Seq::empty());
    }
}

proof fn budget_declared()
    ensures
        cut(".decl budget(b:number)\n"@, seq![seq!['.'], "decl"@, "budget"@, seq!['('], "b"@, seq![':'], "number"@, seq![')']]),
{
    reveal_strlit(".decl budget(b:number)\n");
    reveal_strlit("b");
    reveal_strlit("budget");
    reveal_strlit("decl");
    reveal_strlit("number");
    let toks = seq![seq!['.'], "decl"@, "budget"@, seq!['('], "b"@, seq![':'], "number"@, seq![')']];
    assert forall|done: Seq<Seq<char>>| #[trigger] scan(between(done), ".decl budget(b:number)\n"@) == between(done + toks) by {
        reveal_with_fuel(scan, 25);
        let r = scan(between(done), ".decl budget(b:number)\n"@);
        assert(r.done =~~= done + toks);
        assert(r.word =~= Seq::empty());
    }
}

proof fn eval_declared()
    ensures
        cut(".decl eval(n:symbol, "@, seq![seq!['.'], "decl"@, "eval"@, seq!['('], "n"@, seq![':'], "symbol"@, seq![',']]),
{
    reveal_strlit(".decl eval(n:symbol, ");
    reveal_strlit("decl");
    reveal_strlit("eval");
    reveal_strlit("n");
    reveal_strlit("symbol");
    let toks = seq![seq!['.'], "decl"@, "eval"@, seq!['('], "n"@, seq![':'], "symbol"@, seq![',']];
    assert forall|done: Seq<Seq<char>>| #[trigger] scan(between(done), ".decl eval(n:symbol, "@) == between(done + toks) by {
        reveal_with_fuel(scan, 23);
        let r = scan(between(done), ".decl eval(n:symbol, "@);
        assert(r.done =~~= done + toks);
        assert(r.word =~= Seq::empty());
    }
}

proof fn v_number_column()
    ensures
        cut("v:number, "@, seq!["v"@, seq![':'], "number"@, seq![',']]),
{
    reveal_strlit("v:number, ");
    reveal_strlit("number");
    reveal_strlit("v");
    let toks = seq!["v"@, seq![':'], "number"@, seq![',']];
    assert forall|done: Seq<Seq<char>>| #[trigger] scan(between(done), "v:number, "@) == between(done + toks) by {
        reveal_with_fuel(scan, 12);
        let r = scan(between(done), "v:number, "@);
        assert(r.done =~~= done + toks);
        assert(r.word =~= Seq::empty());
    }
}

proof fn b_number_column_end()
    ensures
        cut("b:number)\n"@, seq!["b"@, seq![':'], "number"@, seq![')']]),
{
    reveal_strlit("b:number)\n");
    reveal_strlit("b");
    reveal_strlit("number");
    let toks = seq!["b"@, seq![':'], "number"@, seq![')']];
    assert forall|done: Seq<Seq<char>>| #[trigger] scan(between(done), "b:number)\n"@) == between(done + toks) by {
        reveal_with_fuel(scan, 12);
        let r = scan(between(done), "b:number)\n"@);
        assert(r.done =~~= done + toks);
        assert(r.word =~= Seq::empty());
    }
}

proof fn answer_declared()
    ensures
        cut(".decl answer(v:number)\n"@, seq![seq!['.'], "decl"@, "answer"@, seq!['('], "v"@, seq![':'], "number"@, seq![')']]),
{
    reveal_strlit(".decl answer(v:number)\n");
    reveal_strlit("answer");
    reveal_strlit("decl");
    reveal_strlit("number");
    reveal_strlit("v");
    let toks = seq![seq!['.'], "decl"@, "answer"@, seq!['('], "v"@, seq![':'], "number"@, seq![')']];
    assert forall|done: Seq<Seq<char>>| #[trigger] scan(between(done), ".decl answer(v:number)\n"@) == between(done + toks) by {
        reveal_with_fuel(scan, 25);
        let r = scan(between(done), ".decl answer(v:number)\n"@);
        assert(r.done =~~= done + toks);
        assert(r.word =~= Seq::empty());
    }
}

proof fn model_answer_declared()
    ensures
        cut(".decl model_answer(v:number)\n"@, seq![seq!['.'], "decl"@, "model_answer"@, seq!['('], "v"@, seq![':'], "number"@, seq![')']]),
{
    reveal_strlit(".decl model_answer(v:number)\n");
    reveal_strlit("decl");
    reveal_strlit("model_answer");
    reveal_strlit("number");
    reveal_strlit("v");
    let toks = seq![seq!['.'], "decl"@, "model_answer"@, seq!['('], "v"@, seq![':'], "number"@, seq![')']];
    assert forall|done: Seq<Seq<char>>| #[trigger] scan(between(done), ".decl model_answer(v:number)\n"@) == between(done + toks) by {
        reveal_with_fuel(scan, 31);
        let r = scan(between(done), ".decl model_answer(v:number)\n"@);
        assert(r.done =~~= done + toks);
        assert(r.word =~= Seq::empty());
    }
}

proof fn reproduces_declared()
    ensures
        cut(".decl reproduces(v:number)\n"@, seq![seq!['.'], "decl"@, "reproduces"@, seq!['('], "v"@, seq![':'], "number"@, seq![')']]),
{
    reveal_strlit(".decl reproduces(v:number)\n");
    reveal_strlit("decl");
    reveal_strlit("number");
    reveal_strlit("reproduces");
    reveal_strlit("v");
    let toks = seq![seq!['.'], "decl"@, "reproduces"@, seq!['('], "v"@, seq![':'], "number"@, seq![')']];
    assert forall|done: Seq<Seq<char>>| #[trigger] scan(between(done), ".decl reproduces(v:number)\n"@) == between(done + toks) by {
        reveal_with_fuel(scan, 29);
        let r = scan(between(done), ".decl reproduces(v:number)\n"@);
        assert(r.done =~~= done + toks);
        assert(r.word =~= Seq::empty());
    }
}

proof fn diverges_declared()
    ensures
        cut(".decl diverges(prog:number, "@, seq![seq!['.'], "decl"@, "diverges"@, seq!['('], "prog"@, seq![':'], "number"@, seq![',']]),
{
    reveal_strlit(".decl diverges(prog:number, ");
    reveal_strlit("decl");
    reveal_strlit("diverges");
    reveal_strlit("number");
    reveal_strlit("prog");
    let toks = seq![seq!['.'], "decl"@, "diverges"@, seq!['('], "prog"@, seq![':'], "number"@, seq![',']];
    assert forall|done: Seq<Seq<char>>| #[trigger] scan(between(done), ".decl diverges(prog:number, "@) == between(done + toks) by {
        reveal_with_fuel(scan, 30);
        let r = scan(between(done), ".decl diverges(prog:number, "@);
        assert(r.done =~~= done + toks);
        assert(r.word =~= Seq::empty());
    }
}

proof fn model_number_column_end()
    ensures
        cut("model:number)\n"@, seq!["model"@, seq![':'], "number"@, seq![')']]),
{
    reveal_strlit("model:number)\n");
    reveal_strlit("model");
    reveal_strlit("number");
    let toks = seq!["model"@, seq![':'], "number"@, seq![')']];
    assert forall|done: Seq<Seq<char>>| #[trigger] scan(between(done), "model:number)\n"@) == between(done + toks) by {
        reveal_with_fuel(scan, 16);
        let r = scan(between(done), "model:number)\n"@);
        assert(r.done =~~= done + toks);
        assert(r.word =~= Seq::empty());
    }
}

proof fn kinds_are_names()
    ensures
        is_name("symbol"@),
        is_name("number"@),
        is_name("n"@),
        is_name("v"@),
        is_name("op"@),
        is_name("a"@),
        is_name("b"@),
        is_name("prog"@),
        is_name("model"@),
{
    reveal_strlit("symbol");
    reveal_strlit("number");
    reveal_strlit("n");
    reveal_strlit("v");
    reveal_strlit("op");
    reveal_strlit("a");
    reveal_strlit("b");
    reveal_strlit("prog");
    reveal_strlit("model");
}

proof fn leaf_declaration()
    ensures
        spells(".decl leaf(n:symbol, v:number)\n"@, seq![Item::Decl("leaf"@, seq!["symbol"@, "number"@])]),
{
    relations_are_names();
    kinds_are_names();
    leaf_declared();
    v_number_column_end();
    let t2 = "v:number)\n"@;
    let c2 = seq![("v"@, "number"@)];
    last_column_is_cut(t2, "v"@, "number"@);
    let cols = seq![("n"@, "symbol"@)] + c2;
    let start = seq![seq!['.'], "decl"@, "leaf"@, seq!['('], "n"@, seq![':'], "symbol"@, seq![',']];
    columns_go_on("n"@, "symbol"@, c2);
    cut_both(".decl leaf(n:symbol, "@, start, t2, columns_toks(c2));
    assert(seq![seq!['.'], "decl"@, "leaf"@, seq!['(']] + columns_toks(cols) =~= start + columns_toks(c2));
    reveal_strlit(".decl leaf(n:symbol, v:number)\n");
    reveal_strlit(".decl leaf(n:symbol, ");
    reveal_strlit("v:number)\n");
    assert(".decl leaf(n:symbol, "@ + t2 =~= ".decl leaf(n:symbol, v:number)\n"@);
    declaration_is_spelled(".decl leaf(n:symbol, v:number)\n"@, "leaf"@, cols, seq!["symbol"@, "number"@]);
}

proof fn node_declaration()
    ensures
        spells(".decl node(n:symbol, op:symbol, a:symbol, b:symbol)\n"@, seq![Item::Decl("node"@, seq!["symbol"@, "symbol"@, "symbol"@, "symbol"@])]),
{
    relations_are_names();
    kinds_are_names();
    node_declared();
    op_symbol_column();
    a_symbol_column();
    b_symbol_column_end();
    let t4 = "b:symbol)\n"@;
    let c4 = seq![("b"@, "symbol"@)];
    last_column_is_cut(t4, "b"@, "symbol"@);
    column_is_cut("a:symbol, "@, "a"@, "symbol"@, t4, c4);
    let t3 = "a:symbol, "@ + t4;
    let c3 = seq![("a"@, "symbol"@)] + c4;
    column_is_cut("op:symbol, "@, "op"@, "symbol"@, t3, c3);
    let t2 = "op:symbol, "@ + t3;
    let c2 = seq![("op"@, "symbol"@)] + c3;
    let cols = seq![("n"@, "symbol"@)] + c2;
    let start = seq![seq!['.'], "decl"@, "node"@, seq!['('], "n"@, seq![':'], "symbol"@, seq![',']];
    columns_go_on("n"@, "symbol"@, c2);
    cut_both(".decl node(n:symbol, "@, start, t2, columns_toks(c2));
    assert(seq![seq!['.'], "decl"@, "node"@, seq!['(']] + columns_toks(cols) =~= start + columns_toks(c2));
    reveal_strlit(".decl node(n:symbol, op:symbol, a:symbol, b:symbol)\n");
    reveal_strlit(".decl node(n:symbol, ");
    reveal_strlit("op:symbol, ");
    reveal_strlit("a:symbol, ");
    reveal_strlit("b:symbol)\n");
    assert(".decl node(n:symbol, "@ + t2 =~= ".decl node(n:symbol, op:symbol, a:symbol, b:symbol)\n"@);
    declaration_is_spelled(".decl node(n:symbol, op:symbol, a:symbol, b:symbol)\n"@, "node"@, cols, seq!["symbol"@, "symbol"@, "symbol"@, "symbol"@]);
}

proof fn retrieved_declaration()
    ensures
        spells(".decl retrieved(n:symbol, v:number)\n"@, seq![Item::Decl("retrieved"@, seq!["symbol"@, "number"@])]),
{
    relations_are_names();
    kinds_are_names();
    retrieved_declared();
    v_number_column_end();
    let t2 = "v:number)\n"@;
    let c2 = seq![("v"@, "number"@)];
    last_column_is_cut(t2, "v"@, "number"@);
    let cols = seq![("n"@, "symbol"@)] + c2;
    let start = seq![seq!['.'], "decl"@, "retrieved"@, seq!['('], "n"@, seq![':'], "symbol"@, seq![',']];
    columns_go_on("n"@, "symbol"@, c2);
    cut_both(".decl retrieved(n:symbol, "@, start, t2, columns_toks(c2));
    assert(seq![seq!['.'], "decl"@, "retrieved"@, seq!['(']] + columns_toks(cols) =~= start + columns_toks(c2));
    reveal_strlit(".decl retrieved(n:symbol, v:number)\n");
    reveal_strlit(".decl retrieved(n:symbol, ");
    reveal_strlit("v:number)\n");
    assert(".decl retrieved(n:symbol, "@ + t2 =~= ".decl retrieved(n:symbol, v:number)\n"@);
    declaration_is_spelled(".decl retrieved(n:symbol, v:number)\n"@, "retrieved"@, cols, seq!["symbol"@, "number"@]);
}

proof fn budget_declaration()
    ensures
        spells(".decl budget(b:number)\n"@, seq![Item::Decl("budget"@, seq!["number"@])]),
{
    relations_are_names();
    kinds_are_names();
    budget_declared();
    let cols = seq![("b"@, "number"@)];
    assert(columns_toks(cols) == seq!["b"@, seq![':'], "number"@, seq![')']]) by {
        reveal(columns_toks);
    }
    assert(seq![seq!['.'], "decl"@, "budget"@, seq!['(']] + columns_toks(cols) =~= seq![seq!['.'], "decl"@, "budget"@, seq!['('], "b"@, seq![':'], "number"@, seq![')']]);
    declaration_is_spelled(".decl budget(b:number)\n"@, "budget"@, cols, seq!["number"@]);
}

proof fn eval_declaration()
    ensures
        spells(".decl eval(n:symbol, v:number, b:number)\n"@, seq![Item::Decl("eval"@, seq!["symbol"@, "number"@, "number"@])]),
{
    relations_are_names();
    kinds_are_names();
    eval_declared();
    v_number_column();
    b_number_column_end();
    let t3 = "b:number)\n"@;
    let c3 = seq![("b"@, "number"@)];
    last_column_is_cut(t3, "b"@, "number"@);
    column_is_cut("v:number, "@, "v"@, "number"@, t3, c3);
    let t2 = "v:number, "@ + t3;
    let c2 = seq![("v"@, "number"@)] + c3;
    let cols = seq![("n"@, "symbol"@)] + c2;
    let start = seq![seq!['.'], "decl"@, "eval"@, seq!['('], "n"@, seq![':'], "symbol"@, seq![',']];
    columns_go_on("n"@, "symbol"@, c2);
    cut_both(".decl eval(n:symbol, "@, start, t2, columns_toks(c2));
    assert(seq![seq!['.'], "decl"@, "eval"@, seq!['(']] + columns_toks(cols) =~= start + columns_toks(c2));
    reveal_strlit(".decl eval(n:symbol, v:number, b:number)\n");
    reveal_strlit(".decl eval(n:symbol, ");
    reveal_strlit("v:number, ");
    reveal_strlit("b:number)\n");
    assert(".decl eval(n:symbol, "@ + t2 =~= ".decl eval(n:symbol, v:number, b:number)\n"@);
    declaration_is_spelled(".decl eval(n:symbol, v:number, b:number)\n"@, "eval"@, cols, seq!["symbol"@, "number"@, "number"@]);
}

proof fn answer_declaration()
    ensures
        spells(".decl answer(v:number)\n"@, seq![Item::Decl("answer"@, seq!["number"@])]),
{
    relations_are_names();
    kinds_are_names();
    answer_declared();
    let cols = seq![("v"@, "number"@)];
    assert(columns_toks(cols) == seq!["v"@, seq![':'], "number"@, seq![')']]) by {
        reveal(columns_toks);
    }
    assert(seq![seq!['.'], "decl"@, "answer"@, seq!['(']] + columns_toks(cols) =~= seq![seq!['.'], "decl"@, "answer"@, seq!['('], "v"@, seq![':'], "number"@, seq![')']]);
    declaration_is_spelled(".decl answer(v:number)\n"@, "answer"@, cols, seq!["number"@]);
}

proof fn model_answer_declaration()
    ensures
        spells(".decl model_answer(v:number)\n"@, seq![Item::Decl("model_answer"@, seq!["number"@])]),
{
    relations_are_names();
    kinds_are_names();
    model_answer_declared();
    let cols = seq![("v"@, "number"@)];
    assert(columns_toks(cols) == seq!["v"@, seq![':'], "number"@, seq![')']]) by {
        reveal(columns_toks);
    }
    assert(seq![seq!['.'], "decl"@, "model_answer"@, seq!['(']] + columns_toks(cols) =~= seq![seq!['.'], "decl"@, "model_answer"@, seq!['('], "v"@, seq![':'], "number"@, seq![')']]);
    declaration_is_spelled(".decl model_answer(v:number)\n"@, "model_answer"@, cols, seq!["number"@]);
}

proof fn reproduces_declaration()
    ensures
        spells(".decl reproduces(v:number)\n"@, seq![Item::Decl("reproduces"@, seq!["number"@])]),
{
    relations_are_names();
    kinds_are_names();
    reproduces_declared();
    let cols = seq![("v"@, "number"@)];
    assert(columns_toks(cols) == seq!["v"@, seq![':'], "number"@, seq![')']]) by {
        reveal(columns_toks);
    }
    assert(seq![seq!['.'], "decl"@, "reproduces"@, seq!['(']] + columns_toks(cols) =~= seq![seq!['.'], "decl"@, "reproduces"@, seq!['('], "v"@, seq![':'], "number"@, seq![')']]);
    declaration_is_spelled(".decl reproduces(v:number)\n"@, "reproduces"@, cols, seq!["number"@]);
}

proof fn diverges_declaration()
    ensures
        spells(".decl diverges(prog:number, model:number)\n"@, seq![Item::Decl("diverges"@, seq!["number"@, "number"@])]),
{
    relations_are_names();
    kinds_are_names();
    diverges_declared();
    model_number_column_end();
    let t2 = "model:number)\n"@;
    let c2 = seq![("model"@, "number"@)];
    last_column_is_cut(t2, "model"@, "number"@);
    let cols = seq![("prog"@, "number"@)] + c2;
    let start = seq![seq!['.'], "decl"@, "diverges"@, seq!['('], "prog"@, seq![':'], "number"@, seq![',']];
    columns_go_on("prog"@, "number"@, c2);
    cut_both(".decl diverges(prog:number, "@, start, t2, columns_toks(c2));
    assert(seq![seq!['.'], "decl"@, "diverges"@, seq!['(']] + columns_toks(cols) =~= start + columns_toks(c2));
    reveal_strlit(".decl diverges(prog:number, model:number)\n");
    reveal_strlit(".decl diverges(prog:number, ");
    reveal_strlit("model:number)\n");
    assert(".decl diverges(prog:number, "@ + t2 =~= ".decl diverges(prog:number, model:number)\n"@);
    declaration_is_spelled(".decl diverges(prog:number, model:number)\n"@, "diverges"@, cols, seq!["number"@, "number"@]);
}

proof fn answer_put_out()
    ensures
        cut(".output answer\n"@, seq![seq!['.'], "output"@, "answer"@]),
{
    reveal_strlit(".output answer\n");
    reveal_strlit("answer");
    reveal_strlit("output");
    let toks = seq![seq!['.'], "output"@, "answer"@];
    assert forall|done: Seq<Seq<char>>| #[trigger] scan(between(done), ".output answer\n"@) == between(done + toks) by {
        reveal_with_fuel(scan, 17);
        let r = scan(between(done), ".output answer\n"@);
        assert(r.done =~~= done + toks);
        assert(r.word =~= Seq::empty());
    }
}

proof fn reproduces_put_out()
    ensures
        cut(".output reproduces\n"@, seq![seq!['.'], "output"@, "reproduces"@]),
{
    reveal_strlit(".output reproduces\n");
    reveal_strlit("output");
    reveal_strlit("reproduces");
    let toks = seq![seq!['.'], "output"@, "reproduces"@];
    assert forall|done: Seq<Seq<char>>| #[trigger] scan(between(done), ".output reproduces\n"@) == between(done + toks) by {
        reveal_with_fuel(scan, 21);
        let r = scan(between(done), ".output reproduces\n"@);
        assert(r.done =~~= done + toks);
        assert(r.word =~= Seq::empty());
    }
}

proof fn diverges_put_out()
    ensures
        cut(".output diverges\n"@, seq![seq!['.'], "output"@, "diverges"@]),
{
    reveal_strlit(".output diverges\n");
    reveal_strlit("diverges");
    reveal_strlit("output");
    let toks = seq![seq!['.'], "output"@, "diverges"@];
    assert forall|done: Seq<Seq<char>>| #[trigger] scan(between(done), ".output diverges\n"@) == between(done + toks) by {
        reveal_with_fuel(scan, 19);
        let r = scan(between(done), ".output diverges\n"@);
        assert(r.done =~~= done + toks);
        assert(r.word =~= Seq::empty());
    }
}

pub(crate) proof fn outputs_are_spelled()
    ensures
        spells(
            ".output answer\n.output reproduces\n.output diverges\n"@,
            seq![Item::Output("answer"@), Item::Output("reproduces"@), Item::Output("diverges"@)],
        ),
{
    relations_are_names();
    answer_put_out();
    reproduces_put_out();
    diverges_put_out();
    let a = ".output answer\n"@;
    let b = ".output reproduces\n"@;
    let c = ".output diverges\n"@;
    let x = seq![Item::Output("answer"@)];
    let y = seq![Item::Output("reproduces"@)];
    let z = seq![Item::Output("diverges"@)];
    output_is_spelled(a, "answer"@);
    output_is_spelled(b, "reproduces"@);
    output_is_spelled(c, "diverges"@);
    spells_both(a, x, b, y);
    spells_both(a + b, x + y, c, z);
    reveal_strlit(".output answer\n");
    reveal_strlit(".output reproduces\n");
    reveal_strlit(".output diverges\n");
    reveal_strlit(".output answer\n.output reproduces\n.output diverges\n");
    assert(a + b + c =~= ".output answer\n.output reproduces\n.output diverges\n"@);
    assert(x + y + z =~= seq![Item::Output("answer"@), Item::Output("reproduces"@), Item::Output("diverges"@)]);
}

pub(crate) proof fn first_declarations()
    ensures
        spells(
            ".decl leaf(n:symbol, v:number)\n.decl node(n:symbol, op:symbol, a:symbol, b:symbol)\n"@,
            seq![Item::Decl("leaf"@, seq!["symbol"@, "number"@]), Item::Decl("node"@, seq!["symbol"@, "symbol"@, "symbol"@, "symbol"@])],
        ),
{
    leaf_declaration();
    node_declaration();
    let a = ".decl leaf(n:symbol, v:number)\n"@;
    let x = seq![Item::Decl("leaf"@, seq!["symbol"@, "number"@])];
    let b = ".decl node(n:symbol, op:symbol, a:symbol, b:symbol)\n"@;
    let y = seq![Item::Decl("node"@, seq!["symbol"@, "symbol"@, "symbol"@, "symbol"@])];
    spells_both(a, x, b, y);
    reveal_strlit(".decl leaf(n:symbol, v:number)\n");
    reveal_strlit(".decl node(n:symbol, op:symbol, a:symbol, b:symbol)\n");
    reveal_strlit(".decl leaf(n:symbol, v:number)\n.decl node(n:symbol, op:symbol, a:symbol, b:symbol)\n");
    assert(a + b =~= ".decl leaf(n:symbol, v:number)\n.decl node(n:symbol, op:symbol, a:symbol, b:symbol)\n"@);
    assert(x + y =~= seq![Item::Decl("leaf"@, seq!["symbol"@, "number"@]), Item::Decl("node"@, seq!["symbol"@, "symbol"@, "symbol"@, "symbol"@])]);
}

pub(crate) proof fn second_declarations()
    ensures
        spells(
            ".decl retrieved(n:symbol, v:number)\n.decl budget(b:number)\n.decl eval(n:symbol, v:number, b:number)\n"@,
            seq![Item::Decl("retrieved"@, seq!["symbol"@, "number"@]), Item::Decl("budget"@, seq!["number"@]), Item::Decl("eval"@, seq!["symbol"@, "number"@, "number"@])],
        ),
{
    retrieved_declaration();
    budget_declaration();
    eval_declaration();
    let a = ".decl retrieved(n:symbol, v:number)\n"@;
    let x = seq![Item::Decl("retrieved"@, seq!["symbol"@, "number"@])];
    let b = ".decl budget(b:number)\n"@;
    let y = seq![Item::Decl("budget"@, seq!["number"@])];
    let c = ".decl eval(n:symbol, v:number, b:number)\n"@;
    let z = seq![Item::Decl("eval"@, seq!["symbol"@, "number"@, "number"@])];
    spells_both(a, x, b, y);
    spells_both(a + b, x + y, c, z);
    reveal_strlit(".decl retrieved(n:symbol, v:number)\n");
    reveal_strlit(".decl budget(b:number)\n");
    reveal_strlit(".decl eval(n:symbol, v:number, b:number)\n");
    reveal_strlit(".decl retrieved(n:symbol, v:number)\n.decl budget(b:number)\n.decl eval(n:symbol, v:number, b:number)\n");
    assert(a + b + c =~= ".decl retrieved(n:symbol, v:number)\n.decl budget(b:number)\n.decl eval(n:symbol, v:number, b:number)\n"@);
    assert(x + y + z =~= seq![Item::Decl("retrieved"@, seq!["symbol"@, "number"@]), Item::Decl("budget"@, seq!["number"@]), Item::Decl("eval"@, seq!["symbol"@, "number"@, "number"@])]);
}

pub(crate) proof fn third_declarations()
    ensures
        spells(
            ".decl answer(v:number)\n.decl model_answer(v:number)\n"@,
            seq![Item::Decl("answer"@, seq!["number"@]), Item::Decl("model_answer"@, seq!["number"@])],
        ),
{
    answer_declaration();
    model_answer_declaration();
    let a = ".decl answer(v:number)\n"@;
    let x = seq![Item::Decl("answer"@, seq!["number"@])];
    let b = ".decl model_answer(v:number)\n"@;
    let y = seq![Item::Decl("model_answer"@, seq!["number"@])];
    spells_both(a, x, b, y);
    reveal_strlit(".decl answer(v:number)\n");
    reveal_strlit(".decl model_answer(v:number)\n");
    reveal_strlit(".decl answer(v:number)\n.decl model_answer(v:number)\n");
    assert(a + b =~= ".decl answer(v:number)\n.decl model_answer(v:number)\n"@);
    assert(x + y =~= seq![Item::Decl("answer"@, seq!["number"@]), Item::Decl("model_answer"@, seq!["number"@])]);
}

pub(crate) proof fn last_declarations()
    ensures
        spells(
            ".decl reproduces(v:number)\n.decl diverges(prog:number, model:number)\n\n"@,
            seq![Item::Decl("reproduces"@, seq!["number"@]), Item::Decl("diverges"@, seq!["number"@, "number"@])],
        ),
{
    reproduces_declaration();
    diverges_declaration();
    let a = ".decl reproduces(v:number)\n"@;
    let x = seq![Item::Decl("reproduces"@, seq!["number"@])];
    let b = ".decl diverges(prog:number, model:number)\n"@;
    let y = seq![Item::Decl("diverges"@, seq!["number"@, "number"@])];
    spells_both(a, x, b, y);
    reveal_strlit(".decl reproduces(v:number)\n");
    reveal_strlit(".decl diverges(prog:number, model:number)\n");
    reveal_strlit(".decl reproduces(v:number)\n.decl diverges(prog:number, model:number)\n\n");
    reveal_strlit("\n");
    spaces_are_cut("\n"@);
    spells_behind_blank("\n"@, a + b, x + y);
    assert(a + b + "\n"@ =~= ".decl reproduces(v:number)\n.decl diverges(prog:number, model:number)\n\n"@);
    assert(x + y =~= seq![Item::Decl("reproduces"@, seq!["number"@]), Item::Decl("diverges"@, seq!["number"@, "number"@])]);
}

} // verus!
