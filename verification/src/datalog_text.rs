//! The whole text that is written for an expression and an answer, read as a Datalog program.
use vstd::prelude::*;
use crate::datalog::{
    answer_text, correct_text, cut_lines, cut_text, cuts_text, emit_text, fact_text, facts_text, header_text,
    reproduction_text, rules_text, tree_abduction, verdict_text,
};
use crate::datalog_program::{
    answer_clause, answer_facts, answer_of, budget_clause, budget_of, cut_clause, cut_fact, cut_facts, declared,
    diverges_clause, fact, leaf_clause, leaf_of, model_answer_of, node_fact, node_facts, node_name, num, operator_clause,
    program, reproduces_clause, rules, run_at, sym, var,
};
use crate::datalog_reading::{between, flushed, is_space, is_word_char, program_of, scan, Atom, Clause, Item, Mode, Scan};
use crate::datalog_spelling::{
    answer_head_piece, atom_of_four, atom_of_one, atom_of_three, atom_of_two, budget_line, cut_line, diverges_line,
    first_declarations, last_condition, last_declarations, leaf_line, minus_line, outputs_are_spelled, over_line, plus_line,
    relations_are_names, reproduces_line, rule_is_spelled, second_declarations, small_exprs, third_declarations, times_line,
};
use crate::datalog_tokens::{
    atom_ok, atom_toks, clause_toks, comment_ends, comment_goes_on, comment_starts, cut, cut_both, fact_ends, in_comment,
    integer_scanned, literal_ok, literal_toks, num_toks, plain, quote_goes_on, quoted, remark_is_cut, scan_of_sum,
    spaced_remark_is_cut, spaces_are_cut, spelled_is_read, spells, spells_behind_blank, spells_both, spells_clause,
    spells_nothing,
};
use crate::probe_laws::numeral_is_read_back;
use crate::recursion_dl::{flat_depths, flat_nodes, flat_value, greatest, Flat, Node, Outcome};
use crate::text::{dec, int_text, is_digit};

verus! {

// ---- Facts.

pub open spec fn in_quote(done: Seq<Seq<char>>, word: Seq<char>) -> Scan {
    Scan { done, word, mode: Mode::Quote }
}

proof fn numerals_are_plain(n: nat)
    ensures
        plain(dec(n)),
        forall|i: int| 0 <= i < dec(n).len() ==> #[trigger] dec(n)[i] != '"',
{
    numeral_is_read_back(n);
    assert forall|i: int| 0 <= i < dec(n).len() implies #[trigger] dec(n)[i] != '"' && dec(n)[i] != '\n' by {
        assert(is_digit(dec(n)[i]));
    }
}

proof fn integers_are_plain(v: int)
    ensures
        plain(int_text(v)),
{
    if v < 0 {
        numerals_are_plain((-v) as nat);
        let d = dec((-v) as nat);
        assert forall|i: int| 0 <= i < int_text(v).len() implies #[trigger] int_text(v)[i] != '\n' by {
            if i > 0 {
                assert(int_text(v)[i] == d[i - 1]);
            }
        }
    } else {
        numerals_are_plain(v as nat);
    }
}

/// An integer, then what ends a fact.
proof fn integer_ends_fact(st: Scan, v: int, s: Seq<char>)
    requires
        st.mode is Code,
        st.word.len() > 0 ==> !is_word_char(st.word.last()) && st.word != seq![':'],
        s.len() > 2,
        s[0] == ')',
        s[1] == '.',
        forall|i: int| 2 <= i < s.len() ==> is_space(#[trigger] s[i]),
    ensures
        scan(scan(st, int_text(v)), s) == between(flushed(st) + num_toks(v) + seq![seq![')'], seq!['.']]),
{
    integer_scanned(st, v);
    let m = (if v < 0 { -v } else { v }) as nat;
    numeral_is_read_back(m);
    let word = num_toks(v).last();
    assert(word == dec(m));
    assert(is_digit(dec(m)[dec(m).len() - 1]));
    let done = flushed(st) + num_toks(v).drop_last();
    fact_ends(done, word, s);
    assert(done + seq![word, seq![')'], seq!['.']] =~= flushed(st) + num_toks(v) + seq![seq![')'], seq!['.']]);
}

proof fn leaf_opens(done: Seq<Seq<char>>)
    ensures
        scan(between(done), "leaf(\"n"@) == in_quote(done + seq!["leaf"@, seq!['(']], seq!['"', 'n']),
{
    reveal_strlit("leaf(\"n");
    reveal_strlit("leaf");
    reveal_with_fuel(scan, 9);
    let r = scan(between(done), "leaf(\"n"@);
    assert(r.done =~~= done + seq!["leaf"@, seq!['(']]);
    assert(r.word =~= seq!['"', 'n']);
}

proof fn node_opens(done: Seq<Seq<char>>)
    ensures
        scan(between(done), "node(\"n"@) == in_quote(done + seq!["node"@, seq!['(']], seq!['"', 'n']),
{
    reveal_strlit("node(\"n");
    reveal_strlit("node");
    reveal_with_fuel(scan, 9);
    let r = scan(between(done), "node(\"n"@);
    assert(r.done =~~= done + seq!["node"@, seq!['(']]);
    assert(r.word =~= seq!['"', 'n']);
}

proof fn retrieved_opens(done: Seq<Seq<char>>)
    ensures
        scan(between(done), "retrieved(\"n"@) == in_quote(done + seq!["retrieved"@, seq!['(']], seq!['"', 'n']),
{
    reveal_strlit("retrieved(\"n");
    reveal_strlit("retrieved");
    reveal_with_fuel(scan, 14);
    let r = scan(between(done), "retrieved(\"n"@);
    assert(r.done =~~= done + seq!["retrieved"@, seq!['(']]);
    assert(r.word =~= seq!['"', 'n']);
}

/// The number of a node goes into its name.
proof fn name_is_scanned(done: Seq<Seq<char>>, i: nat)
    ensures
        scan(in_quote(done, seq!['"', 'n']), dec(i)) == in_quote(done, seq!['"', 'n'] + dec(i)),
        (seq!['"', 'n'] + dec(i)).push('"') == quoted(node_name(i)),
{
    numerals_are_plain(i);
    quote_goes_on(done, seq!['"', 'n'], dec(i));
    assert((seq!['"', 'n'] + dec(i)).push('"') =~= quoted(node_name(i)));
}

proof fn quote_ends(done: Seq<Seq<char>>, word: Seq<char>)
    ensures
        scan(in_quote(done, word), "\", "@) == between(done + seq![word.push('"'), seq![',']]),
        scan(in_quote(done, word), "\", \""@) == in_quote(done + seq![word.push('"'), seq![',']], seq!['"']),
        scan(in_quote(done, word), "\", \"n"@) == in_quote(done + seq![word.push('"'), seq![',']], seq!['"', 'n']),
        scan(in_quote(done, word), "\").\n"@) == between(done + seq![word.push('"'), seq![')'], seq!['.']]),
{
    let st = in_quote(done, word);
    reveal_strlit("\", ");
    reveal_strlit("\", \"");
    reveal_strlit("\", \"n");
    reveal_strlit("\").\n");
    reveal_with_fuel(scan, 7);
    let a = scan(st, "\", "@);
    assert(a.done =~~= done + seq![word.push('"'), seq![',']]);
    assert(a.word =~= Seq::empty());
    let b = scan(st, "\", \""@);
    assert(b.done =~~= done + seq![word.push('"'), seq![',']]);
    assert(b.word =~= seq!['"']);
    let c = scan(st, "\", \"n"@);
    assert(c.done =~~= done + seq![word.push('"'), seq![',']]);
    assert(c.word =~= seq!['"', 'n']);
    let d = scan(st, "\").\n"@);
    assert(d.done =~~= done + seq![word.push('"'), seq![')'], seq!['.']]);
    assert(d.word =~= Seq::empty());
}

/// A fact is written as its atom and a period.
proof fn fact_is_spelled(text: Seq<char>, head: Atom)
    requires
        atom_ok(head),
        cut(text, atom_toks(head) + seq![seq!['.']]),
    ensures
        spells(text, seq![fact(head)]),
{
    reveal(clause_toks);
    spells_clause(text, Clause { head, body: Seq::empty() });
}

proof fn leaf_is_spelled(i: nat, v: i64)
    ensures
        spells(fact_text(i, Flat::Leaf(v)), seq![fact(node_fact(i, Flat::Leaf(v)))]),
{
    let a = "leaf(\"n"@;
    let b = "\", "@;
    let c = ").\n"@;
    let n = int_text(v as int);
    let text = fact_text(i, Flat::Leaf(v));
    let head = leaf_of(sym(node_name(i)), num(v as int));
    let toks = atom_toks(head) + seq![seq!['.']];
    small_exprs();
    relations_are_names();
    atom_of_two("leaf"@, sym(node_name(i)), num(v as int));
    assert forall|done: Seq<Seq<char>>| #[trigger] scan(between(done), text) == between(done + toks) by {
        let st = between(done);
        scan_of_sum(st, a + dec(i) + b + n, c);
        scan_of_sum(st, a + dec(i) + b, n);
        scan_of_sum(st, a + dec(i), b);
        scan_of_sum(st, a, dec(i));
        leaf_opens(done);
        let d1 = done + seq!["leaf"@, seq!['(']];
        name_is_scanned(d1, i);
        quote_ends(d1, seq!['"', 'n'] + dec(i));
        let d2 = d1 + seq![quoted(node_name(i)), seq![',']];
        reveal_strlit(").\n");
        integer_ends_fact(between(d2), v as int, c);
        assert(d2 + num_toks(v as int) + seq![seq![')'], seq!['.']] =~= done + toks);
    }
    fact_is_spelled(text, head);
}

proof fn operator_is_spelled(i: nat, op: char, x: usize, y: usize)
    requires
        op != '"',
    ensures
        spells(fact_text(i, Flat::Op(op, x, y)), seq![fact(node_fact(i, Flat::Op(op, x, y)))]),
{
    let a = "node(\"n"@;
    let b = "\", \""@;
    let c = "\", \"n"@;
    let e = "\").\n"@;
    let p = dec(x as nat);
    let q = dec(y as nat);
    let o = seq![op];
    let text = fact_text(i, Flat::Op(op, x, y));
    let head = node_fact(i, Flat::Op(op, x, y));
    let toks = atom_toks(head) + seq![seq!['.']];
    small_exprs();
    relations_are_names();
    atom_of_four("node"@, sym(node_name(i)), sym(o), sym(node_name(x as nat)), sym(node_name(y as nat)));
    assert forall|done: Seq<Seq<char>>| #[trigger] scan(between(done), text) == between(done + toks) by {
        let st = between(done);
        scan_of_sum(st, a + dec(i) + b + o + c + p + c + q, e);
        scan_of_sum(st, a + dec(i) + b + o + c + p + c, q);
        scan_of_sum(st, a + dec(i) + b + o + c + p, c);
        scan_of_sum(st, a + dec(i) + b + o + c, p);
        scan_of_sum(st, a + dec(i) + b + o, c);
        scan_of_sum(st, a + dec(i) + b, o);
        scan_of_sum(st, a + dec(i), b);
        scan_of_sum(st, a, dec(i));
        node_opens(done);
        let d1 = done + seq!["node"@, seq!['(']];
        name_is_scanned(d1, i);
        quote_ends(d1, seq!['"', 'n'] + dec(i));
        let d2 = d1 + seq![quoted(node_name(i)), seq![',']];
        quote_goes_on(d2, seq!['"'], o);
        let w = seq!['"'] + o;
        quote_ends(d2, w);
        assert(w.push('"') =~= quoted(o));
        let d3 = d2 + seq![quoted(o), seq![',']];
        name_is_scanned(d3, x as nat);
        quote_ends(d3, seq!['"', 'n'] + p);
        let d4 = d3 + seq![quoted(node_name(x as nat)), seq![',']];
        name_is_scanned(d4, y as nat);
        quote_ends(d4, seq!['"', 'n'] + q);
        let d5 = d4 + seq![quoted(node_name(y as nat)), seq![')'], seq!['.']];
        assert(d5 =~= done + toks);
    }
    fact_is_spelled(text, head);
}

/// No operator of the tree is the quotation mark, which would end its own quotation.
pub open spec fn quotable(nodes: Seq<Flat>) -> bool {
    forall|i: int| 0 <= i < nodes.len() ==> (#[trigger] nodes[i] matches Flat::Op(op, _, _) ==> op != '"')
}

proof fn facts_are_spelled(nodes: Seq<Flat>)
    requires
        quotable(nodes),
    ensures
        spells(facts_text(nodes), node_facts(nodes)),
    decreases nodes.len(),
{
    if nodes.len() == 0 {
        spaces_are_cut(Seq::empty());
        spells_nothing(Seq::empty());
        assert(node_facts(nodes) =~= Seq::empty());
    } else {
        let head = nodes.drop_last();
        let k = (nodes.len() - 1) as nat;
        assert forall|i: int| 0 <= i < head.len() implies (#[trigger] head[i] matches Flat::Op(op, _, _) ==> op != '"') by {
            assert(head[i] == nodes[i]);
        }
        facts_are_spelled(head);
        assert(nodes[nodes.len() - 1] == nodes.last());
        match nodes.last() {
            Flat::Leaf(v) => leaf_is_spelled(k, v),
            Flat::Op(op, x, y) => operator_is_spelled(k, op, x, y),
        }
        let one = seq![fact(node_fact(k, nodes.last()))];
        spells_both(facts_text(head), node_facts(head), fact_text(k, nodes.last()), one);
        assert(node_facts(head) + one =~= node_facts(nodes));
    }
}

proof fn cut_is_spelled(x: (usize, i64, bool))
    ensures
        spells(cut_text(x), seq![fact(cut_fact(x))]),
{
    let a = "retrieved(\"n"@;
    let b = "\", "@;
    let c = ").   // BROKEN: did not recurse here — "@;
    let c1 = ").   "@;
    let c2 = "// BROKEN: did not recurse here — "@;
    let i = x.0 as nat;
    let v = x.1 as int;
    let n = int_text(v);
    let m = if x.2 {
        "memorized literal from context (a genuine retrieval)"@
    } else {
        "value the model held (not a clean context literal)"@
    };
    let e = "\n"@;
    let text = cut_text(x);
    let head = cut_fact(x);
    let toks = atom_toks(head) + seq![seq!['.']];
    small_exprs();
    relations_are_names();
    atom_of_two("retrieved"@, sym(node_name(i)), num(v));
    assert(c == c1 + c2 && plain(c2) && c2.len() >= 2 && c2[0] == '/' && c2[1] == '/' && plain(m) && e =~= seq!['\n']) by {
        reveal_strlit(").   // BROKEN: did not recurse here — ");
        reveal_strlit(").   ");
        reveal_strlit("// BROKEN: did not recurse here — ");
        reveal_strlit("memorized literal from context (a genuine retrieval)");
        reveal_strlit("value the model held (not a clean context literal)");
        reveal_strlit("\n");
        assert(c =~= c1 + c2);
    }
    assert forall|done: Seq<Seq<char>>| #[trigger] scan(between(done), text) == between(done + toks) by {
        let st = between(done);
        scan_of_sum(st, a + dec(i) + b + n + c + m, e);
        scan_of_sum(st, a + dec(i) + b + n + c, m);
        scan_of_sum(st, a + dec(i) + b + n, c);
        scan_of_sum(st, a + dec(i) + b, n);
        scan_of_sum(st, a + dec(i), b);
        scan_of_sum(st, a, dec(i));
        retrieved_opens(done);
        let d1 = done + seq!["retrieved"@, seq!['(']];
        name_is_scanned(d1, i);
        quote_ends(d1, seq!['"', 'n'] + dec(i));
        let d2 = d1 + seq![quoted(node_name(i)), seq![',']];
        reveal_strlit(").   ");
        scan_of_sum(scan(between(d2), n), c1, c2);
        integer_ends_fact(between(d2), v, c1);
        let d3 = d2 + num_toks(v) + seq![seq![')'], seq!['.']];
        comment_starts(d3, c2);
        comment_goes_on(d3, m);
        assert(e.drop_last() =~= Seq::empty());
        comment_ends(d3, e);
        assert(d3 =~= done + toks);
    }
    fact_is_spelled(text, head);
}

proof fn cut_lines_are_spelled(cuts: Seq<(usize, i64, bool)>)
    ensures
        spells(cut_lines(cuts), cut_facts(cuts)),
    decreases cuts.len(),
{
    if cuts.len() == 0 {
        spaces_are_cut(Seq::empty());
        spells_nothing(Seq::empty());
        assert(cut_facts(cuts) =~= Seq::empty());
    } else {
        let head = cuts.drop_last();
        cut_lines_are_spelled(head);
        cut_is_spelled(cuts.last());
        let one = seq![fact(cut_fact(cuts.last()))];
        spells_both(cut_lines(head), cut_facts(head), cut_text(cuts.last()), one);
        assert(cut_facts(head) + one =~= cut_facts(cuts));
    }
}

proof fn cuts_are_spelled(cuts: Seq<(usize, i64, bool)>)
    ensures
        spells(cuts_text(cuts), cut_facts(cuts)),
{
    let title = "\n// ---- the CUTS: where the model ran out of recursion budget and RETRIEVED a value (abduced) ----\n"@;
    let none = "// (none — the model recursed all the way; no cut needed)\n"@;
    cut_lines_are_spelled(cuts);
    assert(cut(title, Seq::empty())) by {
        reveal_strlit("\n// ---- the CUTS: where the model ran out of recursion budget and RETRIEVED a value (abduced) ----\n");
        spaced_remark_is_cut(title, 1);
    }
    assert(cut(none, Seq::empty())) by {
        reveal_strlit("// (none — the model recursed all the way; no cut needed)\n");
        remark_is_cut(none);
    }
    spaces_are_cut(Seq::empty());
    spells_behind_blank(title, cut_lines(cuts), cut_facts(cuts));
    spells_behind_blank(none, title + cut_lines(cuts), cut_facts(cuts));
    spells_behind_blank(Seq::empty(), title + cut_lines(cuts), cut_facts(cuts));
}

proof fn bracket_opens(done: Seq<Seq<char>>)
    ensures
        scan(between(done), "model_answer("@) == (Scan { done: done + seq!["model_answer"@], word: seq!['('], mode: Mode::Code }),
        scan(between(done), "budget("@) == (Scan { done: done + seq!["budget"@], word: seq!['('], mode: Mode::Code }),
{
    reveal_strlit("model_answer(");
    reveal_strlit("model_answer");
    reveal_strlit("budget(");
    reveal_strlit("budget");
    reveal_with_fuel(scan, 15);
    let r = scan(between(done), "model_answer("@);
    assert(r.done =~~= done + seq!["model_answer"@]);
    assert(r.word =~= seq!['(']);
    let q = scan(between(done), "budget("@);
    assert(q.done =~~= done + seq!["budget"@]);
    assert(q.word =~= seq!['(']);
}

/// A fact with one number.
proof fn number_fact_is_spelled(name: Seq<char>, open: Seq<char>, v: int, head: Atom)
    requires
        head == (Atom { name, args: seq![num(v)] }),
        atom_ok(head),
        forall|done: Seq<Seq<char>>|
            #[trigger] scan(between(done), open) == (Scan { done: done + seq![name], word: seq!['('], mode: Mode::Code }),
    ensures
        spells(open + int_text(v) + ").\n"@, seq![fact(head)]),
{
    let n = int_text(v);
    let c = ").\n"@;
    let text = open + n + c;
    let toks = atom_toks(head) + seq![seq!['.']];
    small_exprs();
    atom_of_one(name, num(v));
    assert forall|done: Seq<Seq<char>>| #[trigger] scan(between(done), text) == between(done + toks) by {
        let st = between(done);
        scan_of_sum(st, open + n, c);
        scan_of_sum(st, open, n);
        let s1 = Scan { done: done + seq![name], word: seq!['('], mode: Mode::Code };
        assert(scan(st, open) == s1);
        reveal_strlit(").\n");
        assert(seq!['('][0] == '(' && seq![':'][0] == ':');
        integer_ends_fact(s1, v, c);
        assert(flushed(s1) + num_toks(v) + seq![seq![')'], seq!['.']] =~= done + toks);
    }
    fact_is_spelled(text, head);
}

proof fn answer_is_spelled(answer: Option<i64>)
    ensures
        spells(answer_text(answer), answer_facts(answer)),
{
    match answer {
        Some(a) => {
            small_exprs();
            relations_are_names();
            atom_of_one("model_answer"@, num(a as int));
            assert forall|done: Seq<Seq<char>>|
                #[trigger] scan(between(done), "model_answer("@) == (Scan {
                    done: done + seq!["model_answer"@],
                    word: seq!['('],
                    mode: Mode::Code,
                }) by {
                bracket_opens(done);
            }
            number_fact_is_spelled("model_answer"@, "model_answer("@, a as int, model_answer_of(num(a as int)));
        },
        None => {
            let s = "// model_answer: the model's answer did not decode to an integer\n"@;
            reveal_strlit("// model_answer: the model's answer did not decode to an integer\n");
            remark_is_cut(s);
            spells_nothing(s);
        },
    }
}

// ---- The rules.

proof fn run_opens(done: Seq<Seq<char>>)
    ensures
        scan(between(done), "eval(\"n0\", V, "@) == between(
            done + seq!["eval"@, seq!['('], quoted(node_name(0)), seq![','], seq!['V'], seq![',']],
        ),
{
    reveal_strlit("eval(\"n0\", V, ");
    reveal_strlit("eval");
    reveal_with_fuel(scan, 16);
    assert(dec(0) =~= seq!['0']);
    let r = scan(between(done), "eval(\"n0\", V, "@);
    assert(quoted(node_name(0)) =~= seq!['"', 'n', '0', '"']);
    assert(r.done =~~= done + seq!["eval"@, seq!['('], quoted(node_name(0)), seq![','], seq!['V'], seq![',']]);
    assert(r.word =~= Seq::empty());
}

proof fn run_is_cut(b: int)
    ensures
        literal_ok(run_at(b)),
        cut("eval(\"n0\", V, "@ + int_text(b) + ").        "@, literal_toks(run_at(b)) + seq![seq!['.']]),
{
    let open = "eval(\"n0\", V, "@;
    let n = int_text(b);
    let c = ").        "@;
    let text = open + n + c;
    let toks = literal_toks(run_at(b)) + seq![seq!['.']];
    small_exprs();
    relations_are_names();
    atom_of_three("eval"@, sym(node_name(0)), var('V'), num(b));
    assert forall|done: Seq<Seq<char>>| #[trigger] scan(between(done), text) == between(done + toks) by {
        reveal(literal_toks);
        let st = between(done);
        scan_of_sum(st, open + n, c);
        scan_of_sum(st, open, n);
        run_opens(done);
        let d1 = done + seq!["eval"@, seq!['('], quoted(node_name(0)), seq![','], seq!['V'], seq![',']];
        reveal_strlit(").        ");
        integer_ends_fact(between(d1), b, c);
        assert(d1 + num_toks(b) + seq![seq![')'], seq!['.']] =~= done + toks);
    }
}

proof fn answer_line_is_spelled(b: int)
    ensures
        spells(
            "answer(V)     :- eval(\"n0\", V, "@ + int_text(b) + ").        // run at the model's effective depth\n"@,
            seq![Item::Rule(answer_clause(b))],
        ),
{
    let h = "answer(V)     "@;
    let arrow = ":- "@;
    let open = "eval(\"n0\", V, "@;
    let n = int_text(b);
    let c = ").        "@;
    let tail = "// run at the model's effective depth\n"@;
    let first = "answer(V)     :- eval(\"n0\", V, "@;
    let rest = ").        // run at the model's effective depth\n"@;
    answer_head_piece();
    run_is_cut(b);
    last_condition(open + n + c, run_at(b));
    rule_is_spelled(h, answer_of(var('V')), open + n + c, seq![run_at(b)]);
    assert(cut(tail, Seq::empty())) by {
        reveal_strlit("// run at the model's effective depth\n");
        remark_is_cut(tail);
    }
    let line = h + (arrow + (open + n + c));
    spells_behind_blank(tail, line, seq![Item::Rule(answer_clause(b))]);
    assert(first == h + arrow + open && rest == c + tail) by {
        reveal_strlit("answer(V)     ");
        reveal_strlit(":- ");
        reveal_strlit("eval(\"n0\", V, ");
        reveal_strlit("answer(V)     :- eval(\"n0\", V, ");
        reveal_strlit(").        ");
        reveal_strlit("// run at the model's effective depth\n");
        reveal_strlit(").        // run at the model's effective depth\n");
        assert(first =~= h + arrow + open);
        assert(rest =~= c + tail);
    }
    assert(line + tail =~= first + n + rest);
}

proof fn budget_is_spelled(b: int)
    ensures
        spells(
            "\n// ---- the depth-bounded RECURSIVE evaluator (cut = retrieval at the budget) ----\n"@ + "budget("@ + int_text(b)
                + ").\nbudget(B-1) :- budget(B), B > 0.\n"@,
            seq![fact(budget_of(num(b))), Item::Rule(budget_clause())],
        ),
{
    let title = "\n// ---- the depth-bounded RECURSIVE evaluator (cut = retrieval at the budget) ----\n"@;
    let open = "budget("@;
    let n = int_text(b);
    let c = ").\n"@;
    let next = "budget(B-1) :- budget(B), B > 0.\n"@;
    let both = ").\nbudget(B-1) :- budget(B), B > 0.\n"@;
    small_exprs();
    relations_are_names();
    atom_of_one("budget"@, num(b));
    assert forall|done: Seq<Seq<char>>|
        #[trigger] scan(between(done), open) == (Scan { done: done + seq!["budget"@], word: seq!['('], mode: Mode::Code }) by {
        bracket_opens(done);
    }
    number_fact_is_spelled("budget"@, open, b, budget_of(num(b)));
    budget_line();
    assert(cut(title, Seq::empty())) by {
        reveal_strlit("\n// ---- the depth-bounded RECURSIVE evaluator (cut = retrieval at the budget) ----\n");
        spaced_remark_is_cut(title, 1);
    }
    let x = seq![fact(budget_of(num(b)))];
    let y = seq![Item::Rule(budget_clause())];
    spells_both(open + n + c, x, next, y);
    spells_behind_blank(title, open + n + c + next, x + y);
    assert(both == c + next) by {
        reveal_strlit(").\n");
        reveal_strlit("budget(B-1) :- budget(B), B > 0.\n");
        reveal_strlit(").\nbudget(B-1) :- budget(B), B > 0.\n");
        assert(both =~= c + next);
    }
    assert(title + (open + n + c + next) =~= title + open + n + both);
    assert(x + y =~= seq![fact(budget_of(num(b))), Item::Rule(budget_clause())]);
}

proof fn rules_are_spelled(b: int)
    ensures
        spells(rules_text(b), rules(b)),
{
    let t0 = "\n// ---- the depth-bounded RECURSIVE evaluator (cut = retrieval at the budget) ----\n"@ + "budget("@ + int_text(b)
        + ").\nbudget(B-1) :- budget(B), B > 0.\n"@;
    let t1 = "eval(N,V,B) :- budget(B), B <= 0, retrieved(N,V).                       // CUT (the semiring core)\n"@;
    let t2 = "eval(N,V,B) :- budget(B), leaf(N,V).\n"@;
    let t3 = "eval(N,V,B) :- budget(B), B > 0, node(N,\"+\",A,C), eval(A,X,B-1), eval(C,Y,B-1), V = X + Y.\n"@;
    let t4 = "eval(N,V,B) :- budget(B), B > 0, node(N,\"-\",A,C), eval(A,X,B-1), eval(C,Y,B-1), V = X - Y.\n"@;
    let t5 = "eval(N,V,B) :- budget(B), B > 0, node(N,\"*\",A,C), eval(A,X,B-1), eval(C,Y,B-1), V = X * Y.\n"@;
    let t6 = "eval(N,V,B) :- budget(B), B > 0, node(N,\"/\",A,C), eval(A,X,B-1), eval(C,Y,B-1), Y != 0, V = X / Y.\n\n"@;
    let first = "answer(V)     :- eval(\"n0\", V, "@;
    let rest = ").        // run at the model's effective depth\n"@;
    let t7 = first + int_text(b) + rest;
    let t8 = "reproduces(V)  :- answer(V), model_answer(V).             // FAITHFUL: symbolic == model ✓\n"@;
    let t9 = "diverges(P,M)  :- answer(P), model_answer(M), P != M.\n\n"@;
    let t10 = ".output answer\n.output reproduces\n.output diverges\n"@;
    let x0 = seq![fact(budget_of(num(b))), Item::Rule(budget_clause())];
    let x1 = seq![Item::Rule(cut_clause())];
    let x2 = seq![Item::Rule(leaf_clause())];
    let x3 = seq![Item::Rule(operator_clause('+'))];
    let x4 = seq![Item::Rule(operator_clause('-'))];
    let x5 = seq![Item::Rule(operator_clause('*'))];
    let x6 = seq![Item::Rule(operator_clause('/'))];
    let x7 = seq![Item::Rule(answer_clause(b))];
    let x8 = seq![Item::Rule(reproduces_clause())];
    let x9 = seq![Item::Rule(diverges_clause())];
    let x10 = seq![Item::Output("answer"@), Item::Output("reproduces"@), Item::Output("diverges"@)];
    budget_is_spelled(b);
    cut_line();
    leaf_line();
    plus_line();
    minus_line();
    times_line();
    over_line();
    answer_line_is_spelled(b);
    reproduces_line();
    diverges_line();
    outputs_are_spelled();
    spells_both(t0, x0, t1, x1);
    spells_both(t0 + t1, x0 + x1, t2, x2);
    spells_both(t0 + t1 + t2, x0 + x1 + x2, t3, x3);
    spells_both(t0 + t1 + t2 + t3, x0 + x1 + x2 + x3, t4, x4);
    spells_both(t0 + t1 + t2 + t3 + t4, x0 + x1 + x2 + x3 + x4, t5, x5);
    spells_both(t0 + t1 + t2 + t3 + t4 + t5, x0 + x1 + x2 + x3 + x4 + x5, t6, x6);
    let t = t0 + t1 + t2 + t3 + t4 + t5 + t6;
    let x = x0 + x1 + x2 + x3 + x4 + x5 + x6;
    spells_both(t, x, t7, x7);
    spells_both(t + t7, x + x7, t8, x8);
    spells_both(t + t7 + t8, x + x7 + x8, t9, x9);
    spells_both(t + t7 + t8 + t9, x + x7 + x8 + x9, t10, x10);
    assert(t + t7 =~= t + first + int_text(b) + rest);
    assert(x + x7 + x8 + x9 + x10 =~= rules(b));
}

// ---- The head, the verdict, and the whole.

proof fn header_is_spelled()
    ensures
        spells(header_text(), declared()),
{
    let r1 = "// recursion → depth-bounded recursive Datalog  (fieldrun --recursion-explain --datalog · Soufflé)\n"@;
    let r2 = "// FAITHFUL to the model (interpretability first): a depth-bounded recursive evaluator whose CUT clause\n"@;
    let r3 = "// (out of budget → a memorized/retrieved value) reproduces the model's answer — right or wrong. The\n"@;
    let r4 = "// budget B is the model's effective recursion depth; the cut is the semiring/forge-tax core made legible.\n"@;
    let r5 = "// Run:  souffle -D- this.dl\n\n"@;
    let d1 = ".decl leaf(n:symbol, v:number)\n.decl node(n:symbol, op:symbol, a:symbol, b:symbol)\n"@;
    let d2 = ".decl retrieved(n:symbol, v:number)\n.decl budget(b:number)\n.decl eval(n:symbol, v:number, b:number)\n"@;
    let d3 = ".decl answer(v:number)\n.decl model_answer(v:number)\n"@;
    let d4 = ".decl reproduces(v:number)\n.decl diverges(prog:number, model:number)\n\n"@;
    let r6 = "// ---- parse tree (recovered from the recursion-explain bracket folds) ----\n"@;
    let s = "symbol"@;
    let n = "number"@;
    let x1 = seq![Item::Decl("leaf"@, seq![s, n]), Item::Decl("node"@, seq![s, s, s, s])];
    let x2 = seq![Item::Decl("retrieved"@, seq![s, n]), Item::Decl("budget"@, seq![n]), Item::Decl("eval"@, seq![s, n, n])];
    let x3 = seq![Item::Decl("answer"@, seq![n]), Item::Decl("model_answer"@, seq![n])];
    let x4 = seq![Item::Decl("reproduces"@, seq![n]), Item::Decl("diverges"@, seq![n, n])];
    first_declarations();
    second_declarations();
    third_declarations();
    last_declarations();
    opening_remarks();
    let none = Seq::<Item>::empty();
    spells_nothing(r1);
    spells_behind_blank(r2, r1, none);
    spells_behind_blank(r3, r1 + r2, none);
    spells_behind_blank(r4, r1 + r2 + r3, none);
    spells_behind_blank(r5, r1 + r2 + r3 + r4, none);
    let r = r1 + r2 + r3 + r4 + r5;
    spells_both(r, none, d1, x1);
    spells_both(r + d1, none + x1, d2, x2);
    spells_both(r + d1 + d2, none + x1 + x2, d3, x3);
    spells_both(r + d1 + d2 + d3, none + x1 + x2 + x3, d4, x4);
    spells_behind_blank(r6, r + d1 + d2 + d3 + d4, none + x1 + x2 + x3 + x4);
    assert(none + x1 + x2 + x3 + x4 =~= declared());
}

proof fn opening_remarks()
    ensures
        cut("// recursion → depth-bounded recursive Datalog  (fieldrun --recursion-explain --datalog · Soufflé)\n"@, Seq::empty()),
        cut("// FAITHFUL to the model (interpretability first): a depth-bounded recursive evaluator whose CUT clause\n"@, Seq::empty()),
        cut("// (out of budget → a memorized/retrieved value) reproduces the model's answer — right or wrong. The\n"@, Seq::empty()),
        cut("// budget B is the model's effective recursion depth; the cut is the semiring/forge-tax core made legible.\n"@, Seq::empty()),
        cut("// Run:  souffle -D- this.dl\n\n"@, Seq::empty()),
        cut("// ---- parse tree (recovered from the recursion-explain bracket folds) ----\n"@, Seq::empty()),
{
    assert(cut(
        "// recursion → depth-bounded recursive Datalog  (fieldrun --recursion-explain --datalog · Soufflé)\n"@,
        Seq::empty(),
    )) by {
        reveal_strlit("// recursion → depth-bounded recursive Datalog  (fieldrun --recursion-explain --datalog · Soufflé)\n");
        remark_is_cut("// recursion → depth-bounded recursive Datalog  (fieldrun --recursion-explain --datalog · Soufflé)\n"@);
    }
    assert(cut(
        "// FAITHFUL to the model (interpretability first): a depth-bounded recursive evaluator whose CUT clause\n"@,
        Seq::empty(),
    )) by {
        reveal_strlit("// FAITHFUL to the model (interpretability first): a depth-bounded recursive evaluator whose CUT clause\n");
        remark_is_cut("// FAITHFUL to the model (interpretability first): a depth-bounded recursive evaluator whose CUT clause\n"@);
    }
    assert(cut(
        "// (out of budget → a memorized/retrieved value) reproduces the model's answer — right or wrong. The\n"@,
        Seq::empty(),
    )) by {
        reveal_strlit("// (out of budget → a memorized/retrieved value) reproduces the model's answer — right or wrong. The\n");
        remark_is_cut("// (out of budget → a memorized/retrieved value) reproduces the model's answer — right or wrong. The\n"@);
    }
    assert(cut(
        "// budget B is the model's effective recursion depth; the cut is the semiring/forge-tax core made legible.\n"@,
        Seq::empty(),
    )) by {
        reveal_strlit("// budget B is the model's effective recursion depth; the cut is the semiring/forge-tax core made legible.\n");
        remark_is_cut("// budget B is the model's effective recursion depth; the cut is the semiring/forge-tax core made legible.\n"@);
    }
    assert(cut("// Run:  souffle -D- this.dl\n\n"@, Seq::empty())) by {
        reveal_strlit("// Run:  souffle -D- this.dl\n\n");
        reveal_strlit("// Run:  souffle -D- this.dl\n");
        reveal_strlit("\n");
        remark_is_cut("// Run:  souffle -D- this.dl\n"@);
        spaces_are_cut("\n"@);
        cut_both("// Run:  souffle -D- this.dl\n"@, Seq::empty(), "\n"@, Seq::empty());
        assert("// Run:  souffle -D- this.dl\n"@ + "\n"@ =~= "// Run:  souffle -D- this.dl\n\n"@);
        assert(Seq::<Seq<char>>::empty() + Seq::<Seq<char>>::empty() =~= Seq::empty());
    }
    assert(cut("// ---- parse tree (recovered from the recursion-explain bracket folds) ----\n"@, Seq::empty())) by {
        reveal_strlit("// ---- parse tree (recovered from the recursion-explain bracket folds) ----\n");
        remark_is_cut("// ---- parse tree (recovered from the recursion-explain bracket folds) ----\n"@);
    }
}

proof fn correct_is_scanned(done: Seq<Seq<char>>, correct: Outcome)
    ensures
        scan(between(done), correct_text(correct)) == in_comment(done),
{
    let a = "\n// correct math: "@;
    let b = "// correct math: "@;
    let m = match correct {
        Outcome::Value(v) => int_text(v as int),
        _ => "?"@,
    };
    assert(a == seq!['\n'] + b && plain(b) && b.len() >= 2 && b[0] == '/' && b[1] == '/' && plain("?"@)) by {
        reveal_strlit("\n// correct math: ");
        reveal_strlit("// correct math: ");
        reveal_strlit("?");
        assert(a =~= seq!['\n'] + b);
    }
    scan_of_sum(between(done), a, m);
    scan_of_sum(between(done), seq!['\n'], b);
    spaces_are_cut(seq!['\n']);
    assert(scan(between(done), seq!['\n']) == between(done + Seq::empty()));
    assert(done + Seq::<Seq<char>>::empty() =~= done);
    comment_starts(done, b);
    if let Outcome::Value(v) = correct {
        integers_are_plain(v as int);
    }
    comment_goes_on(done, m);
}

proof fn verdict_words()
    ensures
        plain(" · model: "@),
        plain(" · effective recursion depth D="@),
        plain(" ("@),
        plain(" cut"@),
        plain("s"@),
        ") · FAITHFUL\n"@.len() > 0,
        ") · FAITHFUL\n"@.last() == '\n',
        plain(") · FAITHFUL\n"@.drop_last()),
        cut(
            "// → the model is mathematically WRONG; the faithful program is the BROKEN (early-cut) recursion above.\n"@,
            Seq::empty(),
        ),
{
    reveal_strlit(" · model: ");
    reveal_strlit(" · effective recursion depth D=");
    reveal_strlit(" (");
    reveal_strlit(" cut");
    reveal_strlit("s");
    reveal_strlit(") · FAITHFUL\n");
    assert(cut(
        "// → the model is mathematically WRONG; the faithful program is the BROKEN (early-cut) recursion above.\n"@,
        Seq::empty(),
    )) by {
        reveal_strlit("// → the model is mathematically WRONG; the faithful program is the BROKEN (early-cut) recursion above.\n");
        remark_is_cut("// → the model is mathematically WRONG; the faithful program is the BROKEN (early-cut) recursion above.\n"@);
    }
}

proof fn reproduction_is_scanned(
    done: Seq<Seq<char>>,
    correct: Outcome,
    d: int,
    cuts: Seq<(usize, i64, bool)>,
    m: i64,
)
    ensures
        scan(in_comment(done), reproduction_text(correct, d, cuts, m)) == between(done),
{
    let a = " · model: "@;
    let b = int_text(m as int);
    let c = " · effective recursion depth D="@;
    let e = int_text(d);
    let f = " ("@;
    let g = dec(cuts.len());
    let h = " cut"@;
    let i = if cuts.len() == 1 { Seq::empty() } else { "s"@ };
    let j = ") · FAITHFUL\n"@;
    let k = if correct == Outcome::Value(m) {
        Seq::empty()
    } else {
        "// → the model is mathematically WRONG; the faithful program is the BROKEN (early-cut) recursion above.\n"@
    };
    let st = in_comment(done);
    verdict_words();
    integers_are_plain(m as int);
    integers_are_plain(d);
    numerals_are_plain(cuts.len());
    assert(plain(i));
    scan_of_sum(st, a + b + c + e + f + g + h + i + j, k);
    scan_of_sum(st, a + b + c + e + f + g + h + i, j);
    scan_of_sum(st, a + b + c + e + f + g + h, i);
    scan_of_sum(st, a + b + c + e + f + g, h);
    scan_of_sum(st, a + b + c + e + f, g);
    scan_of_sum(st, a + b + c + e, f);
    scan_of_sum(st, a + b + c, e);
    scan_of_sum(st, a + b, c);
    scan_of_sum(st, a, b);
    comment_goes_on(done, a);
    comment_goes_on(done, b);
    comment_goes_on(done, c);
    comment_goes_on(done, e);
    comment_goes_on(done, f);
    comment_goes_on(done, g);
    comment_goes_on(done, h);
    comment_goes_on(done, i);
    comment_ends(done, j);
    if correct == Outcome::Value(m) {
        spaces_are_cut(k);
    }
    assert(cut(k, Seq::empty()));
    assert(scan(between(done), k) == between(done + Seq::empty()));
    assert(done + Seq::<Seq<char>>::empty() =~= done);
}

/// The verdict says nothing that is run.
proof fn verdict_is_cut(correct: Outcome, found: Option<(int, Seq<(usize, i64, bool)>)>, answer: Option<i64>)
    ensures
        cut(verdict_text(correct, found, answer), Seq::empty()),
{
    let text = verdict_text(correct, found, answer);
    let a = correct_text(correct);
    assert forall|done: Seq<Seq<char>>| #[trigger] scan(between(done), text) == between(done + Seq::empty()) by {
        correct_is_scanned(done, correct);
        assert(done + Seq::<Seq<char>>::empty() =~= done);
        match (found, answer) {
            (Some((d, cuts)), Some(m)) => {
                let b = reproduction_text(correct, d, cuts, m);
                scan_of_sum(between(done), a, b);
                reproduction_is_scanned(done, correct, d, cuts, m);
            },
            (None, Some(m)) => {
                let b = " · model: "@;
                let c = int_text(m as int);
                let e = " · could not abduce a depth-cut reproducing it (semiring fallback territory)\n"@;
                scan_of_sum(between(done), a, b + c + e);
                scan_of_sum(in_comment(done), b + c, e);
                scan_of_sum(in_comment(done), b, c);
                verdict_words();
                integers_are_plain(m as int);
                comment_goes_on(done, b);
                comment_goes_on(done, c);
                reveal_strlit(" · could not abduce a depth-cut reproducing it (semiring fallback territory)\n");
                comment_ends(done, e);
            },
            _ => {
                let e = " · (model answer not an integer)\n"@;
                scan_of_sum(between(done), a, e);
                reveal_strlit(" · (model answer not an integer)\n");
                comment_ends(done, e);
            },
        }
    }
}

/// What is run: the budget and the cuts that are abduced, or the full depth of the tree without cuts.
pub open spec fn written_run(root: Node, answer: Option<i64>, literals: Seq<i64>) -> (int, Seq<(usize, i64, bool)>) {
    match tree_abduction(root, answer, literals) {
        Some(found) => found,
        None => ((greatest(flat_depths(root, 0)) as i32) as int, Seq::empty()),
    }
}

/// The text is read as the program for the tree.
pub(crate) proof fn emitted_is_read(root: Node, answer: Option<i64>, literals: Seq<i64>)
    requires
        quotable(flat_nodes(root, 0)),
    ensures
        program_of(emit_text(root, answer, literals)) == Some(
            program(
                flat_nodes(root, 0),
                written_run(root, answer, literals).1,
                answer,
                written_run(root, answer, literals).0,
            ),
        ),
{
    let nodes = flat_nodes(root, 0);
    let found = tree_abduction(root, answer, literals);
    let (b, cuts) = written_run(root, answer, literals);
    let h = header_text();
    let f = facts_text(nodes);
    let c = match found {
        Some((_, cuts)) => cuts_text(cuts),
        None => Seq::empty(),
    };
    let a = answer_text(answer);
    let r = rules_text(b);
    let v = verdict_text(flat_value(nodes, 0, i64::MAX as int, Map::empty()), found, answer);
    header_is_spelled();
    facts_are_spelled(nodes);
    match found {
        Some(_) => cuts_are_spelled(cuts),
        None => {
            spaces_are_cut(Seq::empty());
            spells_nothing(Seq::empty());
            assert(cut_facts(cuts) =~= Seq::empty());
        },
    }
    answer_is_spelled(answer);
    rules_are_spelled(b);
    verdict_is_cut(flat_value(nodes, 0, i64::MAX as int, Map::empty()), found, answer);
    spells_both(h, declared(), f, node_facts(nodes));
    spells_both(h + f, declared() + node_facts(nodes), c, cut_facts(cuts));
    spells_both(h + f + c, declared() + node_facts(nodes) + cut_facts(cuts), a, answer_facts(answer));
    spells_both(
        h + f + c + a,
        declared() + node_facts(nodes) + cut_facts(cuts) + answer_facts(answer),
        r,
        rules(b),
    );
    spells_behind_blank(v, h + f + c + a + r, program(nodes, cuts, answer, b));
    spelled_is_read(emit_text(root, answer, literals), program(nodes, cuts, answer, b));
}

} // verus!
