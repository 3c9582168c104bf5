//! How the items of a Datalog program are written as tokens and read back, and how pieces of text are cut into tokens.
use vstd::prelude::*;
use crate::datalog_reading::{
    between, flushed, is_arith, is_comparison, is_name, is_numeral, is_quoted, is_space, is_var, is_word_char, program_of,
    read_args, read_atom, read_body, read_clause, read_columns, read_expr, read_item, read_items, read_literal, read_term,
    scan, tokens, Atom, Clause, Expr, Item, Literal, Mode, Scan, Term,
};
use crate::probe_laws::numeral_is_read_back;
use crate::text::{dec, int_text, is_digit};

verus! {

// ---- How items are written as tokens, and read back.

pub open spec fn num_toks(n: int) -> Seq<Seq<char>> {
    if n < 0 { seq![seq!['-'], dec((-n) as nat)] } else { seq![dec(n as nat)] }
}

pub open spec fn quoted(s: Seq<char>) -> Seq<char> {
    seq!['"'] + s + seq!['"']
}

#[verifier::opaque]
pub open spec fn term_toks(t: Term) -> Seq<Seq<char>> {
    match t {
        Term::Var(x) => seq![x],
        Term::Num(n) => num_toks(n),
        Term::Sym(s) => seq![quoted(s)],
    }
}

pub open spec fn term_ok(t: Term) -> bool {
    t matches Term::Var(x) ==> is_var(x)
}

#[verifier::opaque]
pub open spec fn expr_toks(e: Expr) -> Seq<Seq<char>> {
    match e {
        Expr::One(t) => term_toks(t),
        Expr::Two(t, op, u) => term_toks(t) + seq![seq![op]] + term_toks(u),
    }
}

pub open spec fn expr_ok(e: Expr) -> bool {
    match e {
        Expr::One(t) => term_ok(t),
        Expr::Two(t, op, u) => term_ok(t) && is_arith(seq![op]) && term_ok(u),
    }
}

#[verifier::opaque]
pub open spec fn args_toks(args: Seq<Expr>) -> Seq<Seq<char>>
    decreases args.len(),
{
    if args.len() <= 1 {
        expr_toks(args[0]) + seq![seq![')']]
    } else {
        expr_toks(args[0]) + seq![seq![',']] + args_toks(args.skip(1))
    }
}

pub open spec fn args_ok(args: Seq<Expr>) -> bool {
    args.len() > 0 && forall|i: int| 0 <= i < args.len() ==> expr_ok(#[trigger] args[i])
}

#[verifier::opaque]
pub open spec fn atom_toks(a: Atom) -> Seq<Seq<char>> {
    seq![a.name, seq!['(']] + args_toks(a.args)
}

pub open spec fn atom_ok(a: Atom) -> bool {
    is_name(a.name) && args_ok(a.args)
}

#[verifier::opaque]
pub open spec fn literal_toks(l: Literal) -> Seq<Seq<char>> {
    match l {
        Literal::Holds(a) => atom_toks(a),
        Literal::Compare(op, x, y) => expr_toks(x) + seq![op] + expr_toks(y),
    }
}

pub open spec fn literal_ok(l: Literal) -> bool {
    match l {
        Literal::Holds(a) => atom_ok(a),
        Literal::Compare(op, x, y) => is_comparison(op) && expr_ok(x) && expr_ok(y),
    }
}

#[verifier::opaque]
pub open spec fn body_toks(body: Seq<Literal>) -> Seq<Seq<char>>
    decreases body.len(),
{
    if body.len() <= 1 {
        literal_toks(body[0]) + seq![seq!['.']]
    } else {
        literal_toks(body[0]) + seq![seq![',']] + body_toks(body.skip(1))
    }
}

#[verifier::opaque]
pub open spec fn clause_toks(c: Clause) -> Seq<Seq<char>> {
    atom_toks(c.head) + (if c.body.len() == 0 { seq![seq!['.']] } else { seq![seq![':', '-']] + body_toks(c.body) })
}

pub open spec fn clause_ok(c: Clause) -> bool {
    atom_ok(c.head) && forall|i: int| 0 <= i < c.body.len() ==> literal_ok(#[trigger] c.body[i])
}

#[verifier::opaque]
pub open spec fn columns_toks(types: Seq<(Seq<char>, Seq<char>)>) -> Seq<Seq<char>>
    decreases types.len(),
{
    if types.len() <= 1 {
        seq![types[0].0, seq![':'], types[0].1, seq![')']]
    } else {
        seq![types[0].0, seq![':'], types[0].1, seq![',']] + columns_toks(types.skip(1))
    }
}

pub(crate) proof fn term_is_read(t: Term, rest: Seq<Seq<char>>)
    requires
        term_ok(t),
    ensures
        read_term(term_toks(t) + rest) == Some((t, rest)),
        term_toks(t).len() > 0,
        !is_name(term_toks(t)[0]),
{
    reveal(term_toks);
    reveal(read_term);
    let ts = term_toks(t) + rest;
    match t {
        Term::Var(x) => {
            assert(ts[0] == x);
            assert(!is_digit(x[0]));
            assert(!is_quoted(x));
            assert(!is_numeral(x));
            assert(ts.skip(1) =~= rest);
            assert(x != seq!['-']) by {
                assert(seq!['-'][0] == '-');
            }
        },
        Term::Num(n) => {
            let m = (if n < 0 { -n } else { n }) as nat;
            numeral_is_read_back(m);
            assert(is_digit(dec(m)[0]));
            if n < 0 {
                assert(ts[0] == seq!['-'] && ts[1] == dec(m));
                assert(!is_digit(seq!['-'][0]));
                assert(ts.skip(2) =~= rest);
            } else {
                assert(ts[0] == dec(m));
                assert(ts.skip(1) =~= rest);
            }
        },
        Term::Sym(s) => {
            let q = quoted(s);
            assert(ts[0] == q);
            assert(q[0] == '"' && q.last() == '"');
            assert(q.subrange(1, q.len() - 1) =~= s);
            assert(ts.skip(1) =~= rest);
        },
    }
}

pub(crate) proof fn expr_is_read(e: Expr, rest: Seq<Seq<char>>)
    requires
        expr_ok(e),
        rest.len() > 0 ==> !is_arith(rest[0]),
    ensures
        read_expr(expr_toks(e) + rest) == Some((e, rest)),
        expr_toks(e).len() > 0,
        !is_name(expr_toks(e)[0]),
{
    reveal(expr_toks);
    reveal(read_expr);
    match e {
        Expr::One(t) => term_is_read(t, rest),
        Expr::Two(t, op, u) => {
            let behind = seq![seq![op]] + term_toks(u) + rest;
            assert(expr_toks(e) + rest =~= term_toks(t) + behind);
            term_is_read(t, behind);
            term_is_read(u, rest);
            assert(behind[0] == seq![op]);
            assert(behind.skip(1) =~= term_toks(u) + rest);
        },
    }
}

pub(crate) proof fn marks_are_no_arithmetic()
    ensures
        !is_arith(seq![')']),
        !is_arith(seq![',']),
        !is_arith(seq!['.']),
        !is_name(seq!['.']),
        seq![')'] != seq![','],
        seq!['.'] != seq![','],
        seq!['.'] != seq![':', '-'],
        seq![':', '-'] != seq!['.'],
{
    assert(seq![')'][0] == ')' && seq![','][0] == ',' && seq!['.'][0] == '.');
    assert(seq![':', '-'].len() == 2);
}

pub(crate) proof fn args_are_read(args: Seq<Expr>, rest: Seq<Seq<char>>)
    requires
        args_ok(args),
    ensures
        read_args(args_toks(args) + rest) == Some((args, rest)),
    decreases args.len(),
{
    reveal(args_toks);
    reveal(read_args);
    marks_are_no_arithmetic();
    let e = args[0];
    let ts = args_toks(args) + rest;
    assert(expr_ok(args[0]));
    if args.len() == 1 {
        let behind = seq![seq![')']] + rest;
        assert(ts =~= expr_toks(e) + behind);
        expr_is_read(e, behind);
        assert(behind.skip(1) =~= rest);
        assert(seq![e] =~= args);
    } else {
        let more = args.skip(1);
        assert forall|i: int| 0 <= i < more.len() implies expr_ok(#[trigger] more[i]) by {
            assert(more[i] == args[i + 1]);
        }
        let behind = seq![seq![',']] + args_toks(more) + rest;
        assert(ts =~= expr_toks(e) + behind);
        expr_is_read(e, behind);
        assert(behind[0] == seq![',']);
        assert(behind.skip(1) =~= args_toks(more) + rest);
        args_are_read(more, rest);
        assert(seq![e] + more =~= args);
    }
}

pub(crate) proof fn atom_is_read(a: Atom, rest: Seq<Seq<char>>)
    requires
        atom_ok(a),
    ensures
        read_atom(atom_toks(a) + rest) == Some((a, rest)),
        atom_toks(a)[0] == a.name,
        atom_toks(a).len() >= 2,
{
    reveal(atom_toks);
    reveal(read_atom);
    let ts = atom_toks(a) + rest;
    assert(ts[0] == a.name && ts[1] == seq!['(']);
    assert(ts.skip(2) =~= args_toks(a.args) + rest);
    args_are_read(a.args, rest);
}

pub(crate) proof fn comparisons_are_no_arithmetic(op: Seq<char>)
    requires
        is_comparison(op),
    ensures
        !is_arith(op),
{
    assert(seq!['='][0] == '=' && seq!['<'][0] == '<' && seq!['>'][0] == '>');
    assert(seq!['!', '='].len() == 2 && seq!['<', '='].len() == 2 && seq!['>', '='].len() == 2);
}

pub(crate) proof fn regrouped(a: Seq<Seq<char>>, b: Seq<Seq<char>>, c: Seq<Seq<char>>, d: Seq<Seq<char>>)
    ensures
        a + b + c + d == a + (b + c + d),
        a + b + c == a + (b + c),
{
    assert(a + b + c + d =~= a + (b + c + d));
    assert(a + b + c =~= a + (b + c));
}

pub(crate) proof fn behind_first(t: Seq<char>, a: Seq<Seq<char>>, b: Seq<Seq<char>>)
    ensures
        (seq![t] + a + b)[0] == t,
        (seq![t] + a + b).skip(1) == a + b,
        (seq![t] + b)[0] == t,
        (seq![t] + b).skip(1) == b,
        (seq![t] + a + b).len() > 0,
{
    assert((seq![t] + a + b).skip(1) =~= a + b);
    assert((seq![t] + b).skip(1) =~= b);
}

pub(crate) proof fn comparison_is_read(op: Seq<char>, x: Expr, y: Expr, rest: Seq<Seq<char>>)
    requires
        is_comparison(op),
        expr_ok(x),
        expr_ok(y),
        rest.len() > 0 ==> !is_arith(rest[0]),
    ensures
        read_literal(expr_toks(x) + seq![op] + expr_toks(y) + rest) == Some((Literal::Compare(op, x, y), rest)),
{
    reveal(read_literal);
    comparisons_are_no_arithmetic(op);
    let b = expr_toks(y);
    let behind = seq![op] + b + rest;
    expr_is_read(y, rest);
    regrouped(expr_toks(x), seq![op], b, rest);
    behind_first(op, b, rest);
    expr_is_read(x, behind);
    let a = expr_toks(x);
    let all = a + behind;
    assert(all[0] == a[0]);
    assert(read_expr(all) == Some((x, behind)));
    assert(read_expr(behind.skip(1)) == Some((y, rest)));
}

pub(crate) proof fn literal_is_read(l: Literal, rest: Seq<Seq<char>>)
    requires
        literal_ok(l),
        rest.len() > 0 ==> !is_arith(rest[0]),
    ensures
        read_literal(literal_toks(l) + rest) == Some((l, rest)),
        literal_toks(l).len() > 0,
{
    reveal(literal_toks);
    reveal(read_literal);
    match l {
        Literal::Holds(a) => {
            atom_is_read(a, rest);
            assert((literal_toks(l) + rest)[0] == a.name);
        },
        Literal::Compare(op, x, y) => comparison_is_read(op, x, y, rest),
    }
}

pub(crate) proof fn body_is_read(body: Seq<Literal>, rest: Seq<Seq<char>>)
    requires
        body.len() > 0,
        forall|i: int| 0 <= i < body.len() ==> literal_ok(#[trigger] body[i]),
    ensures
        read_body(body_toks(body) + rest) == Some((body, rest)),
    decreases body.len(),
{
    reveal(body_toks);
    reveal(read_body);
    marks_are_no_arithmetic();
    let l = body[0];
    assert(literal_ok(body[0]));
    if body.len() == 1 {
        let behind = seq![seq!['.']] + rest;
        regrouped(literal_toks(l), seq![seq!['.']], rest, rest);
        behind_first(seq!['.'], rest, rest);
        literal_is_read(l, behind);
        assert(seq![l] =~= body);
    } else {
        let more = body.skip(1);
        assert forall|i: int| 0 <= i < more.len() implies literal_ok(#[trigger] more[i]) by {
            assert(more[i] == body[i + 1]);
        }
        let behind = seq![seq![',']] + body_toks(more) + rest;
        regrouped(literal_toks(l), seq![seq![',']], body_toks(more), rest);
        behind_first(seq![','], body_toks(more), rest);
        literal_is_read(l, behind);
        body_is_read(more, rest);
        let all = literal_toks(l) + behind;
        assert(behind.len() <= all.len());
        assert(read_literal(all) == Some((l, behind)));
        assert(read_body(behind.skip(1)) == Some((more, rest)));
        assert(seq![l] + more =~= body);
    }
}

pub(crate) proof fn clause_is_read(c: Clause, rest: Seq<Seq<char>>)
    requires
        clause_ok(c),
    ensures
        read_item(clause_toks(c) + rest) == Some((Item::Rule(c), rest)),
        clause_toks(c).len() > 0,
{
    reveal(clause_toks);
    reveal(read_clause);
    reveal(read_item);
    marks_are_no_arithmetic();
    let ts = clause_toks(c) + rest;
    if c.body.len() == 0 {
        let behind = seq![seq!['.']] + rest;
        assert(ts =~= atom_toks(c.head) + behind);
        atom_is_read(c.head, behind);
        assert(behind.skip(1) =~= rest);
        assert(c.body =~= Seq::empty());
    } else {
        let behind = seq![seq![':', '-']] + body_toks(c.body) + rest;
        assert(ts =~= atom_toks(c.head) + behind);
        atom_is_read(c.head, behind);
        assert(behind[0] == seq![':', '-']);
        assert(behind.skip(1) =~= body_toks(c.body) + rest);
        body_is_read(c.body, rest);
    }
    assert(ts[0] == c.head.name);
    assert(ts[0] != seq!['.']);
}

pub(crate) proof fn columns_are_read(types: Seq<(Seq<char>, Seq<char>)>, rest: Seq<Seq<char>>)
    requires
        types.len() > 0,
        forall|i: int| 0 <= i < types.len() ==> is_name((#[trigger] types[i]).0) && is_name(types[i].1),
    ensures
        read_columns(columns_toks(types) + rest) == Some((types.map_values(|t: (Seq<char>, Seq<char>)| t.1), rest)),
    decreases types.len(),
{
    reveal(columns_toks);
    reveal(read_columns);
    marks_are_no_arithmetic();
    let f = |t: (Seq<char>, Seq<char>)| t.1;
    let ts = columns_toks(types) + rest;
    assert(is_name(types[0].0));
    assert(ts[0] == types[0].0 && ts[1] == seq![':'] && ts[2] == types[0].1);
    if types.len() == 1 {
        assert(ts[3] == seq![')']);
        assert(ts.skip(4) =~= rest);
        assert(types.map_values(f) =~= seq![types[0].1]);
    } else {
        let more = types.skip(1);
        assert(ts[3] == seq![',']);
        assert forall|i: int| 0 <= i < more.len() implies is_name((#[trigger] more[i]).0) && is_name(more[i].1) by {
            assert(more[i] == types[i + 1]);
        }
        assert(ts.skip(4) =~= columns_toks(more) + rest);
        columns_are_read(more, rest);
        assert(types.map_values(f) =~= seq![types[0].1] + more.map_values(f));
    }
}

/// The items are read from these tokens, whatever follows.
pub open spec fn written(toks: Seq<Seq<char>>, items: Seq<Item>) -> bool {
    forall|rest: Seq<Seq<char>>|
        read_items(rest) is Some ==> read_items(#[trigger] (toks + rest)) == Some(items + read_items(rest)->0)
}

pub(crate) proof fn written_one(toks: Seq<Seq<char>>, item: Item)
    requires
        toks.len() > 0,
        forall|rest: Seq<Seq<char>>| read_item(#[trigger] (toks + rest)) == Some((item, rest)),
    ensures
        written(toks, seq![item]),
{
    assert forall|rest: Seq<Seq<char>>| read_items(rest) is Some implies read_items(#[trigger] (toks + rest)) == Some(
        seq![item] + read_items(rest)->0,
    ) by {
        assert(read_item(toks + rest) == Some((item, rest)));
    }
}

pub(crate) proof fn written_both(a: Seq<Seq<char>>, x: Seq<Item>, b: Seq<Seq<char>>, y: Seq<Item>)
    requires
        written(a, x),
        written(b, y),
    ensures
        written(a + b, x + y),
{
    assert forall|rest: Seq<Seq<char>>| read_items(rest) is Some implies read_items(#[trigger] (a + b + rest)) == Some(
        x + y + read_items(rest)->0,
    ) by {
        assert(a + b + rest =~= a + (b + rest));
        assert(read_items(b + rest) == Some(y + read_items(rest)->0));
        assert(x + (y + read_items(rest)->0) =~= x + y + read_items(rest)->0);
    }
}

pub(crate) proof fn written_nothing()
    ensures
        written(Seq::empty(), Seq::empty()),
{
    assert forall|rest: Seq<Seq<char>>| read_items(rest) is Some implies read_items(
        #[trigger] (Seq::<Seq<char>>::empty() + rest),
    ) == Some(Seq::<Item>::empty() + read_items(rest)->0) by {
        assert(Seq::<Seq<char>>::empty() + rest =~= rest);
        assert(Seq::<Item>::empty() + read_items(rest)->0 =~= read_items(rest)->0);
    }
}

pub(crate) proof fn written_clause(c: Clause)
    requires
        clause_ok(c),
    ensures
        written(clause_toks(c), seq![Item::Rule(c)]),
{
    assert forall|rest: Seq<Seq<char>>| read_item(#[trigger] (clause_toks(c) + rest)) == Some((Item::Rule(c), rest)) by {
        clause_is_read(c, rest);
    }
    clause_is_read(c, Seq::empty());
    written_one(clause_toks(c), Item::Rule(c));
}

// ---- How a text is cut into tokens.

/// From between two tokens to between two tokens, the text gives these tokens.
pub open spec fn cut(text: Seq<char>, toks: Seq<Seq<char>>) -> bool {
    forall|done: Seq<Seq<char>>| #[trigger] scan(between(done), text) == between(done + toks)
}

pub(crate) proof fn scan_of_sum(st: Scan, a: Seq<char>, b: Seq<char>)
    ensures
        scan(st, a + b) == scan(scan(st, a), b),
    decreases b.len(),
{
    if b.len() == 0 {
        assert(a + b =~= a);
    } else {
        assert((a + b).drop_last() =~= a + b.drop_last());
        scan_of_sum(st, a, b.drop_last());
    }
}

pub(crate) proof fn cut_both(a: Seq<char>, x: Seq<Seq<char>>, b: Seq<char>, y: Seq<Seq<char>>)
    requires
        cut(a, x),
        cut(b, y),
    ensures
        cut(a + b, x + y),
{
    assert forall|done: Seq<Seq<char>>| #[trigger] scan(between(done), a + b) == between(done + (x + y)) by {
        scan_of_sum(between(done), a, b);
        assert(scan(between(done), a) == between(done + x));
        assert(scan(between(done + x), b) == between(done + x + y));
        assert(done + x + y =~= done + (x + y));
    }
}

/// A comment up to the end of its line gives no token.
pub(crate) proof fn comment_scanned(done: Seq<Seq<char>>, body: Seq<char>)
    requires
        !body.contains('\n'),
    ensures
        scan(Scan { done, word: Seq::empty(), mode: Mode::Comment }, body) == (Scan {
            done,
            word: Seq::empty(),
            mode: Mode::Comment,
        }),
    decreases body.len(),
{
    if body.len() > 0 {
        let head = body.drop_last();
        assert(!head.contains('\n')) by {
            if head.contains('\n') {
                let i = choose|i: int| 0 <= i < head.len() && head[i] == '\n';
                assert(body[i] == '\n');
            }
        }
        assert(body[body.len() - 1] == body.last());
        comment_scanned(done, head);
    }
}

pub(crate) proof fn comment_is_cut(body: Seq<char>)
    requires
        !body.contains('\n'),
    ensures
        cut(seq!['/', '/'] + body + seq!['\n'], Seq::empty()),
{
    let all = seq!['/', '/'] + body + seq!['\n'];
    assert forall|done: Seq<Seq<char>>| #[trigger] scan(between(done), all) == between(done + Seq::empty()) by {
        let start = between(done);
        scan_of_sum(start, seq!['/', '/'] + body, seq!['\n']);
        scan_of_sum(start, seq!['/', '/'], body);
        reveal_with_fuel(scan, 3);
        assert(seq!['/', '/'].drop_last() =~= seq!['/']);
        assert(seq!['/'].drop_last() =~= Seq::empty());
        assert(seq!['\n'].drop_last() =~= Seq::empty());
        let inside = Scan { done, word: Seq::<char>::empty(), mode: Mode::Comment };
        assert(scan(start, seq!['/', '/']) == inside);
        comment_scanned(done, body);
        assert(done + Seq::empty() =~= done);
    }
}

/// Spaces between tokens give no token.
pub(crate) proof fn spaces_are_cut(s: Seq<char>)
    requires
        forall|i: int| 0 <= i < s.len() ==> is_space(#[trigger] s[i]),
    ensures
        cut(s, Seq::empty()),
    decreases s.len(),
{
    if s.len() > 0 {
        let head = s.drop_last();
        assert forall|i: int| 0 <= i < head.len() implies is_space(#[trigger] head[i]) by {
            assert(head[i] == s[i]);
        }
        spaces_are_cut(head);
    }
    assert forall|done: Seq<Seq<char>>| #[trigger] scan(between(done), s) == between(done + Seq::empty()) by {
        assert(done + Seq::empty() =~= done);
        if s.len() > 0 {
            assert(scan(between(done), s.drop_last()) == between(done + Seq::empty()));
            assert(is_space(s[s.len() - 1]));
        }
    }
}

/// The text is a part of a program with these items.
pub open spec fn spells(text: Seq<char>, items: Seq<Item>) -> bool {
    exists|toks: Seq<Seq<char>>| #[trigger] cut(text, toks) && written(toks, items)
}

pub(crate) proof fn spells_both(a: Seq<char>, x: Seq<Item>, b: Seq<char>, y: Seq<Item>)
    requires
        spells(a, x),
        spells(b, y),
    ensures
        spells(a + b, x + y),
{
    let t = choose|toks: Seq<Seq<char>>| #[trigger] cut(a, toks) && written(toks, x);
    let u = choose|toks: Seq<Seq<char>>| #[trigger] cut(b, toks) && written(toks, y);
    cut_both(a, t, b, u);
    written_both(t, x, u, y);
}

/// A text without tokens says nothing.
pub(crate) proof fn spells_nothing(text: Seq<char>)
    requires
        cut(text, Seq::empty()),
    ensures
        spells(text, Seq::empty()),
{
    written_nothing();
}

pub(crate) proof fn spells_behind_blank(a: Seq<char>, b: Seq<char>, y: Seq<Item>)
    requires
        cut(a, Seq::empty()),
        spells(b, y),
    ensures
        spells(a + b, y),
        spells(b + a, y),
{
    spells_nothing(a);
    spells_both(a, Seq::empty(), b, y);
    spells_both(b, y, a, Seq::empty());
    assert(Seq::<Item>::empty() + y =~= y);
    assert(y + Seq::<Item>::empty() =~= y);
}

pub(crate) proof fn spells_clause(text: Seq<char>, c: Clause)
    requires
        clause_ok(c),
        cut(text, clause_toks(c)),
    ensures
        spells(text, seq![Item::Rule(c)]),
{
    written_clause(c);
}

/// A whole text that spells the items is that program.
pub(crate) proof fn spelled_is_read(text: Seq<char>, items: Seq<Item>)
    requires
        spells(text, items),
    ensures
        program_of(text) == Some(items),
{
    let t = choose|toks: Seq<Seq<char>>| #[trigger] cut(text, toks) && written(toks, items);
    let none = Seq::<Seq<char>>::empty();
    assert(scan(between(none), text) == between(none + t));
    assert(none + t =~= t);
    assert(t + none =~= t);
    assert(read_items(none) == Some(Seq::<Item>::empty()));
    assert(items + Seq::<Item>::empty() =~= items);
    assert(read_items(t + none) == Some(items));
}

/// No line ends within the text.
pub open spec fn plain(s: Seq<char>) -> bool {
    forall|i: int| 0 <= i < s.len() ==> #[trigger] s[i] != '\n'
}

pub open spec fn in_comment(done: Seq<Seq<char>>) -> Scan {
    Scan { done, word: Seq::empty(), mode: Mode::Comment }
}

pub(crate) proof fn comment_goes_on(done: Seq<Seq<char>>, s: Seq<char>)
    requires
        plain(s),
    ensures
        scan(in_comment(done), s) == in_comment(done),
{
    assert(!s.contains('\n'));
    comment_scanned(done, s);
}

pub(crate) proof fn comment_ends(done: Seq<Seq<char>>, s: Seq<char>)
    requires
        s.len() > 0,
        plain(s.drop_last()),
        s.last() == '\n',
    ensures
        scan(in_comment(done), s) == between(done),
{
    comment_goes_on(done, s.drop_last());
}

/// A line that is a comment.
pub open spec fn is_remark(s: Seq<char>) -> bool {
    s.len() > 2 && s[0] == '/' && s[1] == '/' && s.last() == '\n' && forall|i: int|
        2 <= i < s.len() - 1 ==> #[trigger] s[i] != '\n'
}

pub(crate) proof fn remark_is_cut(s: Seq<char>)
    requires
        is_remark(s),
    ensures
        cut(s, Seq::empty()),
{
    let body = s.subrange(2, s.len() - 1);
    assert forall|i: int| 0 <= i < body.len() implies body[i] != '\n' by {
        assert(body[i] == s[i + 2]);
    }
    assert(!body.contains('\n'));
    comment_is_cut(body);
    assert(seq!['/', '/'] + body + seq!['\n'] =~= s);
}

/// Spaces, then a line that is a comment.
pub(crate) proof fn spaced_remark_is_cut(s: Seq<char>, k: int)
    requires
        0 <= k,
        k + 2 < s.len(),
        forall|i: int| 0 <= i < k ==> is_space(#[trigger] s[i]),
        s[k] == '/',
        s[k + 1] == '/',
        s.last() == '\n',
        forall|i: int| k + 2 <= i < s.len() - 1 ==> #[trigger] s[i] != '\n',
    ensures
        cut(s, Seq::empty()),
{
    let a = s.take(k);
    let b = s.skip(k);
    assert forall|i: int| 0 <= i < a.len() implies is_space(#[trigger] a[i]) by {
        assert(a[i] == s[i]);
    }
    assert forall|i: int| 2 <= i < b.len() - 1 implies #[trigger] b[i] != '\n' by {
        assert(b[i] == s[i + k]);
    }
    spaces_are_cut(a);
    remark_is_cut(b);
    cut_both(a, Seq::empty(), b, Seq::empty());
    assert(a + b =~= s);
    assert(Seq::<Seq<char>>::empty() + Seq::<Seq<char>>::empty() =~= Seq::empty());
}

/// A comment that is begun.
pub(crate) proof fn comment_starts(done: Seq<Seq<char>>, s: Seq<char>)
    requires
        s.len() >= 2,
        s[0] == '/',
        s[1] == '/',
        plain(s),
    ensures
        scan(between(done), s) == in_comment(done),
{
    let a = s.take(2);
    let b = s.skip(2);
    assert forall|i: int| 0 <= i < b.len() implies #[trigger] b[i] != '\n' by {
        assert(b[i] == s[i + 2]);
    }
    assert(s =~= a + b);
    scan_of_sum(between(done), a, b);
    reveal_with_fuel(scan, 3);
    assert(a.drop_last() =~= seq!['/']);
    assert(seq!['/'].drop_last() =~= Seq::empty());
    assert(scan(between(done), a) == in_comment(done));
    comment_goes_on(done, b);
}

/// A closing bracket, a period and spaces behind a word.
pub(crate) proof fn fact_ends(done: Seq<Seq<char>>, word: Seq<char>, s: Seq<char>)
    requires
        word.len() > 0,
        is_word_char(word.last()),
        s.len() > 2,
        s[0] == ')',
        s[1] == '.',
        forall|i: int| 2 <= i < s.len() ==> is_space(#[trigger] s[i]),
    ensures
        scan(Scan { done, word, mode: Mode::Code }, s) == between(done + seq![word, seq![')'], seq!['.']]),
{
    let st = Scan { done, word, mode: Mode::Code };
    let a = s.take(3);
    let b = s.skip(3);
    assert forall|i: int| 0 <= i < b.len() implies is_space(#[trigger] b[i]) by {
        assert(b[i] == s[i + 3]);
    }
    assert(s =~= a + b);
    scan_of_sum(st, a, b);
    reveal_with_fuel(scan, 5);
    assert(is_space(s[2]));
    assert(a.drop_last() =~= seq![')', '.']);
    assert(seq![')', '.'].drop_last() =~= seq![')']);
    assert(seq![')'].drop_last() =~= Seq::empty());
    let r = scan(st, a);
    assert(r.done =~~= done + seq![word, seq![')'], seq!['.']]);
    assert(r.word =~= Seq::empty());
    spaces_are_cut(b);
    assert(scan(between(r.done), b) == between(r.done + Seq::empty()));
    assert(r.done + Seq::<Seq<char>>::empty() =~= r.done);
}

/// A numeral that follows no word is a token of its own.
pub(crate) proof fn numeral_scanned(st: Scan, n: nat)
    requires
        st.mode is Code,
        st.word.len() > 0 ==> !is_word_char(st.word.last()),
    ensures
        scan(st, dec(n)) == (Scan { done: flushed(st), word: dec(n), mode: Mode::Code }),
    decreases n,
{
    numeral_is_read_back(n);
    assert(is_digit(dec(n).last()));
    if n >= 10 {
        numeral_scanned(st, n / 10);
        numeral_is_read_back(n / 10);
        assert(is_digit(dec(n / 10).last()));
        assert(dec(n).drop_last() =~= dec(n / 10));
        assert(dec(n / 10).push(dec(n).last()) =~= dec(n));
    } else {
        assert(dec(n).drop_last() =~= Seq::empty());
        assert(scan(st, Seq::empty()) == st);
        assert(seq![dec(n).last()] =~= dec(n));
    }
}

pub(crate) proof fn integer_scanned(st: Scan, v: int)
    requires
        st.mode is Code,
        st.word.len() > 0 ==> !is_word_char(st.word.last()) && st.word != seq![':'],
    ensures
        scan(st, int_text(v)) == (Scan {
            done: flushed(st) + num_toks(v).drop_last(),
            word: num_toks(v).last(),
            mode: Mode::Code,
        }),
{
    if v < 0 {
        let sign = seq!['-'];
        scan_of_sum(st, sign, dec((-v) as nat));
        assert(sign.drop_last() =~= Seq::empty());
        assert(scan(st, Seq::empty()) == st);
        assert(sign.last() == '-');
        assert(st.word.len() == 1 && st.word[0] == ':' ==> st.word =~= seq![':']);
        let mid = Scan { done: flushed(st), word: sign, mode: Mode::Code };
        assert(scan(st, sign) == mid);
        numeral_scanned(mid, (-v) as nat);
        assert(num_toks(v).drop_last() =~= seq![sign]);
        assert(flushed(mid) =~= flushed(st) + seq![sign]);
    } else {
        numeral_scanned(st, v as nat);
        assert(num_toks(v).drop_last() =~= Seq::empty());
        assert(flushed(st) + Seq::<Seq<char>>::empty() =~= flushed(st));
    }
}

/// Text between quotes is taken as it is.
pub(crate) proof fn quote_goes_on(done: Seq<Seq<char>>, word: Seq<char>, s: Seq<char>)
    requires
        forall|i: int| 0 <= i < s.len() ==> #[trigger] s[i] != '"',
    ensures
        scan(Scan { done, word, mode: Mode::Quote }, s) == (Scan { done, word: word + s, mode: Mode::Quote }),
    decreases s.len(),
{
    if s.len() > 0 {
        let head = s.drop_last();
        assert forall|i: int| 0 <= i < head.len() implies #[trigger] head[i] != '"' by {
            assert(head[i] == s[i]);
        }
        quote_goes_on(done, word, head);
        assert(s[s.len() - 1] != '"');
        assert((word + head).push(s.last()) =~= word + s);
    } else {
        assert(word + s =~= word);
    }
}

} // verus!
