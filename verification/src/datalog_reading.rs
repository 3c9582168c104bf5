//! A reading of Datalog programs: how a text is cut into tokens, how the tokens make declarations, facts and rules, and
//! what the facts and rules derive.
use vstd::prelude::*;
use crate::text::{all_digits, digits_value, is_alpha, is_digit};

verus! {

/// What the next character of a program text belongs to.
pub enum Mode {
    Code,
    Quote,
    Comment,
}

/// A text that is read up to some place: the tokens so far, and the one that is begun.
pub struct Scan {
    pub done: Seq<Seq<char>>,
    pub word: Seq<char>,
    pub mode: Mode,
}

pub open spec fn is_word_char(c: char) -> bool {
    is_alpha(c) || is_digit(c) || c == '_'
}

pub open spec fn is_space(c: char) -> bool {
    c == ' ' || c == '\n' || c == '\t'
}

/// The character goes on with the token that is begun: a word, a mark of two characters, or the two strokes of a comment.
pub open spec fn joins(word: Seq<char>, c: char) -> bool {
    if word.len() == 0 {
        false
    } else if is_word_char(word.last()) {
        is_word_char(c)
    } else if word.len() == 1 {
        (word[0] == ':' && c == '-') || (word[0] == '/' && c == '/') || ((word[0] == '<' || word[0] == '>' || word[0] == '!')
            && c == '=')
    } else {
        false
    }
}

/// The tokens with the one that is begun, if there is one.
pub open spec fn flushed(st: Scan) -> Seq<Seq<char>> {
    if st.word.len() == 0 { st.done } else { st.done.push(st.word) }
}

/// Nothing is begun.
pub open spec fn between(done: Seq<Seq<char>>) -> Scan {
    Scan { done, word: Seq::empty(), mode: Mode::Code }
}

/// Reads one character. A quoted token keeps its quotes; a comment lasts to the end of its line.
pub open spec fn read_char(st: Scan, c: char) -> Scan {
    match st.mode {
        Mode::Comment => if c == '\n' { between(st.done) } else { st },
        Mode::Quote => if c == '"' {
            between(st.done.push(st.word.push(c)))
        } else {
            Scan { done: st.done, word: st.word.push(c), mode: Mode::Quote }
        },
        Mode::Code => if c == '"' {
            Scan { done: flushed(st), word: seq![c], mode: Mode::Quote }
        } else if is_space(c) {
            between(flushed(st))
        } else if joins(st.word, c) {
            if c == '/' {
                Scan { done: st.done, word: Seq::empty(), mode: Mode::Comment }
            } else {
                Scan { done: st.done, word: st.word.push(c), mode: Mode::Code }
            }
        } else {
            Scan { done: flushed(st), word: seq![c], mode: Mode::Code }
        },
    }
}

pub open spec fn scan(st: Scan, s: Seq<char>) -> Scan
    decreases s.len(),
{
    if s.len() == 0 { st } else { read_char(scan(st, s.drop_last()), s.last()) }
}

/// The tokens of a text.
pub open spec fn tokens(s: Seq<char>) -> Seq<Seq<char>> {
    flushed(scan(between(Seq::empty()), s))
}

/// A term: a variable, a number, or a quoted symbol.
pub enum Term {
    Var(Seq<char>),
    Num(int),
    Sym(Seq<char>),
}

/// An argument: a term, or two with an arithmetic mark between.
pub enum Expr {
    One(Term),
    Two(Term, char, Term),
}

pub struct Atom {
    pub name: Seq<char>,
    pub args: Seq<Expr>,
}

/// A condition of a rule: a relation holds, or a comparison does.
pub enum Literal {
    Holds(Atom),
    Compare(Seq<char>, Expr, Expr),
}

/// A fact, or a rule with its conditions.
pub struct Clause {
    pub head: Atom,
    pub body: Seq<Literal>,
}

/// What a program is made of: declared relations with the types of their columns, relations that are put out, and clauses.
pub enum Item {
    Decl(Seq<char>, Seq<Seq<char>>),
    Output(Seq<char>),
    Rule(Clause),
}

/// What is left to read behind something.
pub type Rest<T> = Option<(T, Seq<Seq<char>>)>;

/// A name of a relation or a type.
pub open spec fn is_name(t: Seq<char>) -> bool {
    t.len() > 0 && 'a' <= t[0] && t[0] <= 'z'
}

pub open spec fn is_var(t: Seq<char>) -> bool {
    t.len() > 0 && 'A' <= t[0] && t[0] <= 'Z'
}

pub open spec fn is_numeral(t: Seq<char>) -> bool {
    t.len() > 0 && all_digits(t)
}

pub open spec fn is_quoted(t: Seq<char>) -> bool {
    t.len() >= 2 && t[0] == '"' && t.last() == '"'
}

pub open spec fn is_arith(t: Seq<char>) -> bool {
    t.len() == 1 && (t[0] == '+' || t[0] == '-' || t[0] == '*' || t[0] == '/')
}

pub open spec fn is_comparison(t: Seq<char>) -> bool {
    t == seq!['='] || t == seq!['!', '='] || t == seq!['<'] || t == seq!['>'] || t == seq!['<', '='] || t == seq!['>', '=']
}

/// The tokens start with this one.
pub open spec fn starts(ts: Seq<Seq<char>>, t: Seq<char>) -> bool {
    ts.len() > 0 && ts[0] == t
}

#[verifier::opaque]
pub open spec fn read_term(ts: Seq<Seq<char>>) -> Rest<Term> {
    if ts.len() == 0 {
        None
    } else if is_quoted(ts[0]) {
        Some((Term::Sym(ts[0].subrange(1, ts[0].len() - 1)), ts.skip(1)))
    } else if is_numeral(ts[0]) {
        Some((Term::Num(digits_value(ts[0]) as int), ts.skip(1)))
    } else if ts[0] == seq!['-'] && ts.len() > 1 && is_numeral(ts[1]) {
        Some((Term::Num(-(digits_value(ts[1]) as int)), ts.skip(2)))
    } else if is_var(ts[0]) {
        Some((Term::Var(ts[0]), ts.skip(1)))
    } else {
        None
    }
}

#[verifier::opaque]
pub open spec fn read_expr(ts: Seq<Seq<char>>) -> Rest<Expr> {
    match read_term(ts) {
        None => None,
        Some((t, r)) => if r.len() > 0 && is_arith(r[0]) {
            match read_term(r.skip(1)) {
                None => None,
                Some((u, q)) => Some((Expr::Two(t, r[0][0], u), q)),
            }
        } else {
            Some((Expr::One(t), r))
        },
    }
}

/// Arguments with commas between, up to the closing bracket.
#[verifier::opaque]
pub open spec fn read_args(ts: Seq<Seq<char>>) -> Rest<Seq<Expr>>
    decreases ts.len(),
{
    match read_expr(ts) {
        None => None,
        Some((e, r)) => if starts(r, seq![')']) {
            Some((seq![e], r.skip(1)))
        } else if starts(r, seq![',']) && r.len() <= ts.len() {
            match read_args(r.skip(1)) {
                None => None,
                Some((es, q)) => Some((seq![e] + es, q)),
            }
        } else {
            None
        },
    }
}

#[verifier::opaque]
pub open spec fn read_atom(ts: Seq<Seq<char>>) -> Rest<Atom> {
    if ts.len() > 1 && is_name(ts[0]) && ts[1] == seq!['('] {
        match read_args(ts.skip(2)) {
            None => None,
            Some((args, r)) => Some((Atom { name: ts[0], args }, r)),
        }
    } else {
        None
    }
}

#[verifier::opaque]
pub open spec fn read_literal(ts: Seq<Seq<char>>) -> Rest<Literal> {
    if ts.len() > 0 && is_name(ts[0]) {
        match read_atom(ts) {
            None => None,
            Some((a, r)) => Some((Literal::Holds(a), r)),
        }
    } else {
        match read_expr(ts) {
            None => None,
            Some((x, r)) => if r.len() > 0 && is_comparison(r[0]) {
                match read_expr(r.skip(1)) {
                    None => None,
                    Some((y, q)) => Some((Literal::Compare(r[0], x, y), q)),
                }
            } else {
                None
            },
        }
    }
}

/// Conditions with commas between, up to the period.
#[verifier::opaque]
pub open spec fn read_body(ts: Seq<Seq<char>>) -> Rest<Seq<Literal>>
    decreases ts.len(),
{
    match read_literal(ts) {
        None => None,
        Some((l, r)) => if starts(r, seq!['.']) {
            Some((seq![l], r.skip(1)))
        } else if starts(r, seq![',']) && r.len() <= ts.len() {
            match read_body(r.skip(1)) {
                None => None,
                Some((ls, q)) => Some((seq![l] + ls, q)),
            }
        } else {
            None
        },
    }
}

#[verifier::opaque]
pub open spec fn read_clause(ts: Seq<Seq<char>>) -> Rest<Clause> {
    match read_atom(ts) {
        None => None,
        Some((head, r)) => if starts(r, seq!['.']) {
            Some((Clause { head, body: Seq::empty() }, r.skip(1)))
        } else if starts(r, seq![':', '-']) {
            match read_body(r.skip(1)) {
                None => None,
                Some((body, q)) => Some((Clause { head, body }, q)),
            }
        } else {
            None
        },
    }
}

/// Declared columns, each a name with its type behind a colon, up to the closing bracket; the types.
#[verifier::opaque]
pub open spec fn read_columns(ts: Seq<Seq<char>>) -> Rest<Seq<Seq<char>>>
    decreases ts.len(),
{
    if ts.len() > 3 && is_name(ts[0]) && ts[1] == seq![':'] && is_name(ts[2]) {
        if ts[3] == seq![')'] {
            Some((seq![ts[2]], ts.skip(4)))
        } else if ts[3] == seq![','] {
            match read_columns(ts.skip(4)) {
                None => None,
                Some((types, q)) => Some((seq![ts[2]] + types, q)),
            }
        } else {
            None
        }
    } else {
        None
    }
}

#[verifier::opaque]
pub open spec fn read_item(ts: Seq<Seq<char>>) -> Rest<Item> {
    if starts(ts, seq!['.']) {
        if ts.len() > 3 && ts[1] == "decl"@ && is_name(ts[2]) && ts[3] == seq!['('] {
            match read_columns(ts.skip(4)) {
                None => None,
                Some((types, r)) => Some((Item::Decl(ts[2], types), r)),
            }
        } else if ts.len() > 2 && ts[1] == "output"@ && is_name(ts[2]) {
            Some((Item::Output(ts[2]), ts.skip(3)))
        } else {
            None
        }
    } else {
        match read_clause(ts) {
            None => None,
            Some((c, r)) => Some((Item::Rule(c), r)),
        }
    }
}

pub open spec fn read_items(ts: Seq<Seq<char>>) -> Option<Seq<Item>>
    decreases ts.len(),
{
    if ts.len() == 0 {
        Some(Seq::empty())
    } else {
        match read_item(ts) {
            None => None,
            Some((item, r)) => if r.len() < ts.len() {
                match read_items(r) {
                    None => None,
                    Some(items) => Some(seq![item] + items),
                }
            } else {
                None
            },
        }
    }
}

/// The program that a text is, if it is one.
pub open spec fn program_of(text: Seq<char>) -> Option<Seq<Item>> {
    read_items(tokens(text))
}

/// A value of a column.
pub enum Val {
    Sym(Seq<char>),
    Num(int),
}

/// What the variables of a clause stand for.
pub type Env = spec_fn(Seq<char>) -> Val;

pub open spec fn term_val(t: Term, env: Env) -> Val {
    match t {
        Term::Var(x) => env(x),
        Term::Num(n) => Val::Num(n),
        Term::Sym(s) => Val::Sym(s),
    }
}

pub open spec fn magnitude(x: int) -> int {
    if x < 0 { -x } else { x }
}

/// Division that rounds toward zero.
pub open spec fn divided(x: int, y: int) -> int {
    let q = magnitude(x) / magnitude(y);
    if (x < 0) == (y < 0) { q } else { -q }
}

/// The value of an argument; arithmetic is on numbers, and nothing is divided by zero.
pub open spec fn expr_val(e: Expr, env: Env) -> Option<Val> {
    match e {
        Expr::One(t) => Some(term_val(t, env)),
        Expr::Two(t, op, u) => match (term_val(t, env), term_val(u, env)) {
            (Val::Num(x), Val::Num(y)) => if op == '+' {
                Some(Val::Num(x + y))
            } else if op == '-' {
                Some(Val::Num(x - y))
            } else if op == '*' {
                Some(Val::Num(x * y))
            } else if op == '/' && y != 0 {
                Some(Val::Num(divided(x, y)))
            } else {
                None
            },
            _ => None,
        },
    }
}

pub open spec fn compares(op: Seq<char>, a: Val, b: Val) -> bool {
    if op == seq!['='] {
        a == b
    } else if op == seq!['!', '='] {
        a != b
    } else {
        match (a, b) {
            (Val::Num(x), Val::Num(y)) => if op == seq!['<'] {
                x < y
            } else if op == seq!['>'] {
                x > y
            } else if op == seq!['<', '='] {
                x <= y
            } else {
                op == seq!['>', '='] && x >= y
            },
            _ => false,
        }
    }
}

/// Every argument has a value.
pub open spec fn have_values(args: Seq<Expr>, env: Env) -> bool {
    forall|i: int| 0 <= i < args.len() ==> #[trigger] expr_val(args[i], env) is Some
}

pub open spec fn values(args: Seq<Expr>, env: Env) -> Seq<Val> {
    Seq::new(args.len(), |i: int| expr_val(args[i], env)->0)
}

/// The relation holds of the values, by a derivation of at most `n` steps.
pub open spec fn derivable(items: Seq<Item>, name: Seq<char>, vals: Seq<Val>, n: nat) -> bool
    decreases n, 0nat,
{
    n > 0 && exists|c: Clause, env: Env|
        #![trigger values(c.head.args, env)]
        fires(items, c, env, name, vals, (n - 1) as nat)
}

/// A clause of the program gives the relation for the values, when its variables stand for what `env` says.
pub open spec fn fires(items: Seq<Item>, c: Clause, env: Env, name: Seq<char>, vals: Seq<Val>, n: nat) -> bool
    decreases n, 2nat,
{
    &&& items.contains(Item::Rule(c))
    &&& c.head.name == name
    &&& have_values(c.head.args, env)
    &&& values(c.head.args, env) == vals
    &&& forall|i: int| 0 <= i < c.body.len() ==> is_met(items, #[trigger] c.body[i], env, n)
}

/// A condition of a clause is met.
pub open spec fn is_met(items: Seq<Item>, l: Literal, env: Env, n: nat) -> bool
    decreases n, 1nat,
{
    match l {
        Literal::Holds(a) => have_values(a.args, env) && derivable(items, a.name, values(a.args, env), n),
        Literal::Compare(op, x, y) => match (expr_val(x, env), expr_val(y, env)) {
            (Some(a), Some(b)) => compares(op, a, b),
            _ => false,
        },
    }
}

/// The relation holds of the values, by some derivation.
pub open spec fn is_derived(items: Seq<Item>, name: Seq<char>, vals: Seq<Val>) -> bool {
    exists|n: nat| derivable(items, name, vals, n)
}

/// The text is a program, and it derives that the relation holds of the values.
pub open spec fn text_derives(text: Seq<char>, name: Seq<char>, vals: Seq<Val>) -> bool {
    program_of(text) matches Some(items) && is_derived(items, name, vals)
}

/// What the variables of a clause range over: the name of a type for each.
pub type Kinds = spec_fn(Seq<char>) -> Seq<char>;

pub open spec fn term_kind(t: Term, kinds: Kinds) -> Seq<char> {
    match t {
        Term::Var(x) => kinds(x),
        Term::Num(_) => "number"@,
        Term::Sym(_) => "symbol"@,
    }
}

/// The type of an argument; arithmetic is on numbers.
pub open spec fn expr_kind(e: Expr, kinds: Kinds) -> Option<Seq<char>> {
    match e {
        Expr::One(t) => Some(term_kind(t, kinds)),
        Expr::Two(t, _, u) => if term_kind(t, kinds) == "number"@ && term_kind(u, kinds) == "number"@ {
            Some("number"@)
        } else {
            None
        },
    }
}

/// The relation is declared, with a column of the right type for each argument.
pub open spec fn is_declared(items: Seq<Item>, a: Atom, kinds: Kinds) -> bool {
    exists|types: Seq<Seq<char>>| #[trigger]
        items.contains(Item::Decl(a.name, types)) && types.len() == a.args.len() && forall|i: int|
            0 <= i < types.len() ==> expr_kind(#[trigger] a.args[i], kinds) == Some(types[i])
}

pub open spec fn is_typed(items: Seq<Item>, l: Literal, kinds: Kinds) -> bool {
    match l {
        Literal::Holds(a) => is_declared(items, a, kinds),
        Literal::Compare(_, x, y) => expr_kind(x, kinds) is Some && expr_kind(x, kinds) == expr_kind(y, kinds),
    }
}

/// The clause speaks of declared relations only, and gives each of its variables one type.
pub open spec fn is_well_typed(items: Seq<Item>, c: Clause, kinds: Kinds) -> bool {
    is_declared(items, c.head, kinds) && forall|i: int| 0 <= i < c.body.len() ==> is_typed(items, #[trigger] c.body[i], kinds)
}

/// No relation is declared twice, what is put out is declared, and every clause is well typed.
pub open spec fn is_well_declared(items: Seq<Item>) -> bool {
    &&& forall|i: int, j: int|
        0 <= i < j < items.len() && #[trigger] items[i] is Decl && #[trigger] items[j] is Decl ==> items[i]->Decl_0
            != items[j]->Decl_0
    &&& forall|name: Seq<char>| #[trigger]
        items.contains(Item::Output(name)) ==> exists|types: Seq<Seq<char>>| items.contains(Item::Decl(name, types))
    &&& forall|c: Clause| #[trigger] items.contains(Item::Rule(c)) ==> exists|kinds: Kinds| is_well_typed(items, c, kinds)
}

} // verus!
