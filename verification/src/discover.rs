//! Discovery of an operator from behaviour: a symbol is taught by examples, the model is asked for its values, and
//! the operators of a basis are ranked by how much of the observed table each of them reproduces.
use vstd::prelude::*;
use crate::battery::{share_at_least, share_ge};
use crate::measure::clean_program;
use crate::recursion_dl::Abduction;
use crate::recursion_probe::{bounded_result, draw_leaf, leaf_value, meaning, shuffled};
use crate::text::{chars_of, int_text, push_i64};

verus! {

/// The operators that are tried, in the order in which they are tried.
pub open spec fn basis_ops() -> Seq<char> {
    seq!['+', '-', '*', '/', '<', '>', '%']
}

pub fn basis() -> (v: Vec<char>)
    ensures
        v@ == basis_ops(),
{
    vec!['+', '-', '*', '/', '<', '>', '%']
}

pub open spec fn op_name_text(op: char) -> Seq<char> {
    if op == '+' {
        "add"@
    } else if op == '-' {
        "sub"@
    } else if op == '*' {
        "mul"@
    } else if op == '/' {
        "div"@
    } else if op == '<' {
        "min"@
    } else if op == '>' {
        "max"@
    } else if op == '%' {
        "mod"@
    } else {
        ""@
    }
}

/// The name of an operator of the basis.
pub fn op_name(op: char) -> (s: &'static str)
    ensures
        s@ == op_name_text(op),
{
    if op == '+' {
        "add"
    } else if op == '-' {
        "sub"
    } else if op == '*' {
        "mul"
    } else if op == '/' {
        "div"
    } else if op == '<' {
        "min"
    } else if op == '>' {
        "max"
    } else if op == '%' {
        "mod"
    } else {
        ""
    }
}

/// The operator that is taught: the one asked for if the basis has it, else addition.
pub fn taught_op(asked: char) -> (op: char)
    ensures
        op == (if basis_ops().contains(asked) { asked } else { '+' }),
{
    let b = basis();
    for i in 0..b.len()
        invariant
            b@ == basis_ops(),
            forall|k: int| 0 <= k < i ==> b@[k] != asked,
    {
        if b[i] == asked {
            assert(basis_ops()[i as int] == asked);
            return asked;
        }
    }
    '+'
}

/// An application of the symbol to two numbers.
pub open spec fn application_text(sym: char, a: i64, b: i64) -> Seq<char> {
    "("@ + seq![sym, ' '] + int_text(a as int) + " "@ + int_text(b as int) + ")"@
}

/// A solved example.
pub open spec fn example_text(sym: char, a: i64, b: i64, v: i64) -> Seq<char> {
    application_text(sym, a, b) + " = "@ + int_text(v as int) + "\n"@
}

fn push_application(out: &mut String, sym: char, a: i64, b: i64)
    ensures
        final(out)@ == old(out)@ + application_text(sym, a, b),
{
    out.append("(");
    out.push(sym);
    out.push(' ');
    push_i64(out, a);
    out.append(" ");
    push_i64(out, b);
    out.append(")");
    assert(out@ =~= old(out)@ + application_text(sym, a, b));
}

/// The examples that are drawn until there are `k` of them, with at most `tries` draws: each pair of numbers whose
/// result is a number from 0 to `maxv` makes an example.
pub open spec fn lesson(sym: char, op: char, maxv: i64, seed: u64, k: nat, tries: nat) -> (Seq<char>, u64)
    decreases tries,
{
    if k == 0 || tries == 0 {
        (Seq::empty(), seed)
    } else {
        let s1 = shuffled(seed);
        let s2 = shuffled(s1);
        let a = leaf_value(s1, maxv);
        let b = leaf_value(s2, maxv);
        match meaning(op, a, b) {
            Some(v) => if 0 <= v <= maxv {
                let (rest, s) = lesson(sym, op, maxv, s2, (k - 1) as nat, (tries - 1) as nat);
                (example_text(sym, a, b, v as i64) + rest, s)
            } else {
                lesson(sym, op, maxv, s2, k, (tries - 1) as nat)
            },
            None => lesson(sym, op, maxv, s2, k, (tries - 1) as nat),
        }
    }
}

/// Draws the eight examples that teach the symbol.
pub fn teach(sym: char, op: char, maxv: i64, r: &mut u64) -> (text: String)
    requires
        0 <= maxv,
    ensures
        (text@, *final(r)) == lesson(sym, op, maxv, *old(r), 8, 2000),
{
    let mut text = String::new();
    let mut k: usize = 8;
    let mut tries: usize = 2000;
    let ghost all = lesson(sym, op, maxv, *r, 8, 2000);
    assert(text@ + all.0 =~= all.0);
    while k > 0 && tries > 0
        invariant
            0 <= maxv,
            text@ + lesson(sym, op, maxv, *r, k as nat, tries as nat).0 == all.0,
            lesson(sym, op, maxv, *r, k as nat, tries as nat).1 == all.1,
        decreases tries,
    {
        let ghost before = text@;
        let ghost here = lesson(sym, op, maxv, *r, k as nat, tries as nat);
        let a: i64 = draw_leaf(maxv, r);
        let b: i64 = draw_leaf(maxv, r);
        tries -= 1;
        if let Some(v) = bounded_result(op, a, b, maxv) {
            push_application(&mut text, sym, a, b);
            text.append(" = ");
            push_i64(&mut text, v);
            text.append("\n");
            k -= 1;
            proof {
                let rest = lesson(sym, op, maxv, *r, k as nat, tries as nat);
                assert(here.0 == example_text(sym, a, b, v) + rest.0);
                assert(before + (example_text(sym, a, b, v) + rest.0) =~= text@ + rest.0);
            }
        }
    }
    assert(text@ + Seq::<char>::empty() =~= text@);
    text
}

/// A question for the value of the symbol on two numbers, behind what was taught.
pub fn flat_question(prime: &str, sym: char, a: i64, b: i64) -> (q: String)
    ensures
        q@ == prime@ + application_text(sym, a, b) + " ="@,
{
    let mut q = String::from_str(prime);
    push_application(&mut q, sym, a, b);
    q.append(" =");
    q
}

/// How many observations the operator reproduces, among those on which it is defined: `(reproduced, defined)`.
pub open spec fn table_match(op: char, seen: Seq<(i64, i64, i64)>) -> (nat, nat)
    decreases seen.len(),
{
    if seen.len() == 0 {
        (0, 0)
    } else {
        let (m, d) = table_match(op, seen.drop_last());
        let (a, b, obs) = seen.last();
        match meaning(op, a, b) {
            Some(v) => (if v == obs { m + 1 } else { m }, d + 1),
            None => (m, d),
        }
    }
}

/// Whether the operator is defined on two numbers, and whether its value is the one observed.
fn observed(op: char, a: i64, b: i64, obs: i64) -> (r: (bool, bool))
    requires
        0 <= a,
        0 <= b,
        basis_ops().contains(op),
    ensures
        r.0 == (meaning(op, a, b) is Some),
        r.1 == (meaning(op, a, b) == Some(obs as int)),
{
    let defined = (op != '-' || a >= b) && (op != '/' || (b != 0 && a as u64 % b as u64 == 0)) && (op != '%' || b != 0);
    let equal = match bounded_result(op, a, b, i64::MAX) {
        Some(v) => v == obs,
        None => false,
    };
    assert(equal ==> meaning(op, a, b) == Some(obs as int));
    assert(meaning(op, a, b) == Some(obs as int) ==> obs >= 0) by {
        if let Some(v) = meaning(op, a, b) {
            results_are_natural(op, a, b);
        }
    }
    (defined, equal)
}

proof fn results_are_natural(op: char, a: i64, b: i64)
    requires
        0 <= a,
        0 <= b,
        basis_ops().contains(op),
        meaning(op, a, b) is Some,
    ensures
        meaning(op, a, b)->0 >= 0,
{
    let x = a as int;
    let y = b as int;
    assert(x * y >= 0) by (nonlinear_arith)
        requires
            x >= 0,
            y >= 0,
    ;
    if y > 0 {
        assert(x / y >= 0) by (nonlinear_arith)
            requires
                x >= 0,
                y > 0,
        ;
    }
}

/// Scores an operator of the basis against the observations.
pub fn table_score(op: char, seen: &[(i64, i64, i64)]) -> (r: (usize, usize))
    requires
        basis_ops().contains(op),
        forall|i: int| 0 <= i < seen@.len() ==> 0 <= (#[trigger] seen@[i]).0 && 0 <= seen@[i].1,
    ensures
        table_match(op, seen@) == (r.0 as nat, r.1 as nat),
        r.0 <= r.1 <= seen@.len(),
{
    let mut m: usize = 0;
    let mut d: usize = 0;
    for i in 0..seen.len()
        invariant
            basis_ops().contains(op),
            forall|i: int| 0 <= i < seen@.len() ==> 0 <= (#[trigger] seen@[i]).0 && 0 <= seen@[i].1,
            table_match(op, seen@.take(i as int)) == (m as nat, d as nat),
            m <= d <= i,
    {
        assert(seen@.take(i + 1).drop_last() =~= seen@.take(i as int));
        assert(0 <= seen@[i as int].0 && 0 <= seen@[i as int].1);
        let (defined, equal) = observed(op, seen[i].0, seen[i].1, seen[i].2);
        if defined {
            d += 1;
            if equal {
                m += 1;
            }
        }
    }
    assert(seen@.take(seen.len() as int) =~= seen@);
    (m, d)
}

/// Score `i` comes before score `j`: its share is greater, or it is not less and it stands first.
pub open spec fn ranks_before(scores: Seq<(usize, usize)>, i: int, j: int) -> bool {
    let a = (scores[i].0 as nat, scores[i].1 as nat);
    let b = (scores[j].0 as nat, scores[j].1 as nat);
    share_ge(a, b) && (!share_ge(b, a) || i < j)
}

/// Every score stands once in the ranking, and each stands before those that it ranks before.
pub open spec fn is_ranking(order: Seq<usize>, scores: Seq<(usize, usize)>) -> bool {
    &&& order.len() == scores.len()
    &&& order.no_duplicates()
    &&& forall|i: int| 0 <= i < order.len() ==> (#[trigger] order[i]) < scores.len()
    &&& forall|k: usize| k < scores.len() ==> #[trigger] order.contains(k)
    &&& forall|i: int, j: int|
        0 <= i < j < order.len() ==> ranks_before(scores, #[trigger] order[i] as int, #[trigger] order[j] as int)
}

/// The order of shares is transitive where no share is more than the whole.
proof fn shares_chain(a: (nat, nat), b: (nat, nat), c: (nat, nat))
    requires
        share_ge(a, b),
        share_ge(b, c),
        a.0 <= a.1,
        b.0 <= b.1,
        c.0 <= c.1,
    ensures
        share_ge(a, c),
{
    if c.1 == 0 {
    } else if b.1 == 0 {
        assert(c.0 == 0);
        assert(a.0 * c.1 >= c.0 * a.1) by (nonlinear_arith)
            requires
                c.0 == 0,
        ;
    } else if a.1 == 0 {
        assert(b.0 == 0);
        assert(c.0 == 0) by (nonlinear_arith)
            requires
                b.0 == 0,
                b.0 * c.1 >= c.0 * b.1,
                b.1 > 0,
        ;
    } else {
        let (a0, a1, b0, b1, c0, c1) = (a.0 as int, a.1 as int, b.0 as int, b.1 as int, c.0 as int, c.1 as int);
        assert(a0 * c1 >= c0 * a1) by (nonlinear_arith)
            requires
                a0 * b1 >= b0 * a1,
                b0 * c1 >= c0 * b1,
                a0 >= 0,
                b0 >= 0,
                c0 >= 0,
                a1 > 0,
                b1 > 0,
                c1 > 0,
        {
            assert(a0 * b1 * c1 >= b0 * a1 * c1);
            assert(b0 * c1 * a1 >= c0 * b1 * a1);
            assert(b1 * (a0 * c1) >= b1 * (c0 * a1));
        }
    }
}

proof fn shares_compare(a: (nat, nat), b: (nat, nat))
    requires
        a.0 <= a.1,
        b.0 <= b.1,
    ensures
        share_ge(a, b) || share_ge(b, a),
{
    if a.1 == 0 || b.1 == 0 {
    } else {
        assert(a.0 * b.1 >= b.0 * a.1 || b.0 * a.1 >= a.0 * b.1);
    }
}

/// Ranks scores by their shares, the greatest first; equal shares keep their order.
pub fn rank(scores: &[(usize, usize)]) -> (order: Vec<usize>)
    requires
        forall|i: int| 0 <= i < scores@.len() ==> (#[trigger] scores@[i]).0 <= scores@[i].1,
    ensures
        is_ranking(order@, scores@),
{
    let mut order: Vec<usize> = Vec::new();
    for k in 0..scores.len()
        invariant
            forall|i: int| 0 <= i < scores@.len() ==> (#[trigger] scores@[i]).0 <= scores@[i].1,
            order@.len() == k,
            order@.no_duplicates(),
            forall|i: int| 0 <= i < order@.len() ==> (#[trigger] order@[i]) < k,
            forall|x: usize| x < k ==> #[trigger] order@.contains(x),
            forall|i: int, j: int|
                0 <= i < j < order@.len() ==> ranks_before(scores@, #[trigger] order@[i] as int, #[trigger] order@[j] as int),
    {
        let n: usize = order.len();
        let mut at: usize = n;
        while at > 0 && !share_at_least(scores[order[at - 1]], scores[k])
            invariant
                k < scores@.len(),
                at <= n == order@.len(),
                forall|i: int| 0 <= i < order@.len() ==> (#[trigger] order@[i]) < k,
                forall|i: int| 0 <= i < scores@.len() ==> (#[trigger] scores@[i]).0 <= scores@[i].1,
                forall|i: int| at <= i < n ==> ranks_before(scores@, k as int, (#[trigger] order@[i]) as int),
            decreases at,
        {
            proof {
                let p = order@[at - 1] as int;
                assert(scores@[p].0 <= scores@[p].1 && scores@[k as int].0 <= scores@[k as int].1);
                shares_compare(
                    (scores@[p].0 as nat, scores@[p].1 as nat),
                    (scores@[k as int].0 as nat, scores@[k as int].1 as nat),
                );
            }
            at -= 1;
        }
        let ghost before = order@;
        proof {
            assert forall|i: int| 0 <= i < at implies ranks_before(scores@, (#[trigger] before[i]) as int, k as int) by {
                let p = before[at - 1] as int;
                let q = before[i] as int;
                assert(scores@[p].0 <= scores@[p].1 && scores@[k as int].0 <= scores@[k as int].1 && scores@[q].0
                    <= scores@[q].1);
                if i < at - 1 {
                    assert(ranks_before(scores@, before[i] as int, before[at - 1] as int));
                    shares_chain(
                        (scores@[q].0 as nat, scores@[q].1 as nat),
                        (scores@[p].0 as nat, scores@[p].1 as nat),
                        (scores@[k as int].0 as nat, scores@[k as int].1 as nat),
                    );
                }
            }
        }
        order.insert(at, k);
        proof {
            assert(order@ =~= before.insert(at as int, k));
            assert forall|x: usize| x < k + 1 implies #[trigger] order@.contains(x) by {
                if x == k {
                    assert(order@[at as int] == x);
                } else {
                    assert(before.contains(x));
                    let i = choose|i: int| 0 <= i < before.len() && before[i] == x;
                    assert(order@[if i < at { i } else { i + 1 }] == x);
                }
            }
            assert forall|i: int| 0 <= i < order@.len() implies (#[trigger] order@[i]) < k + 1 by {
                if i < at {
                    assert(order@[i] == before[i]);
                } else if i > at {
                    assert(order@[i] == before[i - 1]);
                }
            }
            assert forall|i: int, j: int| 0 <= i < j < order@.len() implies ranks_before(
                scores@,
                #[trigger] order@[i] as int,
                #[trigger] order@[j] as int,
            ) && order@[i] != order@[j] by {
                let bi = if i < at { i } else { i - 1 };
                let bj = if j < at { j } else { j - 1 };
                if i != at {
                    assert(order@[i] == before[bi]);
                }
                if j != at {
                    assert(order@[j] == before[bj]);
                }
            }
        }
    }
    order
}

/// The best operator explains the table: it reproduces at least nineteen in twenty of the observations on which it
/// is defined, and it is defined on at least half of them.
pub open spec fn explains(m: nat, d: nat, total: nat) -> bool {
    d > 0 && 20 * m >= 19 * d && d >= total / 2
}

pub fn inducible(m: usize, d: usize, total: usize) -> (r: bool)
    ensures
        r == explains(m as nat, d as nat, total as nat),
{
    d > 0 && 20 * (m as u128) >= 19 * (d as u128) && d >= total / 2
}

/// What is discovered of the observations: the operators of the basis with their scores, best first, and whether
/// the best one explains the table.
pub struct Discovery {
    pub ranked: Vec<(char, usize, usize)>,
    pub inducible: bool,
}

/// The scores of the basis.
pub open spec fn basis_scores(seen: Seq<(i64, i64, i64)>, scores: Seq<(usize, usize)>) -> bool {
    &&& scores.len() == basis_ops().len()
    &&& forall|k: int|
        0 <= k < scores.len() ==> table_match(#[trigger] basis_ops()[k], seen) == (
            scores[k].0 as nat,
            scores[k].1 as nat,
        )
}

pub open spec fn is_discovery(r: Discovery, seen: Seq<(i64, i64, i64)>) -> bool {
    exists|scores: Seq<(usize, usize)>, order: Seq<usize>|
        #[trigger] basis_scores(seen, scores) && #[trigger] is_ranking(order, scores) && r.ranked@.len() == order.len() && (
        forall|i: int|
            0 <= i < order.len() ==> #[trigger] r.ranked@[i] == (
                basis_ops()[order[i] as int],
                scores[order[i] as int].0,
                scores[order[i] as int].1,
            )) && r.inducible == explains(r.ranked@[0].1 as nat, r.ranked@[0].2 as nat, seen.len())
}

/// Ranks the operators of the basis by how much of the observed table each reproduces.
pub fn induce_operator(seen: &[(i64, i64, i64)]) -> (r: Discovery)
    requires
        forall|i: int| 0 <= i < seen@.len() ==> 0 <= (#[trigger] seen@[i]).0 && 0 <= seen@[i].1,
    ensures
        is_discovery(r, seen@),
{
    let ops = basis();
    let mut scores: Vec<(usize, usize)> = Vec::new();
    for k in 0..ops.len()
        invariant
            ops@ == basis_ops(),
            forall|i: int| 0 <= i < seen@.len() ==> 0 <= (#[trigger] seen@[i]).0 && 0 <= seen@[i].1,
            scores@.len() == k,
            forall|i: int| 0 <= i < k ==> (#[trigger] scores@[i]).0 <= scores@[i].1,
            forall|i: int|
                0 <= i < k ==> table_match(#[trigger] basis_ops()[i], seen@) == (
                    scores@[i].0 as nat,
                    scores@[i].1 as nat,
                ),
    {
        assert(basis_ops()[k as int] == ops@[k as int]);
        scores.push(table_score(ops[k], seen));
    }
    let order = rank(scores.as_slice());
    let mut ranked: Vec<(char, usize, usize)> = Vec::new();
    for i in 0..order.len()
        invariant
            ops@ == basis_ops(),
            scores@.len() == basis_ops().len(),
            is_ranking(order@, scores@),
            ranked@.len() == i,
            forall|k: int|
                0 <= k < i ==> #[trigger] ranked@[k] == (
                    basis_ops()[order@[k] as int],
                    scores@[order@[k] as int].0,
                    scores@[order@[k] as int].1,
                ),
    {
        assert(order@[i as int] < scores@.len());
        let at: usize = order[i];
        ranked.push((ops[at], scores[at].0, scores[at].1));
    }
    let n: usize = seen.len();
    let good = inducible(ranked[0].1, ranked[0].2, n);
    let r = Discovery { ranked, inducible: good };
    assert(basis_scores(seen@, scores@) && is_ranking(order@, scores@));
    r
}

/// Every occurrence of the symbol replaced by an operator.
pub open spec fn renamed(s: Seq<char>, sym: char, op: char) -> Seq<char> {
    s.map_values(|c: char| if c == sym { op } else { c })
}

/// Writes the discovered operator for the symbol.
pub fn rename_symbol(expr: &str, sym: char, op: char) -> (r: String)
    ensures
        r@ == renamed(expr@, sym, op),
{
    let b = chars_of(expr);
    let mut r = String::new();
    for i in 0..b.len()
        invariant
            b@ == expr@,
            r@ == renamed(expr@, sym, op).take(i as int),
    {
        let c = b[i];
        r.push(if c == sym { op } else { c });
        assert(r@ =~= renamed(expr@, sym, op).take(i + 1));
    }
    assert(renamed(expr@, sym, op).take(b.len() as int) =~= renamed(expr@, sym, op));
    r
}

/// How the discovered rule does on nested expressions: all that were tried, those that it reproduces, and those
/// that it reproduces by recursion alone.
#[derive(Clone, Copy, PartialEq, Eq, Structural)]
pub struct HeldOut {
    pub n: usize,
    pub faithful: usize,
    pub clean: usize,
}

impl HeldOut {
    pub open spec fn adds_up(self) -> bool {
        self.clean <= self.faithful <= self.n
    }

    pub fn new() -> (h: HeldOut)
        ensures
            h.n == 0,
            h.adds_up(),
    {
        HeldOut { n: 0, faithful: 0, clean: 0 }
    }

    pub fn record(&mut self, abd: &Option<Abduction>, maxd: usize)
        requires
            old(self).adds_up(),
            old(self).n < usize::MAX,
        ensures
            final(self).adds_up(),
            final(self).n == old(self).n + 1,
            final(self).faithful == old(self).faithful + crate::measure::bit(abd is Some),
            final(self).clean == old(self).clean + crate::measure::bit(
                abd matches Some(a) && crate::measure::is_clean(a.depth as int, a.cuts@, maxd as nat),
            ),
    {
        self.n = self.n + 1;
        if let Some(a) = abd {
            self.faithful = self.faithful + 1;
            if clean_program(a, maxd) {
                self.clean = self.clean + 1;
            }
        }
    }
}

/// An operator reproduces every table that it wrote.
pub proof fn own_table_is_reproduced(op: char, seen: Seq<(i64, i64, i64)>)
    requires
        forall|i: int|
            0 <= i < seen.len() ==> meaning(op, (#[trigger] seen[i]).0, seen[i].1) == Some(seen[i].2 as int),
    ensures
        table_match(op, seen) == (seen.len(), seen.len()),
    decreases seen.len(),
{
    if seen.len() > 0 {
        let init = seen.drop_last();
        assert forall|i: int| 0 <= i < init.len() implies meaning(op, (#[trigger] init[i]).0, init[i].1) == Some(
            init[i].2 as int,
        ) by {
            assert(init[i] == seen[i]);
        }
        own_table_is_reproduced(op, init);
        assert(meaning(op, seen[seen.len() - 1].0, seen[seen.len() - 1].1) == Some(seen[seen.len() - 1].2 as int));
    }
}

/// Where every observation is what some operator of the basis gives, the operator that is discovered reproduces
/// every observation on which it is defined, and it is defined on some.
pub proof fn discovery_agrees_with_the_lesson(op: char, seen: Seq<(i64, i64, i64)>, r: Discovery)
    requires
        basis_ops().contains(op),
        seen.len() > 0,
        forall|i: int|
            0 <= i < seen.len() ==> meaning(op, (#[trigger] seen[i]).0, seen[i].1) == Some(seen[i].2 as int),
        is_discovery(r, seen),
    ensures
        0 < r.ranked@[0].2 <= r.ranked@[0].1,
{
    own_table_is_reproduced(op, seen);
    let (scores, order) = choose|scores: Seq<(usize, usize)>, order: Seq<usize>|
        #[trigger] basis_scores(seen, scores) && #[trigger] is_ranking(order, scores) && r.ranked@.len() == order.len() && (
        forall|i: int|
            0 <= i < order.len() ==> #[trigger] r.ranked@[i] == (
                basis_ops()[order[i] as int],
                scores[order[i] as int].0,
                scores[order[i] as int].1,
            )) && r.inducible == explains(r.ranked@[0].1 as nat, r.ranked@[0].2 as nat, seen.len());
    let k = choose|k: int| 0 <= k < basis_ops().len() && basis_ops()[k] == op;
    assert(table_match(basis_ops()[k], seen) == (scores[k].0 as nat, scores[k].1 as nat));
    assert(order.contains(k as usize));
    let at = choose|i: int| 0 <= i < order.len() && order[i] == k as usize;
    let (m, d, n) = (r.ranked@[0].1 as int, r.ranked@[0].2 as int, seen.len() as int);
    if at > 0 {
        assert(ranks_before(scores, order[0] as int, order[at] as int));
        assert(m >= d) by (nonlinear_arith)
            requires
                m * n >= n * d,
                n > 0,
        ;
    }
}

} // verus!
