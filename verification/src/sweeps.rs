//! Sweeps over generated questions: how they are drawn, asked and counted. The model is a function from the text of a
//! question to the number that it answers, if it answers one.
use vstd::prelude::*;
use crate::asking::{literals_in, numbers_in};
use crate::discover::{
    application_text, basis_ops, flat_question, induce_operator, is_discovery, lesson, rename_symbol, renamed, taught_op,
    teach, Discovery, HeldOut,
};
use crate::measure::{
    analysis, analyze, bit, family_maxv, family_ops, family_prime, is_clean, measure_family, parse_str, reads_as, Agg,
};
use crate::probe_laws::{generated_within_bounds, padding_is_neutral, spellable, text_is_parsed_back};
use crate::recursion_dl::{flat_depths, greatest, height, size, tree_value, Node, Outcome};
use crate::recursion_laws::{abduction_lies_in_range, greatest_depth_is_height, height_under_size, right_answers_need_no_cut};
use crate::recursion_probe::{
    atom_view, atoms_of, draw_leaf, expr_text, family_tree, family_try, gen_family, gen_op, gen_value, is_mark,
    leaf_value, operand_depths, padded, padding_from, shuffled, single_tree,
};

verus! {

/// The model may answer a question so.
pub open spec fn answers_to<F: Fn(String) -> Option<i64>>(ask: F, question: Seq<char>, r: Option<i64>) -> bool {
    exists|q: String| q@ == question && #[trigger] call_ensures(ask, (q,), r)
}

/// Every question can be asked.
pub open spec fn can_be_asked<F: Fn(String) -> Option<i64>>(ask: F) -> bool {
    forall|q: String| call_requires(ask, (q,))
}

/// The state of the stream when `i` expressions of a depth were drawn.
pub open spec fn drawn_seed(depth: nat, ops: Seq<char>, maxv: i64, seed: u64, i: nat) -> u64
    decreases i,
{
    if i == 0 {
        seed
    } else {
        family_tree(depth, ops, maxv, drawn_seed(depth, ops, maxv, seed, (i - 1) as nat)).1
    }
}

/// The expression with the number `i` among those drawn.
pub open spec fn drawn_tree(depth: nat, ops: Seq<char>, maxv: i64, seed: u64, i: nat) -> Node {
    family_tree(depth, ops, maxv, drawn_seed(depth, ops, maxv, seed, i)).0
}

/// The question for the value of an expression, behind the examples.
pub open spec fn value_question(prime: Seq<char>, n: Node) -> Seq<char> {
    prime + expr_text(n) + " ="@
}

/// The numbers that stand in the context of a question.
pub open spec fn context_numbers(prime: Seq<char>, n: Node) -> Seq<i64> {
    numbers_in(prime, Seq::empty()) + numbers_in(expr_text(n), Seq::empty())
}

/// One answer is counted. Answers that are no numbers, and expressions that are mere numbers, are passed over.
pub open spec fn is_counted(prime: Seq<char>, n: Node, answer: Option<i64>, before: Agg, after: Agg) -> bool {
    match answer {
        Some(a) => if n is Op {
            before.counts(
                after,
                a == gen_value(n),
                analysis(n, a, context_numbers(prime, n)),
                greatest(flat_depths(n, 0)) as nat,
            )
        } else {
            after == before
        },
        None => after == before,
    }
}

proof fn drawn_is_spellable(depth: nat, ops: Seq<char>, maxv: i64, seed: u64)
    requires
        0 <= maxv,
        forall|i: int| 0 <= i < ops.len() ==> is_mark(#[trigger] ops[i]) && ops[i] != '(' && ops[i] != ')',
    ensures
        spellable(family_tree(depth, ops, maxv, seed).0, false),
    decreases depth, 401nat,
{
    if depth > 0 && ops.len() > 0 {
        attempt_is_spellable(depth, ops, maxv, seed, 400);
    }
}

proof fn attempt_is_spellable(depth: nat, ops: Seq<char>, maxv: i64, seed: u64, tries: nat)
    requires
        0 <= maxv,
        tries <= 400,
        forall|i: int| 0 <= i < ops.len() ==> is_mark(#[trigger] ops[i]) && ops[i] != '(' && ops[i] != ')',
    ensures
        spellable(family_try(depth, ops, maxv, seed, tries).0, false),
    decreases depth, tries,
{
    if tries > 0 && depth > 0 && ops.len() > 0 {
        let s1 = shuffled(seed);
        let s2 = shuffled(s1);
        let s3 = shuffled(s2);
        let op = ops[s1 as int % ops.len() as int];
        let (dl, dr) = operand_depths(depth, s2, s3);
        if dl < depth && dr < depth {
            let (left, s4) = family_tree(dl, ops, maxv, s3);
            let (right, s5) = family_tree(dr, ops, maxv, s4);
            drawn_is_spellable(dl, ops, maxv, s3);
            drawn_is_spellable(dr, ops, maxv, s4);
            attempt_is_spellable(depth, ops, maxv, s5, (tries - 1) as nat);
        }
    } else {
        let v = leaf_value(shuffled(seed), maxv);
        padding_is_neutral(ops, v, maxv, 0);
        if let Some((op, y)) = padding_from(ops, v, maxv, 0) {
            let i = choose|i: int| 0 <= i < ops.len() && ops[i] == op;
            assert(is_mark(ops[i]));
            padded_is_spellable(depth, op, y, v);
        }
    }
}

proof fn padded_is_spellable(depth: nat, op: char, y: i64, v: i64)
    requires
        0 <= v,
        0 <= y,
        is_mark(op) && op != '(' && op != ')',
    ensures
        spellable(padded(depth, op, y, v), false),
    decreases depth,
{
    if depth > 0 {
        padded_is_spellable((depth - 1) as nat, op, y, v);
        assert(spellable(Node::Leaf(y), false));
    }
}

/// One expression is asked for, and its answer is counted.
spec fn is_one_measured<F: Fn(String) -> Option<i64>>(
    ask: F,
    prime: Seq<char>,
    n: Node,
    answer: Option<i64>,
    before: Agg,
    after: Agg,
) -> bool {
    answers_to(ask, value_question(prime, n), answer) && is_counted(prime, n, answer, before, after)
}

/// Draws one expression, asks for its value, and counts the answer.
fn measure_one<F: Fn(String) -> Option<i64>>(
    ask: &F,
    depth: usize,
    ops: &[char],
    prime: &str,
    maxv: i64,
    r: &mut u64,
    agg: &mut Agg,
)
    requires
        can_be_asked(*ask),
        0 <= maxv,
        depth <= i64::MAX,
        forall|i: int| 0 <= i < ops@.len() ==> is_mark(#[trigger] ops@[i]) && ops@[i] != '(' && ops@[i] != ')',
        old(agg).adds_up(),
        old(agg).n < usize::MAX,
        0 <= old(agg).sumd,
        old(agg).sumd + depth <= i64::MAX,
    ensures
        *final(r) == family_tree(depth as nat, ops@, maxv, *old(r)).1,
        exists|answer: Option<i64>|
            #[trigger] is_one_measured(
                *ask,
                prime@,
                family_tree(depth as nat, ops@, maxv, *old(r)).0,
                answer,
                *old(agg),
                *final(agg),
            ),
        final(agg).adds_up(),
        final(agg).n <= old(agg).n + 1,
        0 <= final(agg).sumd <= old(agg).sumd + depth,
{
    let ghost n = family_tree(depth as nat, ops@, maxv, *r).0;
    proof {
        drawn_is_spellable(depth as nat, ops@, maxv, *r);
        generated_within_bounds(depth as nat, ops@, maxv, *r);
        greatest_depth_is_height(n);
    }
    let (expr, truth) = gen_family(depth, ops, maxv, r);
    let mut q = String::from_str(prime);
    q.append(expr.as_str());
    q.append(" =");
    assert(q@ =~= value_question(prime@, n));
    let ghost asked = q;
    let answer = ask(q);
    assert(answers_to(*ask, value_question(prime@, n), answer)) by {
        assert(call_ensures(*ask, (asked,), answer));
    }
    let said: i64 = match answer {
        Some(v) => v,
        None => {
            assert(is_one_measured(*ask, prime@, n, answer, *old(agg), *agg));
            return;
        },
    };
    let tree = parse_str(expr.as_str());
    proof {
        expression_is_read(n, expr@, tree);
    }
    match tree {
        Some(t) => {
            let mut numbers = literals_in(prime);
            let mut own = literals_in(expr.as_str());
            numbers.append(&mut own);
            assert(numbers@ =~= context_numbers(prime@, n));
            let (found, maxd) = analyze(&t, said, numbers.as_slice());
            proof {
                abduction_lies_in_range(
                    crate::recursion_dl::flat_nodes(n, 0),
                    flat_depths(n, 0),
                    said,
                    numbers@,
                );
            }
            agg.record(said == truth, &found, maxd);
        },
        None => {},
    }
    assert(is_one_measured(*ask, prime@, n, answer, *old(agg), *agg));
}

/// The text of a spellable expression is read as the expression, and that of a number as nothing.
proof fn expression_is_read(n: Node, text: Seq<char>, r: Option<Node>)
    requires
        spellable(n, false),
        text == expr_text(n),
        reads_as(text, r),
    ensures
        r == (if n is Op { Some(n) } else { None }),
{
    let (pieces, atoms) = choose|pieces: Seq<String>, atoms: Seq<(String, usize)>|
        pieces.len() == 1 && pieces[0]@ == text && #[trigger] atom_view(atoms) == #[trigger] atoms_of(pieces, false)
            && r == crate::recursion_dl::target_from(atoms, 0, None);
    assert(pieces =~= seq![pieces[0]]);
    if n is Op {
        text_is_parsed_back(n, pieces[0], atoms, false);
    } else {
        crate::probe_laws::number_is_no_target(n, pieces[0], atoms, false);
    }
}

/// The counts when no answer was counted yet.
pub open spec fn no_counts(a: Agg) -> bool {
    a.n == 0 && a.sumd == 0 && a.adds_up()
}

/// The answers to the first `answers.len()` expressions of a depth, and the counts before and after each.
pub open spec fn is_tallied<F: Fn(String) -> Option<i64>>(
    ask: F,
    prime: Seq<char>,
    ops: Seq<char>,
    maxv: i64,
    depth: nat,
    seed: u64,
    answers: Seq<Option<i64>>,
    counts: Seq<Agg>,
) -> bool {
    &&& counts.len() == answers.len() + 1
    &&& no_counts(counts[0])
    &&& forall|i: int|
        0 <= i < answers.len() ==> answers_to(
            ask,
            value_question(prime, drawn_tree(depth, ops, maxv, seed, i as nat)),
            #[trigger] answers[i],
        ) && is_counted(prime, drawn_tree(depth, ops, maxv, seed, i as nat), answers[i], counts[i], counts[i + 1])
}

/// The counts of a depth: those of `n` expressions drawn from a seed, each asked for.
pub open spec fn is_measured<F: Fn(String) -> Option<i64>>(
    ask: F,
    prime: Seq<char>,
    ops: Seq<char>,
    maxv: i64,
    depth: nat,
    seed: u64,
    n: nat,
    agg: Agg,
) -> bool {
    exists|answers: Seq<Option<i64>>, counts: Seq<Agg>|
        #[trigger] is_tallied(ask, prime, ops, maxv, depth, seed, answers, counts) && answers.len() == n && agg
            == counts.last()
}

/// The seed of a depth: what the depths above it leave.
pub open spec fn depth_seed(ops: Seq<char>, maxv: i64, seed: u64, n: nat, depth: nat) -> u64
    decreases depth,
{
    if depth <= 1 {
        seed
    } else {
        drawn_seed((depth - 1) as nat, ops, maxv, depth_seed(ops, maxv, seed, n, (depth - 1) as nat), n)
    }
}

/// Measures one depth: draws `n` expressions, asks for each, and counts the answers.
fn measure_depth<F: Fn(String) -> Option<i64>>(
    ask: &F,
    depth: usize,
    ops: &[char],
    prime: &str,
    maxv: i64,
    n: usize,
    r: &mut u64,
) -> (agg: Agg)
    requires
        can_be_asked(*ask),
        0 <= maxv,
        depth <= i64::MAX,
        n < usize::MAX,
        n * depth <= i64::MAX,
        forall|i: int| 0 <= i < ops@.len() ==> is_mark(#[trigger] ops@[i]) && ops@[i] != '(' && ops@[i] != ')',
    ensures
        is_measured(*ask, prime@, ops@, maxv, depth as nat, *old(r), n as nat, agg),
        *final(r) == drawn_seed(depth as nat, ops@, maxv, *old(r), n as nat),
        agg.adds_up(),
{
    let ghost seed = *r;
    let mut agg = Agg::new();
    let ghost mut answers: Seq<Option<i64>> = Seq::empty();
    let ghost mut counts: Seq<Agg> = seq![agg];
    assert(0 * depth == 0) by (nonlinear_arith);
    for k in 0..n
        invariant
            can_be_asked(*ask),
            0 <= maxv,
            depth <= i64::MAX,
            n < usize::MAX,
            n * depth <= i64::MAX,
            forall|i: int| 0 <= i < ops@.len() ==> is_mark(#[trigger] ops@[i]) && ops@[i] != '(' && ops@[i] != ')',
            seed == *old(r),
            *r == drawn_seed(depth as nat, ops@, maxv, seed, k as nat),
            answers.len() == k,
            is_tallied(*ask, prime@, ops@, maxv, depth as nat, seed, answers, counts),
            counts.last() == agg,
            agg.adds_up(),
            agg.n <= k,
            0 <= agg.sumd <= k * depth,
    {
        assert((k + 1) * depth == k * depth + depth && (k + 1) * depth <= n * depth) by (nonlinear_arith)
            requires
                k < n,
                0 <= depth,
        ;
        let ghost tree = drawn_tree(depth as nat, ops@, maxv, seed, k as nat);
        let ghost before = agg;
        measure_one(ask, depth, ops, prime, maxv, r, &mut agg);
        proof {
            let answer = choose|answer: Option<i64>|
                #[trigger] is_one_measured(*ask, prime@, tree, answer, before, agg);
            let was_answers = answers;
            let was_counts = counts;
            answers = answers.push(answer);
            counts = counts.push(agg);
            assert forall|i: int| 0 <= i < answers.len() implies answers_to(
                *ask,
                value_question(prime@, drawn_tree(depth as nat, ops@, maxv, seed, i as nat)),
                #[trigger] answers[i],
            ) && is_counted(
                prime@,
                drawn_tree(depth as nat, ops@, maxv, seed, i as nat),
                answers[i],
                counts[i],
                counts[i + 1],
            ) by {
                if i < k {
                    assert(answers[i] == was_answers[i]);
                    assert(counts[i] == was_counts[i] && counts[i + 1] == was_counts[i + 1]);
                }
            }
        }
    }
    assert(is_tallied(*ask, prime@, ops@, maxv, depth as nat, seed, answers, counts) && answers.len() == n);
    agg
}

proof fn family_ops_are_marks(name: Seq<char>)
    ensures
        forall|i: int|
            0 <= i < family_ops(name).len() ==> is_mark(#[trigger] family_ops(name)[i]) && family_ops(name)[i] != '('
                && family_ops(name)[i] != ')',
{
}

/// Measures a family of expressions, depth by depth from one to `dmax`, with `n` expressions each: how many of the
/// model's answers are right, and how many a bounded recursive program reproduces. The counts of a depth stand at its
/// index.
pub fn measure<F: Fn(String) -> Option<i64>>(
    ask: F,
    family: &str,
    maxv: i64,
    dmax: usize,
    n: usize,
    seed: u64,
) -> (per: Vec<Agg>)
    requires
        can_be_asked(ask),
        0 <= maxv,
        dmax < usize::MAX,
        dmax <= i64::MAX,
        n < usize::MAX,
        n * dmax <= i64::MAX,
    ensures
        ({
            let ops = family_ops(family@);
            let prime = family_prime(family@);
            let limit = family_maxv(family@, maxv);
            &&& per@.len() == dmax + 1
            &&& no_counts(per@[0])
            &&& forall|d: int|
                1 <= d <= dmax ==> is_measured(
                    ask,
                    prime,
                    ops,
                    limit,
                    d as nat,
                    depth_seed(ops, limit, seed, n as nat, d as nat),
                    n as nat,
                    #[trigger] per@[d],
                )
            &&& forall|d: int| 0 <= d <= dmax ==> (#[trigger] per@[d]).adds_up()
        }),
{
    let (ops, prime, limit) = measure_family(family, maxv);
    proof {
        family_ops_are_marks(family@);
    }
    let mut r: u64 = seed;
    let mut per: Vec<Agg> = Vec::new();
    per.push(Agg::new());
    let mut d: usize = 1;
    while d <= dmax
        invariant
            can_be_asked(ask),
            0 <= limit,
            1 <= d <= dmax + 1,
            dmax < usize::MAX,
            dmax <= i64::MAX,
            n < usize::MAX,
            n * dmax <= i64::MAX,
            ops@ == family_ops(family@),
            prime@ == family_prime(family@),
            forall|i: int| 0 <= i < ops@.len() ==> is_mark(#[trigger] ops@[i]) && ops@[i] != '(' && ops@[i] != ')',
            limit == family_maxv(family@, maxv),
            r == depth_seed(ops@, limit, seed, n as nat, d as nat),
            per@.len() == d,
            no_counts(per@[0]),
            forall|e: int|
                1 <= e < d ==> is_measured(
                    ask,
                    prime@,
                    ops@,
                    limit,
                    e as nat,
                    depth_seed(ops@, limit, seed, n as nat, e as nat),
                    n as nat,
                    #[trigger] per@[e],
                ),
            forall|e: int| 0 <= e < d ==> (#[trigger] per@[e]).adds_up(),
        decreases dmax + 1 - d,
    {
        assert(n * d <= n * dmax) by (nonlinear_arith)
            requires
                d <= dmax,
                0 <= n,
        ;
        per.push(measure_depth(&ask, d, ops.as_slice(), prime, limit, n, &mut r));
        d += 1;
    }
    per
}

/// A right answer is counted as right and, where the recursive program knows the operators, as clean recursion.
pub proof fn right_answers_are_clean(prime: Seq<char>, n: Node, before: Agg, after: Agg)
    requires
        n is Op,
        size(n) <= usize::MAX,
        height(n) <= i64::MAX,
        tree_value(n) == Outcome::Value(gen_value(n)),
        is_counted(prime, n, Some(gen_value(n)), before, after),
    ensures
        after.n == before.n + 1,
        after.correct == before.correct + 1,
        after.clean == before.clean + 1,
        after.sumd == before.sumd + height(n),
{
    height_under_size(n);
    right_answers_need_no_cut(n, gen_value(n), context_numbers(prime, n));
    greatest_depth_is_height(n);
}

/// The state of the stream when `i` pairs of numbers were drawn.
pub open spec fn pair_seed(seed: u64, i: nat) -> u64
    decreases i,
{
    if i == 0 {
        seed
    } else {
        shuffled(shuffled(pair_seed(seed, (i - 1) as nat)))
    }
}

/// The pair with the number `i` among those drawn.
pub open spec fn pair_at(maxv: i64, seed: u64, i: nat) -> (i64, i64) {
    let s = shuffled(pair_seed(seed, i));
    (leaf_value(s, maxv), leaf_value(shuffled(s), maxv))
}

/// The question for the value of the symbol on a pair, behind what was taught.
pub open spec fn pair_question(prime: Seq<char>, sym: char, pair: (i64, i64)) -> Seq<char> {
    prime + application_text(sym, pair.0, pair.1) + " ="@
}

/// What was observed with the first `n` answers: each pair with its answer, where that is a number.
pub open spec fn observations(maxv: i64, seed: u64, answers: Seq<Option<i64>>, n: nat) -> Seq<(i64, i64, i64)>
    decreases n,
{
    if n == 0 {
        Seq::empty()
    } else {
        let rest = observations(maxv, seed, answers, (n - 1) as nat);
        let (a, b) = pair_at(maxv, seed, (n - 1) as nat);
        match answers[n - 1] {
            Some(v) => rest.push((a, b, v)),
            None => rest,
        }
    }
}

/// Answers to the questions for the first pairs.
pub open spec fn are_answers<F: Fn(String) -> Option<i64>>(
    ask: F,
    prime: Seq<char>,
    sym: char,
    maxv: i64,
    seed: u64,
    answers: Seq<Option<i64>>,
) -> bool {
    forall|i: int|
        0 <= i < answers.len() ==> answers_to(
            ask,
            pair_question(prime, sym, pair_at(maxv, seed, i as nat)),
            #[trigger] answers[i],
        )
}

/// The table that was observed with `n` questions.
pub open spec fn is_probed<F: Fn(String) -> Option<i64>>(
    ask: F,
    prime: Seq<char>,
    sym: char,
    maxv: i64,
    seed: u64,
    n: nat,
    seen: Seq<(i64, i64, i64)>,
) -> bool {
    exists|answers: Seq<Option<i64>>|
        #[trigger] are_answers(ask, prime, sym, maxv, seed, answers) && answers.len() == n && seen == observations(
            maxv,
            seed,
            answers,
            n,
        )
}

proof fn earlier_observations(maxv: i64, seed: u64, answers: Seq<Option<i64>>, more: Option<i64>, n: nat)
    requires
        n <= answers.len(),
    ensures
        observations(maxv, seed, answers.push(more), n) == observations(maxv, seed, answers, n),
    decreases n,
{
    if n > 0 {
        earlier_observations(maxv, seed, answers, more, (n - 1) as nat);
        assert(answers.push(more)[n - 1] == answers[n - 1]);
    }
}

/// Observes the table of the symbol: asks for its value on `n` drawn pairs.
pub fn probe_table<F: Fn(String) -> Option<i64>>(
    ask: &F,
    prime: &str,
    sym: char,
    maxv: i64,
    n: usize,
    r: &mut u64,
) -> (seen: Vec<(i64, i64, i64)>)
    requires
        can_be_asked(*ask),
        0 <= maxv,
    ensures
        is_probed(*ask, prime@, sym, maxv, *old(r), n as nat, seen@),
        *final(r) == pair_seed(*old(r), n as nat),
        forall|i: int| 0 <= i < seen@.len() ==> 0 <= (#[trigger] seen@[i]).0 && 0 <= seen@[i].1,
{
    let ghost seed = *r;
    let mut seen: Vec<(i64, i64, i64)> = Vec::new();
    let ghost mut answers: Seq<Option<i64>> = Seq::empty();
    for k in 0..n
        invariant
            can_be_asked(*ask),
            0 <= maxv,
            *r == pair_seed(seed, k as nat),
            answers.len() == k,
            are_answers(*ask, prime@, sym, maxv, seed, answers),
            seen@ == observations(maxv, seed, answers, k as nat),
            forall|i: int| 0 <= i < seen@.len() ==> 0 <= (#[trigger] seen@[i]).0 && 0 <= seen@[i].1,
    {
        let a: i64 = draw_leaf(maxv, r);
        let b: i64 = draw_leaf(maxv, r);
        let q = flat_question(prime, sym, a, b);
        let ghost asked = q;
        let answer = ask(q);
        proof {
            assert(call_ensures(*ask, (asked,), answer));
            assert(answers_to(*ask, pair_question(prime@, sym, pair_at(maxv, seed, k as nat)), answer));
            earlier_observations(maxv, seed, answers, answer, k as nat);
            let was = answers;
            answers = answers.push(answer);
            assert forall|i: int| 0 <= i < answers.len() implies answers_to(
                *ask,
                pair_question(prime@, sym, pair_at(maxv, seed, i as nat)),
                #[trigger] answers[i],
            ) by {
                if i < k {
                    assert(answers[i] == was[i]);
                }
            }
        }
        if let Some(v) = answer {
            seen.push((a, b, v));
        }
    }
    assert(are_answers(*ask, prime@, sym, maxv, seed, answers) && answers.len() == n);
    seen
}

/// What is known of the held-out expressions: the counts, and the first of them that was analyzed.
pub struct HeldModel {
    pub counts: HeldOut,
    pub sample: Option<(Seq<char>, i64, Seq<i64>)>,
}

pub open spec fn sample_view(sample: Option<(String, i64, Vec<i64>)>) -> Option<(Seq<char>, i64, Seq<i64>)> {
    match sample {
        Some((t, a, l)) => Some((t@, a, l@)),
        None => None,
    }
}

/// One more analysis is counted.
pub open spec fn held_counts(before: HeldOut, after: HeldOut, found: Option<(int, Seq<(usize, i64, bool)>)>, maxd: nat) -> bool {
    &&& after.n == before.n + 1
    &&& after.faithful == before.faithful + bit(found is Some)
    &&& after.clean == before.clean + bit(found matches Some((d, cuts)) && is_clean(d, cuts, maxd))
}

/// What an answer to a held-out expression adds: the expression is read with the discovered operator, and the answer
/// is analyzed.
pub open spec fn is_checked(
    text: Seq<char>,
    sym: char,
    op: char,
    tree: Option<Node>,
    answer: i64,
    before: HeldModel,
    after: HeldModel,
) -> bool {
    &&& reads_as(renamed(text, sym, op), tree)
    &&& match tree {
        Some(t) => {
            let numbers = numbers_in(text, Seq::empty());
            let maxd = greatest(flat_depths(t, 0)) as nat;
            let sample = match before.sample {
                Some(x) => Some(x),
                None => Some((renamed(text, sym, op), answer, numbers)),
            };
            held_counts(before.counts, after.counts, analysis(t, answer, numbers), maxd) && after.sample == sample
        },
        None => after == before,
    }
}

/// One held-out expression is drawn, asked for and checked; an expression that could not be drawn and an answer that is
/// no number are passed over.
pub open spec fn is_held_out<F: Fn(String) -> Option<i64>>(
    ask: F,
    prime: Seq<char>,
    sym: char,
    op: char,
    drawn: Option<(Node, i64)>,
    answer: Option<i64>,
    tree: Option<Node>,
    before: HeldModel,
    after: HeldModel,
) -> bool {
    match drawn {
        Some((n, _)) => answers_to(ask, value_question(prime, n), answer) && (match answer {
            Some(a) => is_checked(expr_text(n), sym, op, tree, a, before, after),
            None => after == before,
        }),
        None => after == before,
    }
}

/// The state of the stream when `i` expressions over the taught symbol were drawn.
pub open spec fn taught_seed(depth: nat, sym: char, taught: char, maxv: i64, seed: u64, i: nat) -> u64
    decreases i,
{
    if i == 0 {
        seed
    } else {
        single_tree(depth, sym, taught, maxv, taught_seed(depth, sym, taught, maxv, seed, (i - 1) as nat)).1
    }
}

/// The expression with the number `i` over the taught symbol, if it could be drawn.
pub open spec fn taught_tree(depth: nat, sym: char, taught: char, maxv: i64, seed: u64, i: nat) -> Option<(Node, i64)> {
    single_tree(depth, sym, taught, maxv, taught_seed(depth, sym, taught, maxv, seed, i)).0
}

/// A symbol, the operator that it was taught as, and the one that was discovered for it.
pub struct SymbolModel {
    pub prime: Seq<char>,
    pub sym: char,
    pub taught: char,
    pub op: char,
    pub maxv: i64,
}

/// A run over held-out expressions of one depth, with what was answered and read, and the states between.
pub open spec fn is_held_run<F: Fn(String) -> Option<i64>>(
    ask: F,
    m: SymbolModel,
    depth: nat,
    seed: u64,
    answers: Seq<(Option<i64>, Option<Node>)>,
    states: Seq<HeldModel>,
) -> bool {
    &&& states.len() == answers.len() + 1
    &&& forall|i: int|
        0 <= i < answers.len() ==> is_held_out(
            ask,
            m.prime,
            m.sym,
            m.op,
            taught_tree(depth, m.sym, m.taught, m.maxv, seed, i as nat),
            (#[trigger] answers[i]).0,
            answers[i].1,
            states[i],
            states[i + 1],
        )
}

/// What `n` held-out expressions of a depth add.
pub open spec fn is_verified<F: Fn(String) -> Option<i64>>(
    ask: F,
    m: SymbolModel,
    depth: nat,
    seed: u64,
    n: nat,
    before: HeldModel,
    after: HeldModel,
) -> bool {
    exists|answers: Seq<(Option<i64>, Option<Node>)>, states: Seq<HeldModel>|
        #[trigger] is_held_run(ask, m, depth, seed, answers, states) && answers.len() == n && states[0] == before
            && states.last() == after
}

/// Draws one held-out expression, asks for it, and checks the answer.
fn hold_out_one<F: Fn(String) -> Option<i64>>(
    ask: &F,
    prime: &str,
    sym: char,
    taught: char,
    op: char,
    maxv: i64,
    depth: usize,
    r: &mut u64,
    held: &mut HeldOut,
    sample: &mut Option<(String, i64, Vec<i64>)>,
)
    requires
        can_be_asked(*ask),
        0 <= maxv,
        old(held).adds_up(),
        old(held).n < usize::MAX,
    ensures
        *final(r) == single_tree(depth as nat, sym, taught, maxv, *old(r)).1,
        exists|answer: Option<i64>, tree: Option<Node>|
            #[trigger] is_held_out(
                *ask,
                prime@,
                sym,
                op,
                single_tree(depth as nat, sym, taught, maxv, *old(r)).0,
                answer,
                tree,
                (HeldModel { counts: *old(held), sample: sample_view(*old(sample)) }),
                (HeldModel { counts: *final(held), sample: sample_view(*final(sample)) }),
            ),
        final(held).adds_up(),
        final(held).n <= old(held).n + 1,
{
    let ghost drawn = single_tree(depth as nat, sym, taught, maxv, *r).0;
    let ghost before = HeldModel { counts: *held, sample: sample_view(*sample) };
    let (expr, _v) = match gen_op(depth, sym, taught, maxv, r) {
        Some(e) => e,
        None => {
            assert(is_held_out(*ask, prime@, sym, op, drawn, None, None, before, before));
            return;
        },
    };
    let ghost n = (drawn->0).0;
    let mut q = String::from_str(prime);
    q.append(expr.as_str());
    q.append(" =");
    assert(q@ =~= value_question(prime@, n));
    let ghost asked = q;
    let answer = ask(q);
    assert(answers_to(*ask, value_question(prime@, n), answer)) by {
        assert(call_ensures(*ask, (asked,), answer));
    }
    let said: i64 = match answer {
        Some(v) => v,
        None => {
            assert(is_held_out(*ask, prime@, sym, op, drawn, answer, None, before, before));
            return;
        },
    };
    let text = rename_symbol(expr.as_str(), sym, op);
    let tree = parse_str(text.as_str());
    match &tree {
        Some(t) => {
            let numbers = literals_in(expr.as_str());
            let (found, maxd) = analyze(t, said, numbers.as_slice());
            held.record(&found, maxd);
            if sample.is_none() {
                *sample = Some((text, said, numbers));
            }
        },
        None => {},
    }
    assert(is_held_out(
        *ask,
        prime@,
        sym,
        op,
        drawn,
        answer,
        tree,
        before,
        HeldModel { counts: *held, sample: sample_view(*sample) },
    ));
}

/// Checks `n` held-out expressions of a depth.
fn hold_out_depth<F: Fn(String) -> Option<i64>>(
    ask: &F,
    prime: &str,
    sym: char,
    taught: char,
    op: char,
    maxv: i64,
    depth: usize,
    n: usize,
    r: &mut u64,
    held: &mut HeldOut,
    sample: &mut Option<(String, i64, Vec<i64>)>,
)
    requires
        can_be_asked(*ask),
        0 <= maxv,
        old(held).adds_up(),
        old(held).n + n < usize::MAX,
    ensures
        is_verified(
            *ask,
            (SymbolModel { prime: prime@, sym, taught, op, maxv }),
            depth as nat,
            *old(r),
            n as nat,
            (HeldModel { counts: *old(held), sample: sample_view(*old(sample)) }),
            (HeldModel { counts: *final(held), sample: sample_view(*final(sample)) }),
        ),
        *final(r) == taught_seed(depth as nat, sym, taught, maxv, *old(r), n as nat),
        final(held).adds_up(),
        final(held).n <= old(held).n + n,
{
    let ghost m = SymbolModel { prime: prime@, sym, taught, op, maxv };
    let ghost seed = *r;
    let ghost first = HeldModel { counts: *held, sample: sample_view(*sample) };
    let ghost mut answers: Seq<(Option<i64>, Option<Node>)> = Seq::empty();
    let ghost mut states: Seq<HeldModel> = seq![first];
    for k in 0..n
        invariant
            can_be_asked(*ask),
            0 <= maxv,
            m == (SymbolModel { prime: prime@, sym, taught, op, maxv }),
            seed == *old(r),
            *r == taught_seed(depth as nat, sym, taught, maxv, seed, k as nat),
            answers.len() == k,
            is_held_run(*ask, m, depth as nat, seed, answers, states),
            states[0] == first,
            states.last() == (HeldModel { counts: *held, sample: sample_view(*sample) }),
            held.adds_up(),
            held.n <= old(held).n + k,
            old(held).n + n < usize::MAX,
    {
        let ghost before = states.last();
        let ghost drawn = taught_tree(depth as nat, sym, taught, maxv, seed, k as nat);
        hold_out_one(ask, prime, sym, taught, op, maxv, depth, r, held, sample);
        proof {
            let after = HeldModel { counts: *held, sample: sample_view(*sample) };
            let got = choose|answer: Option<i64>, tree: Option<Node>|
                #[trigger] is_held_out(*ask, prime@, sym, op, drawn, answer, tree, before, after);
            let was_answers = answers;
            let was_states = states;
            answers = answers.push(got);
            states = states.push(after);
            assert forall|i: int| 0 <= i < answers.len() implies is_held_out(
                *ask,
                m.prime,
                m.sym,
                m.op,
                taught_tree(depth as nat, m.sym, m.taught, m.maxv, seed, i as nat),
                (#[trigger] answers[i]).0,
                answers[i].1,
                states[i],
                states[i + 1],
            ) by {
                if i < k {
                    assert(answers[i] == was_answers[i]);
                    assert(states[i] == was_states[i] && states[i + 1] == was_states[i + 1]);
                }
            }
        }
    }
    assert(is_held_run(*ask, m, depth as nat, seed, answers, states) && answers.len() == n);
}

/// The outcome of a discovery: what was taught, what was observed, how the operators rank, and how well the
/// discovered one does on held-out expressions.
pub struct Discovered {
    pub prime: String,
    pub seen: Vec<(i64, i64, i64)>,
    pub found: Discovery,
    pub held: HeldOut,
    pub sample: Option<(String, i64, Vec<i64>)>,
}

/// Nothing was held out yet.
pub open spec fn nothing_held(m: HeldModel) -> bool {
    m.counts.n == 0 && m.counts.adds_up() && m.sample is None
}

/// The held-out expressions of depth two, three and four, one after the other.
pub open spec fn is_verified_all<F: Fn(String) -> Option<i64>>(
    ask: F,
    m: SymbolModel,
    seed: u64,
    n: nat,
    at: Seq<HeldModel>,
) -> bool {
    let s3 = taught_seed(2, m.sym, m.taught, m.maxv, seed, n);
    let s4 = taught_seed(3, m.sym, m.taught, m.maxv, s3, n);
    &&& at.len() == 4
    &&& nothing_held(at[0])
    &&& is_verified(ask, m, 2, seed, n, at[0], at[1])
    &&& is_verified(ask, m, 3, s3, n, at[1], at[2])
    &&& is_verified(ask, m, 4, s4, n, at[2], at[3])
}

/// The operator that explains the observed table best.
pub open spec fn best_operator(found: Discovery) -> char {
    found.ranked@[0].0
}

/// What follows the observation: where the best operator explains the table, it is tried on held-out expressions.
pub open spec fn is_followed_up<F: Fn(String) -> Option<i64>>(
    ask: F,
    m: SymbolModel,
    found: Discovery,
    seed: u64,
    n: nat,
    last: HeldModel,
) -> bool {
    if found.inducible {
        exists|at: Seq<HeldModel>| #[trigger] is_verified_all(ask, m, seed, n, at) && last == at[3]
    } else {
        nothing_held(last)
    }
}

/// The operator that is taught: the one asked for if the basis has it, else addition.
pub open spec fn taught_for(asked: char) -> char {
    if basis_ops().contains(asked) { asked } else { '+' }
}

/// Discovers an operator from behaviour: teaches the symbol by examples, observes its table on `probe_n` pairs, ranks
/// the operators of the basis and, where the best explains the table, checks it on `verify_n` held-out expressions of
/// each depth.
pub fn discover<F: Fn(String) -> Option<i64>>(
    ask: F,
    sym: char,
    asked: char,
    maxv: i64,
    probe_n: usize,
    verify_n: usize,
    seed: u64,
) -> (d: Discovered)
    requires
        can_be_asked(ask),
        0 <= maxv,
        3 * verify_n < usize::MAX,
    ensures
        ({
            let taught = taught_for(asked);
            let (prime, after) = lesson(sym, taught, maxv, seed, 8, 2000);
            &&& d.prime@ == prime
            &&& is_probed(ask, prime, sym, maxv, after, probe_n as nat, d.seen@)
            &&& is_discovery(d.found, d.seen@)
            &&& is_followed_up(
                ask,
                SymbolModel { prime, sym, taught, op: best_operator(d.found), maxv },
                d.found,
                pair_seed(after, probe_n as nat),
                verify_n as nat,
                HeldModel { counts: d.held, sample: sample_view(d.sample) },
            )
        }),
{
    let taught = taught_op(asked);
    let mut r: u64 = seed;
    let prime = teach(sym, taught, maxv, &mut r);
    let ghost after = r;
    let seen = probe_table(&ask, prime.as_str(), sym, maxv, probe_n, &mut r);
    let ghost start = r;
    let found = induce_operator(seen.as_slice());
    let mut held = HeldOut::new();
    let mut sample: Option<(String, i64, Vec<i64>)> = None;
    let ghost zero = HeldModel { counts: held, sample: sample_view(sample) };
    if found.inducible {
        assert(found.ranked@.len() > 0);
        let op = found.ranked[0].0;
        let ghost m = SymbolModel { prime: prime@, sym, taught, op, maxv };
        let ghost mut at: Seq<HeldModel> = seq![zero];
        hold_out_depth(&ask, prime.as_str(), sym, taught, op, maxv, 2, verify_n, &mut r, &mut held, &mut sample);
        proof {
            at = at.push(HeldModel { counts: held, sample: sample_view(sample) });
        }
        hold_out_depth(&ask, prime.as_str(), sym, taught, op, maxv, 3, verify_n, &mut r, &mut held, &mut sample);
        proof {
            at = at.push(HeldModel { counts: held, sample: sample_view(sample) });
        }
        hold_out_depth(&ask, prime.as_str(), sym, taught, op, maxv, 4, verify_n, &mut r, &mut held, &mut sample);
        proof {
            at = at.push(HeldModel { counts: held, sample: sample_view(sample) });
            assert(is_verified_all(ask, m, start, verify_n as nat, at));
        }
    }
    Discovered { prime, seen, found, held, sample }
}

} // verus!
