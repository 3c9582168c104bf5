//! What holds of every drawn pair: which draws of the stream make it.
use vstd::prelude::*;
use crate::draw_laws::nth_draw;
use crate::patch_sweeps::{pair_from, pair_prime, PairKind};
use crate::probe_laws::{bindings_are_distinct, hold_pairs_are_matched, patch_pairs_are_matched};
use crate::recursion_dl::{Node, Outcome};
use crate::recursion_probe::{
    bind_pair, clamped, expr_text, true_value, bindings_text, digit_of, distinct_digits, hold_pair, letters, other_digit, patch_pair, query_text, shares,
    shuffle_from, shuffled, sum_chain, swapped,
};
use crate::retrieval::first_occurrences;
use crate::text::{digit_char, int_text};

verus! {

/// The digit that a draw gives.
pub open spec fn drawn_digit(seed: u64, k: nat) -> i64 {
    (nth_draw(seed, k) as int % 10) as i64
}

proof fn draws_add_up(seed: u64, k: nat, m: nat)
    ensures
        nth_draw(nth_draw(seed, k), m) == nth_draw(seed, k + m),
    decreases m,
{
    if m > 0 {
        draws_add_up(seed, k, (m - 1) as nat);
    }
}

/// A sum of two numbers that a draw takes apart: the first is the draw within the whole.
pub open spec fn taken_apart(v: i64, draw: u64) -> Node {
    let a = (draw as int % (v + 1)) as i64;
    Node::Op('+', Box::new(Node::Leaf(a)), Box::new(Node::Leaf((v - a) as i64)), 0, 0)
}

proof fn lowest_bit(x: u64)
    ensures
        (x & 1 == 0) == (x % 2 == 0),
{
    assert((x & 1 == 0) == (x % 2 == 0)) by (bit_vector);
}

/// A patch pair comes of eight draws: the root is a sum where the first is even, and else a difference; the right operand
/// is a sum or a product of the digits of the third and the fourth; the digits of the fifth and the sixth are the left
/// values, which the last two take apart. Draws that give a right value, or an answer, of more than one digit, or the same
/// left value twice, are passed over.
pub proof fn patch_pairs_are_drawn(seed: u64, tries: nat)
    requires
        tries > 0,
    ensures
        ({
            let difference = nth_draw(seed, 1) % 2 == 1;
            let product = nth_draw(seed, 2) % 2 == 1;
            let c = drawn_digit(seed, 3);
            let d = drawn_digit(seed, 4);
            let x = drawn_digit(seed, 5);
            let y = drawn_digit(seed, 6);
            let right = if product { c * d } else { c + d };
            let first = if difference { x - right } else { x + right };
            let second = if difference { y - right } else { y + right };
            let both = |l: Node|
                Node::Op(
                    if difference { '-' } else { '+' },
                    Box::new(l),
                    Box::new(
                        Node::Op(
                            if product { '*' } else { '+' },
                            Box::new(Node::Leaf(c)),
                            Box::new(Node::Leaf(d)),
                            0,
                            0,
                        ),
                    ),
                    0,
                    0,
                );
            patch_pair(seed, tries) == if right > 9 {
                patch_pair(nth_draw(seed, 4), (tries - 1) as nat)
            } else if x == y || !(0 <= first <= 9) || !(0 <= second <= 9) {
                patch_pair(nth_draw(seed, 6), (tries - 1) as nat)
            } else {
                (
                    Some(
                        (
                            both(taken_apart(x, nth_draw(seed, 7))),
                            both(taken_apart(y, nth_draw(seed, 8))),
                            first as i64,
                            second as i64,
                            x,
                            y,
                        ),
                    ),
                    nth_draw(seed, 8),
                )
            }
        }),
{
    reveal_with_fuel(nth_draw, 9);
    lowest_bit(nth_draw(seed, 1));
    let c = drawn_digit(seed, 3);
    let d = drawn_digit(seed, 4);
    assert(0 <= c * d) by (nonlinear_arith)
        requires
            0 <= c,
            0 <= d,
    ;
}

/// The numbers, left to right, as one sum.
pub open spec fn summed(s: Seq<i64>) -> Node
    decreases s.len(),
{
    if s.len() <= 1 {
        Node::Leaf(s[0])
    } else {
        Node::Op('+', Box::new(summed(s.drop_last())), Box::new(Node::Leaf(s.last())), 0, 0)
    }
}

proof fn chains_are_sums(s: Seq<i64>)
    ensures
        sum_chain(s) == summed(s),
    decreases s.len(),
{
    if s.len() > 1 {
        chains_are_sums(s.drop_last());
    }
}

/// The shares of a number come of one draw each but the last: a draw within what is left, and the last is what is left.
pub proof fn shares_are_drawn(rem: i64, k: nat, seed: u64)
    requires
        0 <= rem,
        k > 0,
    ensures
        ({
            let v = (nth_draw(seed, 1) as int % (rem + 1)) as i64;
            shares(rem, k, seed) == if k == 1 {
                (seq![rem], seed)
            } else {
                let (more, after) = shares((rem - v) as i64, (k - 1) as nat, nth_draw(seed, 1));
                (seq![v] + more, after)
            }
        }),
{
    reveal_with_fuel(nth_draw, 2);
}

/// A hold pair comes of its draws in turn: the root, the right value, its shares, the two left values, and how those two
/// are taken apart. Draws that give an answer of more than one digit, or the same left value twice, are passed over.
pub proof fn hold_pairs_are_drawn(hold: nat, seed: u64, tries: nat)
    requires
        tries > 0,
    ensures
        ({
            let difference = nth_draw(seed, 1) % 2 == 1;
            let right = drawn_digit(seed, 2);
            let (leaves, s) = shares(right, hold + 1, nth_draw(seed, 2));
            let x = drawn_digit(s, 1);
            let y = drawn_digit(s, 2);
            let first = if difference { x - right } else { x + right };
            let second = if difference { y - right } else { y + right };
            let both = |l: Node|
                Node::Op(if difference { '-' } else { '+' }, Box::new(l), Box::new(summed(leaves)), 0, 0);
            hold_pair(hold, seed, tries) == if x == y || !(0 <= first <= 9) || !(0 <= second <= 9) {
                hold_pair(hold, nth_draw(s, 2), (tries - 1) as nat)
            } else {
                (
                    Some(
                        (
                            both(taken_apart(x, nth_draw(s, 3))),
                            both(taken_apart(y, nth_draw(s, 4))),
                            first as i64,
                            second as i64,
                        ),
                    ),
                    nth_draw(s, 4),
                )
            }
        }),
{
    reveal_with_fuel(nth_draw, 5);
    lowest_bit(nth_draw(seed, 1));
    let (leaves, s) = shares(drawn_digit(seed, 2), hold + 1, nth_draw(seed, 2));
    chains_are_sums(leaves);
}

/// A shuffle gives each place, from the last on, one of the letters that are left: the one that a draw counts off. The
/// letter that stood there goes where that one was.
pub proof fn shuffled_letters_are_drawn(s: Seq<char>, i: int, seed: u64)
    requires
        0 < i < s.len(),
    ensures
        ({
            let j = nth_draw(seed, 1) as int % (i + 1);
            let (r, after) = shuffle_from(s, i, seed);
            let left = Seq::new(i as nat, |k: int| if k == j { s[i] } else { s[k] });
            &&& r.len() == s.len()
            &&& r[i] == s[j]
            &&& forall|k: int| i < k < s.len() ==> #[trigger] r[k] == s[k]
            &&& r.take(i) == shuffle_from(left, i - 1, nth_draw(seed, 1)).0
            &&& after == nth_draw(seed, i as nat)
        }),
    decreases i,
{
    reveal_with_fuel(nth_draw, 2);
    let d = shuffled(seed);
    let j = d as int % (i + 1);
    let t = swapped(s, i, j);
    let left = Seq::new(i as nat, |k: int| if k == j { s[i] } else { s[k] });
    assert(t.take(i) =~= left);
    shuffle_stays_within(t, i, i - 1, d);
    draws_add_up(seed, 1, (i - 1) as nat);
}

/// A shuffle of the first places leaves the others, and does not depend on them.
proof fn shuffle_stays_within(s: Seq<char>, n: int, i: int, seed: u64)
    requires
        0 <= i < n <= s.len(),
    ensures
        shuffle_from(s, i, seed).0.len() == s.len(),
        forall|k: int| i < k < s.len() ==> #[trigger] shuffle_from(s, i, seed).0[k] == s[k],
        shuffle_from(s, i, seed).0.take(n) == shuffle_from(s.take(n), i, seed).0,
        shuffle_from(s, i, seed).1 == nth_draw(seed, i as nat),
        shuffle_from(s.take(n), i, seed).1 == nth_draw(seed, i as nat),
    decreases i,
{
    reveal_with_fuel(nth_draw, 2);
    if i > 0 {
        let d = shuffled(seed);
        let j = d as int % (i + 1);
        let t = swapped(s, i, j);
        assert(t.take(n) =~= swapped(s.take(n), i, j));
        shuffle_stays_within(t, n, i - 1, d);
        draws_add_up(seed, 1, (i - 1) as nat);
    }
}

/// The digits of the first `m` draws.
pub open spec fn first_digits(seed: u64, m: nat) -> Seq<i64> {
    Seq::new(m, |k: int| drawn_digit(seed, (k + 1) as nat))
}

/// The values of a binding are the digits of the draws in the order in which they first come, until there are enough.
pub proof fn values_are_drawn(n: nat, seed: u64, tries: nat)
    ensures
        exists|m: nat|
            m <= tries && distinct_digits(Seq::empty(), n, seed, tries) == (
                first_occurrences(#[trigger] first_digits(seed, m)),
                nth_draw(seed, m),
            ) && (m == tries || first_occurrences(first_digits(seed, m)).len() >= n) && forall|l: nat|
                l < m ==> first_occurrences(#[trigger] first_digits(seed, l)).len() < n,
{
    assert(first_digits(seed, 0) =~= Seq::empty());
    assert(first_occurrences(Seq::<i64>::empty()) =~= Seq::empty());
    digits_go_on(n, seed, 0, tries);
}

proof fn digits_go_on(n: nat, seed: u64, k: nat, tries: nat)
    requires
        forall|l: nat| l < k ==> first_occurrences(#[trigger] first_digits(seed, l)).len() < n,
    ensures
        exists|m: nat|
            m <= k + tries && distinct_digits(first_occurrences(first_digits(seed, k)), n, nth_draw(seed, k), tries) == (
                first_occurrences(#[trigger] first_digits(seed, m)),
                nth_draw(seed, m),
            ) && (m == k + tries || first_occurrences(first_digits(seed, m)).len() >= n) && forall|l: nat|
                l < m ==> first_occurrences(#[trigger] first_digits(seed, l)).len() < n,
    decreases tries,
{
    let here = first_digits(seed, k);
    let vals = first_occurrences(here);
    if vals.len() >= n || tries == 0 {
        assert(distinct_digits(vals, n, nth_draw(seed, k), tries) == (first_occurrences(first_digits(seed, k)), nth_draw(seed, k)));
    } else {
        let next = first_digits(seed, k + 1);
        assert(next.drop_last() =~= here);
        assert(next.last() == drawn_digit(seed, k + 1));
        let d = shuffled(nth_draw(seed, k));
        assert(nth_draw(seed, k + 1) == d);
        crate::retrieval_laws::occurrences_are_distinct(here);
        assert(first_occurrences(next) == (if vals.contains(digit_of(d)) { vals } else { vals.push(digit_of(d)) }));
        digits_go_on(n, seed, k + 1, (tries - 1) as nat);
    }
}

/// The other value is the digit of the first draw that is none of the values.
pub proof fn other_value_is_drawn(vals: Seq<i64>, seed: u64, tries: nat, m: nat)
    requires
        m < tries,
        forall|l: nat| l < m ==> vals.contains(#[trigger] drawn_digit(seed, l + 1)),
        !vals.contains(drawn_digit(seed, m + 1)),
    ensures
        other_digit(vals, seed, tries) == (Some(drawn_digit(seed, m + 1)), nth_draw(seed, m + 1)),
    decreases m,
{
    reveal_with_fuel(nth_draw, 2);
    let d = shuffled(seed);
    if m > 0 {
        assert(vals.contains(drawn_digit(seed, 0 + 1)));
        assert forall|l: nat| l < m - 1 implies vals.contains(#[trigger] drawn_digit(d, l + 1)) by {
            draws_add_up(seed, 1, l + 1);
            assert(vals.contains(drawn_digit(seed, (l + 1) + 1)));
        }
        draws_add_up(seed, 1, m);
        other_value_is_drawn(vals, d, (tries - 1) as nat, (m - 1) as nat);
    }
}

/// Where every draw gives one of the values there is no other.
pub proof fn no_other_value(vals: Seq<i64>, seed: u64, tries: nat)
    requires
        forall|l: nat| l < tries ==> vals.contains(#[trigger] drawn_digit(seed, l + 1)),
    ensures
        other_digit(vals, seed, tries) == (None::<i64>, nth_draw(seed, tries)),
    decreases tries,
{
    reveal_with_fuel(nth_draw, 2);
    if tries > 0 {
        let d = shuffled(seed);
        assert(vals.contains(drawn_digit(seed, 0 + 1)));
        assert forall|l: nat| l < tries - 1 implies vals.contains(#[trigger] drawn_digit(d, l + 1)) by {
            draws_add_up(seed, 1, l + 1);
            assert(vals.contains(drawn_digit(seed, (l + 1) + 1)));
        }
        draws_add_up(seed, 1, (tries - 1) as nat);
        no_other_value(vals, d, (tries - 1) as nat);
    }
}

/// A query shows each variable with its digit, in order, a space behind each, and then asks for the first one.
pub proof fn queries_are_written(vars: Seq<char>, vals: Seq<i64>)
    requires
        vars.len() > 0,
        vals.len() == vars.len(),
        forall|i: int| 0 <= i < vals.len() ==> 0 <= #[trigger] vals[i] <= 9,
    ensures
        ({
            let n = vars.len() as int;
            let s = query_text(vars, vals);
            &&& s.len() == 4 * n + 2
            &&& forall|i: int|
                0 <= i < n ==> s[4 * i] == #[trigger] vars[i] && s[4 * i + 1] == '=' && s[4 * i + 2] as int == 48 + vals[i]
                    && s[4 * i + 3] == ' '
            &&& s[4 * n] == vars[0]
            &&& s[4 * n + 1] == '='
        }),
{
    let n = vars.len() as int;
    let b = bindings_text(vars, vals);
    let s = query_text(vars, vals);
    bindings_are_written(vars, vals);
    assert forall|i: int| 0 <= i < n implies s[4 * i] == #[trigger] vars[i] && s[4 * i + 1] == '=' && s[4 * i + 2] as int == 48
        + vals[i] && s[4 * i + 3] == ' ' by {
        let c = vars[i];
        assert(b[4 * i] == c);
        assert(b[4 * i + 1] == '=');
        assert(b[4 * i + 2] as int == 48 + vals[i]);
        assert(s[4 * i] == b[4 * i] && s[4 * i + 1] == b[4 * i + 1] && s[4 * i + 2] == b[4 * i + 2]);
        if i < n - 1 {
            assert(b[4 * i + 3] == ' ');
            assert(s[4 * i + 3] == b[4 * i + 3]);
        } else {
            assert(4 * i + 3 == b.len());
            assert(s[4 * i + 3] == seq![' ', vars[0], '='][0]);
        }
    }
    assert(s[4 * n] == seq![' ', vars[0], '='][1]);
    assert(s[4 * n + 1] == seq![' ', vars[0], '='][2]);
}

proof fn bindings_are_written(vars: Seq<char>, vals: Seq<i64>)
    requires
        vars.len() > 0,
        vals.len() >= vars.len(),
        forall|i: int| 0 <= i < vals.len() ==> 0 <= #[trigger] vals[i] <= 9,
    ensures
        ({
            let n = vars.len() as int;
            let s = bindings_text(vars, vals);
            &&& s.len() == 4 * n - 1
            &&& forall|i: int|
                0 <= i < n ==> s[4 * i] == #[trigger] vars[i] && s[4 * i + 1] == '=' && s[4 * i + 2] as int == 48 + vals[i] && (i
                    < n - 1 ==> s[4 * i + 3] == ' ')
        }),
    decreases vars.len(),
{
    let n = vars.len() as int;
    let v = vals[n - 1];
    let here = seq![vars.last(), '='] + int_text(v as int);
    assert(int_text(v as int) == seq![digit_char(v as int)]);
    let s = bindings_text(vars, vals);
    if n > 1 {
        let head = vars.drop_last();
        bindings_are_written(head, vals);
        let b = bindings_text(head, vals);
        assert forall|i: int| 0 <= i < n implies s[4 * i] == #[trigger] vars[i] && s[4 * i + 1] == '=' && s[4 * i + 2] as int
            == 48 + vals[i] && (i < n - 1 ==> s[4 * i + 3] == ' ') by {
            if i < n - 1 {
                assert(head[i] == vars[i]);
                assert(s[4 * i] == b[4 * i] && s[4 * i + 1] == b[4 * i + 1] && s[4 * i + 2] == b[4 * i + 2]);
                if i < n - 2 {
                    assert(s[4 * i + 3] == b[4 * i + 3]);
                }
            }
        }
    }
}

/// A binding pair takes as many shuffled letters as there are values, and the value that none of them has; where the draws
/// give too few values, or no other one, the next are tried.
pub proof fn bindings_are_drawn(nv: nat, seed: u64, tries: nat)
    requires
        tries > 0,
    ensures
        ({
            let (order, s) = shuffle_from(seq!['a', 'b', 'c', 'd', 'e', 'f', 'g', 'h'], 7, seed);
            let (vals, t) = distinct_digits(Seq::empty(), nv, s, 200);
            let (other, u) = other_digit(vals, t, 10);
            bind_pair(nv, seed, tries) == if vals.len() < nv {
                bind_pair(nv, t, (tries - 1) as nat)
            } else if other is None {
                bind_pair(nv, u, (tries - 1) as nat)
            } else {
                (Some((order.take(nv as int), vals, other->0)), u)
            }
        }),
{
}

/// The text asks for the number: an expression of that value stands before the sign of equality.
pub open spec fn asks(text: Seq<char>, prime: Seq<char>, answer: i64) -> bool {
    exists|n: Node| text == prime + #[trigger] expr_text(n) + seq![' ', '='] && true_value(n) == Outcome::Value(answer)
}

/// The two questions of a pair of expressions each ask for the answer that goes with them, and the answers differ. A pair
/// of bindings shows the first answer as the value of the queried variable in the first question, the other answer there
/// in the second, and the same everywhere else.
pub proof fn questions_have_their_answers(kind: PairKind, seed: u64)
    ensures
        pair_from(kind, seed).0 matches Some(p) ==> {
            &&& p.first_answer != p.second_answer
            &&& 0 <= p.first_answer <= 9 && 0 <= p.second_answer <= 9
            &&& kind !is Bind ==> asks(p.first, pair_prime(kind), p.first_answer) && asks(
                p.second,
                pair_prime(kind),
                p.second_answer,
            )
            &&& kind is Bind ==> {
                let at = pair_prime(kind).len() as int;
                &&& p.first.len() == p.second.len() > at + 2
                &&& p.first.take(at) == pair_prime(kind) && p.second.take(at) == pair_prime(kind)
                &&& p.first[at + 2] as int == 48 + p.first_answer
                &&& p.second[at + 2] as int == 48 + p.second_answer
                &&& forall|i: int| 0 <= i < p.first.len() && i != at + 2 ==> p.first[i] == #[trigger] p.second[i]
            }
        },
{
    reveal_strlit(" =");
    assert(" ="@ =~= seq![' ', '=']);
    match kind {
        PairKind::Left => {
            patch_pairs_are_matched(seed, 3000);
            if let Some((a, b, va, vb, _, _)) = patch_pair(seed, 3000).0 {
                let p = pair_from(kind, seed).0->0;
                assert(p.first == pair_prime(kind) + expr_text(a) + seq![' ', '=']);
                assert(p.second == pair_prime(kind) + expr_text(b) + seq![' ', '=']);
            }
        },
        PairKind::Hold(hold) => {
            if hold > 0 {
                hold_pairs_are_matched(hold as nat, seed, 4000);
                if let Some((a, b, va, vb)) = hold_pair(hold as nat, seed, 4000).0 {
                    let p = pair_from(kind, seed).0->0;
                    assert(p.first == pair_prime(kind) + expr_text(a) + seq![' ', '=']);
                    assert(p.second == pair_prime(kind) + expr_text(b) + seq![' ', '=']);
                }
            }
        },
        PairKind::Bind(nvars) => {
            let nv = clamped(nvars as nat);
            bindings_are_distinct(nv, seed, 2000);
            if let Some((vars, vals, other)) = bind_pair(nv, seed, 2000).0 {
                let p = pair_from(kind, seed).0->0;
                let at = pair_prime(kind).len() as int;
                let changed = vals.update(0, other);
                assert(vals.contains(vals[0]));
                queries_are_written(vars, vals);
                queries_are_written(vars, changed);
                let q = query_text(vars, vals);
                let t = query_text(vars, changed);
                assert(p.first.take(at) =~= pair_prime(kind));
                assert(p.second.take(at) =~= pair_prime(kind));
                assert(vars[0] == vars[0]);
                assert forall|k: int| 0 <= k < q.len() && k != 2 implies q[k] == #[trigger] t[k] by {
                    let i = k / 4;
                    if i < vars.len() {
                        let c = vars[i];
                        assert(q[4 * i] == c && t[4 * i] == c);
                        assert(i > 0 ==> changed[i] == vals[i]);
                        assert(k == 4 * i || k == 4 * i + 1 || k == 4 * i + 2 || k == 4 * i + 3);
                    }
                }
                assert forall|i: int| 0 <= i < p.first.len() && i != at + 2 implies p.first[i] == #[trigger] p.second[i] by {
                    if i >= at {
                        assert(q[i - at] == t[i - at]);
                    }
                }
            }
        },
    }
}

} // verus!
