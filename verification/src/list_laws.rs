//! What holds of every list, every drawn list and every score: how the list functions, the draws and the counts go together.
use vstd::prelude::*;
use crate::battery::{
    digits_from, fit, joined, list_from, list_max, list_min, list_sum, list_value, name_text, next_asked, prime_text, ListFn,
};
use crate::discover::{example_text, lesson, table_match};
use crate::draw_laws::nth_draw;
use crate::pair_laws::drawn_digit;
use crate::recursion_probe::{meaning, shuffled};
use crate::sweeps::{pair_at, pair_seed};
use crate::text::int_text;

verus! {

/// The ends of a list: its first number, its second and its last.
pub proof fn ends_are_found(x: i64, y: i64, rest: Seq<i64>)
    ensures
        list_value(ListFn::First, seq![x] + rest) == Some(x as int),
        list_value(ListFn::Second, seq![x, y] + rest) == Some(y as int),
        list_value(ListFn::Last, rest + seq![x]) == Some(x as int),
        list_value(ListFn::First, Seq::empty()) is None,
        list_value(ListFn::Last, Seq::empty()) is None,
        list_value(ListFn::Max, Seq::empty()) is None,
        list_value(ListFn::Min, Seq::empty()) is None,
        list_value(ListFn::Second, seq![x]) is None,
        list_value(ListFn::Second, Seq::empty()) is None,
{
}

proof fn sums_of_parts(a: Seq<i64>, b: Seq<i64>)
    ensures
        list_sum(a + b) == list_sum(a) + list_sum(b),
    decreases b.len(),
{
    if b.len() == 0 {
        assert(a + b =~= a);
    } else {
        assert((a + b).drop_last() =~= a + b.drop_last());
        sums_of_parts(a, b.drop_last());
    }
}

/// Lengths and sums of two lists behind one another add up; the sum of one number is that number, and the last digit of
/// the sum is what it leaves by ten.
pub proof fn lengths_and_sums_add_up(a: Seq<i64>, b: Seq<i64>, x: i64)
    ensures
        list_value(ListFn::Len, a + b)->0 == list_value(ListFn::Len, a)->0 + list_value(ListFn::Len, b)->0,
        list_value(ListFn::Len, seq![x]) == Some(1int),
        list_value(ListFn::Sum, a + b)->0 == list_value(ListFn::Sum, a)->0 + list_value(ListFn::Sum, b)->0,
        list_value(ListFn::Sum, seq![x]) == Some(x as int),
        list_value(ListFn::Sum, a) is Some,
        list_value(ListFn::Len, a) is Some,
        list_value(ListFn::SumMod10, a) == Some(list_value(ListFn::Sum, a)->0 % 10),
{
    sums_of_parts(a, b);
    reveal_with_fuel(list_sum, 2);
    assert(seq![x].drop_last() =~= Seq::empty());
}

/// The greatest number of two lists behind one another is the greater of their greatest, and the least the lesser.
pub proof fn extremes_go_together(a: Seq<i64>, b: Seq<i64>)
    requires
        a.len() > 0,
        b.len() > 0,
    ensures
        ({
            let x = list_value(ListFn::Max, a)->0;
            let y = list_value(ListFn::Max, b)->0;
            list_value(ListFn::Max, a + b) == Some(if x >= y { x } else { y })
        }),
        ({
            let x = list_value(ListFn::Min, a)->0;
            let y = list_value(ListFn::Min, b)->0;
            list_value(ListFn::Min, a + b) == Some(if x <= y { x } else { y })
        }),
    decreases b.len(),
{
    assert((a + b).drop_last() =~= a + b.drop_last());
    if b.len() > 1 {
        extremes_go_together(a, b.drop_last());
    } else {
        assert(a + b.drop_last() =~= a);
    }
}

/// A list comes of its draws: the first says how long it is, and each of the next gives one digit.
pub proof fn lists_are_drawn(lmin: nat, lmax: nat, seed: u64)
    requires
        lmin <= lmax,
    ensures
        ({
            let (l, after) = list_from(lmin, lmax, seed);
            &&& l.len() == lmin + nth_draw(seed, 1) as int % (lmax - lmin + 1)
            &&& forall|i: int| 0 <= i < l.len() ==> #[trigger] l[i] == drawn_digit(seed, (i + 2) as nat)
            &&& after == nth_draw(seed, l.len() + 1)
        }),
{
    reveal_with_fuel(nth_draw, 2);
    let s = shuffled(seed);
    let n = (lmin + s as int % (lmax - lmin + 1)) as nat;
    digits_are_drawn(seed, n);
}

proof fn digits_are_drawn(seed: u64, n: nat)
    ensures
        digits_from(nth_draw(seed, 1), n).0.len() == n,
        forall|i: int| 0 <= i < n ==> #[trigger] digits_from(nth_draw(seed, 1), n).0[i] == drawn_digit(seed, (i + 2) as nat),
        digits_from(nth_draw(seed, 1), n).1 == nth_draw(seed, n + 1),
    decreases n,
{
    if n > 0 {
        let k = (n - 1) as nat;
        digits_are_drawn(seed, k);
        let head = digits_from(nth_draw(seed, 1), k).0;
        let all = digits_from(nth_draw(seed, 1), n).0;
        assert forall|i: int| 0 <= i < n implies #[trigger] all[i] == drawn_digit(seed, (i + 2) as nat) by {
            if i < k {
                assert(all[i] == head[i]);
            }
        }
    }
}

/// The list that is asked about is the first drawn one with a value of one digit; every list before it costs a draw.
pub proof fn first_askable_is_asked(f: ListFn, lmin: nat, lmax: nat, left: nat, seed: u64)
    requires
        left > 0,
    ensures
        ({
            let (l, after) = list_from(lmin, lmax, seed);
            let askable = list_value(f, l) matches Some(v) && 0 <= v <= 9;
            next_asked(f, lmin, lmax, left, seed) == if askable {
                (Some(l), (left - 1) as nat, after)
            } else {
                next_asked(f, lmin, lmax, (left - 1) as nat, after)
            }
        }),
{
}

/// Scores of observations add up; one observation counts where the function has a value on it, and is reproduced where
/// that is the value observed.
pub proof fn fits_add_up(f: ListFn, a: Seq<(Vec<i64>, i64)>, b: Seq<(Vec<i64>, i64)>, one: (Vec<i64>, i64))
    ensures
        fit(f, a + b).0 == fit(f, a).0 + fit(f, b).0,
        fit(f, a + b).1 == fit(f, a).1 + fit(f, b).1,
        fit(f, seq![one]).1 == (if list_value(f, one.0@) is Some { 1nat } else { 0 }),
        fit(f, seq![one]).0 == (if list_value(f, one.0@) == Some(one.1 as int) { 1nat } else { 0 }),
    decreases b.len(),
{
    reveal_with_fuel(fit, 2);
    assert(seq![one].drop_last() =~= Seq::empty());
    if b.len() == 0 {
        assert(a + b =~= a);
    } else {
        assert((a + b).drop_last() =~= a + b.drop_last());
        assert((a + b).last() == b.last());
        fits_add_up(f, a, b.drop_last(), one);
    }
}

/// Scores of an operator add up in the same way.
pub proof fn matches_add_up(op: char, a: Seq<(i64, i64, i64)>, b: Seq<(i64, i64, i64)>, one: (i64, i64, i64))
    ensures
        table_match(op, a + b).0 == table_match(op, a).0 + table_match(op, b).0,
        table_match(op, a + b).1 == table_match(op, a).1 + table_match(op, b).1,
        table_match(op, seq![one]).1 == (if meaning(op, one.0, one.1) is Some { 1nat } else { 0 }),
        table_match(op, seq![one]).0 == (if meaning(op, one.0, one.1) == Some(one.2 as int) { 1nat } else { 0 }),
    decreases b.len(),
{
    reveal_with_fuel(table_match, 2);
    assert(seq![one].drop_last() =~= Seq::empty());
    if b.len() == 0 {
        assert(a + b =~= a);
    } else {
        assert((a + b).drop_last() =~= a + b.drop_last());
        assert((a + b).last() == b.last());
        matches_add_up(op, a, b.drop_last(), one);
    }
}

/// An example of a lesson comes of two draws, and shows the symbol with what the operator makes of them; two draws without
/// a result within the bound show nothing.
pub proof fn examples_are_drawn(sym: char, op: char, maxv: i64, seed: u64, k: nat, tries: nat)
    requires
        0 <= maxv,
        k > 0,
        tries > 0,
    ensures
        ({
            let a = (nth_draw(seed, 1) as int % (maxv + 1)) as i64;
            let b = (nth_draw(seed, 2) as int % (maxv + 1)) as i64;
            let rest = (tries - 1) as nat;
            match meaning(op, a, b) {
                Some(v) => if 0 <= v <= maxv {
                    let (more, after) = lesson(sym, op, maxv, nth_draw(seed, 2), (k - 1) as nat, rest);
                    lesson(sym, op, maxv, seed, k, tries) == (
                        seq!['(', sym, ' '] + int_text(a as int) + seq![' '] + int_text(b as int) + seq![')', ' ', '=', ' ']
                            + int_text(v) + seq!['\n'] + more,
                        after,
                    )
                } else {
                    lesson(sym, op, maxv, seed, k, tries) == lesson(sym, op, maxv, nth_draw(seed, 2), k, rest)
                },
                None => lesson(sym, op, maxv, seed, k, tries) == lesson(sym, op, maxv, nth_draw(seed, 2), k, rest),
            }
        }),
{
    reveal_with_fuel(nth_draw, 3);
    reveal_strlit("(");
    reveal_strlit(" ");
    reveal_strlit(")");
    reveal_strlit(" = ");
    reveal_strlit("\n");
    let a = (nth_draw(seed, 1) as int % (maxv + 1)) as i64;
    let b = (nth_draw(seed, 2) as int % (maxv + 1)) as i64;
    if let Some(v) = meaning(op, a, b) {
        if 0 <= v <= maxv {
            let more = lesson(sym, op, maxv, nth_draw(seed, 2), (k - 1) as nat, (tries - 1) as nat).0;
            assert(example_text(sym, a, b, v as i64) + more =~= seq!['(', sym, ' '] + int_text(a as int) + seq![' '] + int_text(
                b as int,
            ) + seq![')', ' ', '=', ' '] + int_text(v) + seq!['\n'] + more);
        }
    }
}

/// The pairs that are probed come of two draws each, one after the other.
pub proof fn probed_pairs_are_drawn(maxv: i64, seed: u64, i: nat)
    requires
        0 <= maxv,
    ensures
        pair_at(maxv, seed, i) == (
            (nth_draw(seed, 2 * i + 1) as int % (maxv + 1)) as i64,
            (nth_draw(seed, 2 * i + 2) as int % (maxv + 1)) as i64,
        ),
        pair_seed(seed, i) == nth_draw(seed, 2 * i),
    decreases i,
{
    if i > 0 {
        probed_pairs_are_drawn(maxv, seed, (i - 1) as nat);
        assert(2 * i == 2 * (i - 1) + 2);
        assert(nth_draw(seed, 2 * i) == shuffled(shuffled(nth_draw(seed, (2 * i - 2) as nat)))) by {
            reveal_with_fuel(nth_draw, 3);
        }
    }
    assert(nth_draw(seed, 2 * i + 1) == shuffled(nth_draw(seed, 2 * i)));
    assert(nth_draw(seed, 2 * i + 2) == shuffled(nth_draw(seed, 2 * i + 1)));
}

// ---- The examples of the questions.

/// One solved example, as a question is written.
pub open spec fn solved(f: ListFn, l: Seq<i64>) -> Seq<char> {
    name_text(f) + seq![' '] + joined(l, ' ') + seq![' ', '=', ' '] + int_text(list_value(f, l)->0) + seq!['\n']
}

proof fn digits_are_numerals()
    ensures
        int_text(0) == seq!['0'],
        int_text(1) == seq!['1'],
        int_text(2) == seq!['2'],
        int_text(3) == seq!['3'],
        int_text(4) == seq!['4'],
        int_text(5) == seq!['5'],
        int_text(6) == seq!['6'],
        int_text(7) == seq!['7'],
        int_text(8) == seq!['8'],
        int_text(9) == seq!['9'],
{
}

proof fn three_joined(a: i64, b: i64, c: i64)
    ensures
        joined(seq![a, b, c], ' ') == int_text(a as int) + seq![' '] + int_text(b as int) + seq![' '] + int_text(c as int),
        list_sum(seq![a, b, c]) == a + b + c,
        list_max(seq![a, b, c]) == (if a >= b && a >= c { a } else if b >= c { b } else { c }),
        list_min(seq![a, b, c]) == (if a <= b && a <= c { a } else if b <= c { b } else { c }),
{
    let l = seq![a, b, c];
    assert(l.drop_last() =~= seq![a, b]);
    assert(seq![a, b].drop_last() =~= seq![a]);
    assert(seq![a].drop_last() =~= Seq::empty());
    reveal_with_fuel(joined, 4);
    reveal_with_fuel(list_sum, 5);
    reveal_with_fuel(list_max, 4);
    reveal_with_fuel(list_min, 4);
}

proof fn four_joined(a: i64, b: i64, c: i64, d: i64)
    ensures
        joined(seq![a, b, c, d], ' ') == int_text(a as int) + seq![' '] + int_text(b as int) + seq![' '] + int_text(c as int)
            + seq![' '] + int_text(d as int),
        list_max(seq![a, b, c, d]) == (if a >= b && a >= c && a >= d { a } else if b >= c && b >= d { b } else if c >= d { c } else {
            d
        }),
        list_min(seq![a, b, c, d]) == (if a <= b && a <= c && a <= d { a } else if b <= c && b <= d { b } else if c <= d { c } else {
            d
        }),
{
    let l = seq![a, b, c, d];
    assert(l.drop_last() =~= seq![a, b, c]);
    three_joined(a, b, c);
    reveal_with_fuel(joined, 2);
    reveal_with_fuel(list_max, 2);
    reveal_with_fuel(list_min, 2);
}

/// The examples that introduce a question are lists with the true value of the function that is asked for.
pub proof fn examples_are_true(f: ListFn)
    requires
        f != ListFn::SumMod10 && f != ListFn::Second,
    ensures
        exists|a: Seq<i64>, b: Seq<i64>, c: Seq<i64>|
            prime_text(f) == #[trigger] solved(f, a) + #[trigger] solved(f, b) + #[trigger] solved(f, c),
{
    digits_are_numerals();
    three_joined(1, 8, 4);
    four_joined(3, 7, 2, 5);
    four_joined(6, 0, 9, 2);
    let a = seq![3i64, 7, 2, 5];
    let b = seq![1i64, 8, 4];
    let c = seq![6i64, 0, 9, 2];
    match f {
        ListFn::Last => {
            reveal_strlit("last");
            reveal_strlit("last 3 7 2 5 = 5\nlast 1 8 4 = 4\nlast 6 0 9 2 = 2\n");
            assert(prime_text(f) =~= solved(f, a) + solved(f, b) + solved(f, c));
        },
        ListFn::First => {
            reveal_strlit("first");
            reveal_strlit("first 3 7 2 5 = 3\nfirst 1 8 4 = 1\nfirst 6 0 9 2 = 6\n");
            assert(prime_text(f) =~= solved(f, a) + solved(f, b) + solved(f, c));
        },
        ListFn::Len => {
            let d = seq![6i64, 0, 9, 2, 5];
            reveal_strlit("len");
            reveal_strlit("len 3 7 2 5 = 4\nlen 1 8 4 = 3\nlen 6 0 9 2 5 = 5\n");
            assert(joined(d, ' ') == joined(c, ' ') + seq![' '] + int_text(5)) by {
                assert(d.drop_last() =~= c);
            }
            assert(prime_text(f) =~= solved(f, a) + solved(f, b) + solved(f, d));
        },
        ListFn::Max => {
            reveal_strlit("max");
            reveal_strlit("max 3 7 2 5 = 7\nmax 1 8 4 = 8\nmax 6 0 9 2 = 9\n");
            assert(prime_text(f) =~= solved(f, a) + solved(f, b) + solved(f, c));
        },
        ListFn::Min => {
            reveal_strlit("min");
            reveal_strlit("min 3 7 2 5 = 2\nmin 1 8 4 = 1\nmin 6 0 9 2 = 0\n");
            assert(prime_text(f) =~= solved(f, a) + solved(f, b) + solved(f, c));
        },
        ListFn::Sum => {
            let x = seq![3i64, 1, 2];
            let y = seq![4i64, 0, 1];
            let z = seq![2i64, 3, 1];
            three_joined(3, 1, 2);
            three_joined(4, 0, 1);
            three_joined(2, 3, 1);
            reveal_strlit("sum");
            reveal_strlit("sum 3 1 2 = 6\nsum 4 0 1 = 5\nsum 2 3 1 = 6\n");
            assert(prime_text(f) =~= solved(f, x) + solved(f, y) + solved(f, z));
        },
        _ => {},
    }
}

} // verus!
