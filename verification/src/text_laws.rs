//! What holds of every text that is taken apart: its numbers, its fields and its lines, and what is written in them.
use vstd::prelude::*;
use crate::asking::{continuation, digit_run, first_number, from_digit, numbers_in};
use crate::battery::joined;
use crate::probe_laws::{integer_is_read_back, numeral_is_read_back};
use crate::recursion_dl::Node;
use crate::recursion_probe::{expr_text, leaves_of};
use crate::runs::{dump_of, folded, hits, signature_of, wrapped};
use crate::stitch::three_digits;
use crate::text::{all_digits, dec, digits_value, i64_value, int_text, is_digit, position, position_is_first};
use crate::words::{fields_of, lines_of, without_return};

verus! {

// ---- Numbers.

/// No character is a digit.
pub open spec fn no_digits(s: Seq<char>) -> bool {
    forall|i: int| 0 <= i < s.len() ==> !is_digit(#[trigger] s[i])
}

proof fn rest_has_no_digits(s: Seq<char>)
    requires
        no_digits(s),
        s.len() > 0,
    ensures
        no_digits(s.skip(1)),
        !is_digit(s[0]),
{
    let t = s.skip(1);
    assert forall|i: int| 0 <= i < t.len() implies !is_digit(#[trigger] t[i]) by {
        assert(t[i] == s[i + 1]);
    }
}

proof fn no_number_is_empty()
    ensures
        i64_value(Seq::empty()) is None,
{
}

proof fn text_is_skipped(a: Seq<char>, rest: Seq<char>)
    requires
        no_digits(a),
    ensures
        from_digit(a + rest) == from_digit(rest),
        numbers_in(a + rest, Seq::empty()) == numbers_in(rest, Seq::empty()),
    decreases a.len(),
{
    let s = a + rest;
    no_number_is_empty();
    if a.len() == 0 {
        assert(s =~= rest);
    } else {
        rest_has_no_digits(a);
        text_is_skipped(a.skip(1), rest);
        assert(s.skip(1) =~= a.skip(1) + rest);
        assert(Seq::<i64>::empty() + numbers_in(s.skip(1), Seq::empty()) =~= numbers_in(s.skip(1), Seq::empty()));
    }
}

proof fn digits_are_taken(num: Seq<char>, d: Seq<char>, rest: Seq<char>)
    requires
        all_digits(d),
        rest.len() > 0 ==> !is_digit(rest[0]),
    ensures
        digit_run(d + rest) == d,
        numbers_in(d + rest, num) == numbers_in(rest, num + d),
    decreases d.len(),
{
    let s = d + rest;
    if d.len() == 0 {
        assert(s =~= rest);
        assert(num + d =~= num);
        assert(digit_run(s) =~= d);
    } else {
        assert(is_digit(d[0]));
        let t = d.skip(1);
        assert forall|i: int| 0 <= i < t.len() implies is_digit(#[trigger] t[i]) by {
            assert(t[i] == d[i + 1]);
        }
        digits_are_taken(num.push(d[0]), t, rest);
        assert(s.skip(1) =~= t + rest);
        assert(seq![d[0]] + t =~= d);
        assert(num.push(d[0]) + t =~= num + d);
    }
}

/// A number that is written behind text without digits is the first number of the text, and the numbers behind it follow.
pub proof fn numbers_are_found(a: Seq<char>, v: i64, rest: Seq<char>)
    requires
        no_digits(a),
        v >= 0,
        rest.len() > 0 ==> !is_digit(rest[0]),
    ensures
        first_number(a + (dec(v as nat) + rest)) == Some(v),
        numbers_in(a + (dec(v as nat) + rest), Seq::empty()) == seq![v] + numbers_in(rest, Seq::empty()),
{
    let d = dec(v as nat);
    numeral_is_read_back(v as nat);
    integer_is_read_back(v);
    assert(int_text(v as int) == d);
    text_is_skipped(a, d + rest);
    assert((d + rest)[0] == d[0]);
    assert(is_digit(d[0]));
    digits_are_taken(Seq::empty(), d, rest);
    assert(Seq::<char>::empty() + d =~= d);
    no_number_is_empty();
    if rest.len() > 0 {
        assert(numbers_in(rest, d) == seq![v] + numbers_in(rest.skip(1), Seq::empty()));
        assert(Seq::<i64>::empty() + numbers_in(rest.skip(1), Seq::empty()) =~= numbers_in(rest.skip(1), Seq::empty()));
    } else {
        assert(seq![v] + numbers_in(rest, Seq::empty()) =~= seq![v]);
    }
}

/// A text without digits has no number.
pub proof fn no_number_is_found(a: Seq<char>)
    requires
        no_digits(a),
    ensures
        first_number(a) is None,
        numbers_in(a, Seq::empty()) == Seq::<i64>::empty(),
{
    text_is_skipped(a, Seq::empty());
    assert(a + Seq::<char>::empty() =~= a);
    no_number_is_empty();
}

/// No operator of the tree is a digit, and no operand is negative.
pub open spec fn has_plain_numbers(n: Node) -> bool
    decreases n,
{
    match n {
        Node::Leaf(v) => v >= 0,
        Node::Op(op, a, b, _, _) => !is_digit(op) && has_plain_numbers(*a) && has_plain_numbers(*b),
    }
}

/// The numbers of an expression, as it is written, are its operands from left to right.
pub proof fn operands_are_found(n: Node)
    requires
        has_plain_numbers(n),
    ensures
        numbers_in(expr_text(n), Seq::empty()) == leaves_of(n),
{
    operands_go_before(n, Seq::empty());
    assert(expr_text(n) + Seq::<char>::empty() =~= expr_text(n));
    no_number_is_found(Seq::empty());
    assert(leaves_of(n) + Seq::<i64>::empty() =~= leaves_of(n));
}

proof fn operands_go_before(n: Node, rest: Seq<char>)
    requires
        has_plain_numbers(n),
        rest.len() > 0 ==> !is_digit(rest[0]),
    ensures
        numbers_in(expr_text(n) + rest, Seq::empty()) == leaves_of(n) + numbers_in(rest, Seq::empty()),
    decreases n,
{
    match n {
        Node::Leaf(v) => {
            numbers_are_found(Seq::empty(), v, rest);
            assert(Seq::<char>::empty() + (dec(v as nat) + rest) =~= expr_text(n) + rest);
        },
        Node::Op(op, a, b, _, _) => {
            let open = seq!['(', op, ' '];
            let close = seq![')'] + rest;
            let second = expr_text(*b) + close;
            let behind = seq![' '] + second;
            assert(expr_text(n) + rest =~= open + (expr_text(*a) + behind));
            assert(no_digits(open));
            assert(no_digits(seq![' ']));
            assert(no_digits(seq![')']));
            text_is_skipped(open, expr_text(*a) + behind);
            operands_go_before(*a, behind);
            text_is_skipped(seq![' '], second);
            operands_go_before(*b, close);
            text_is_skipped(seq![')'], rest);
            assert(leaves_of(*a) + (leaves_of(*b) + numbers_in(rest, Seq::empty())) =~= leaves_of(n) + numbers_in(
                rest,
                Seq::empty(),
            ));
        },
    }
}

/// The pieces one behind the other.
pub open spec fn glued(pieces: Seq<Seq<char>>) -> Seq<char>
    decreases pieces.len(),
{
    if pieces.len() == 0 { Seq::empty() } else { glued(pieces.drop_last()) + pieces.last() }
}

proof fn glued_from_the_first(pieces: Seq<Seq<char>>)
    requires
        pieces.len() > 0,
    ensures
        glued(pieces) == pieces[0] + glued(pieces.skip(1)),
    decreases pieces.len(),
{
    let t = pieces.skip(1);
    if pieces.len() == 1 {
        reveal_with_fuel(glued, 2);
        assert(pieces.drop_last() =~= Seq::empty());
        assert(glued(pieces) =~= pieces[0] + glued(t));
    } else {
        glued_from_the_first(pieces.drop_last());
        assert(pieces.drop_last().skip(1) =~= t.drop_last());
        assert(glued(pieces) =~= pieces[0] + glued(t));
    }
}

/// An answer is made of the pieces up to the first that ends a line, and of no more than are wanted.
pub proof fn answers_end_with_the_line(pieces: Seq<Seq<char>>, limit: nat, k: nat)
    requires
        k <= limit,
        k <= pieces.len(),
        forall|i: int| 0 <= i < k ==> !(#[trigger] pieces[i]).contains('\n'),
        k == limit || k == pieces.len() || pieces[k as int].contains('\n'),
    ensures
        continuation(pieces, limit) == glued(pieces.take(k as int)),
    decreases k,
{
    if k == 0 {
        assert(pieces.take(0) =~= Seq::empty());
    } else {
        assert(!pieces[0].contains('\n'));
        let t = pieces.skip(1);
        assert forall|i: int| 0 <= i < k - 1 implies !(#[trigger] t[i]).contains('\n') by {
            assert(t[i] == pieces[i + 1]);
        }
        answers_end_with_the_line(t, (limit - 1) as nat, (k - 1) as nat);
        glued_from_the_first(pieces.take(k as int));
        assert(pieces.take(k as int).skip(1) =~= t.take(k - 1));
    }
}

// ---- Fields and lines.

pub open spec fn is_free_of(s: Seq<char>, c: char) -> bool {
    forall|i: int| 0 <= i < s.len() ==> #[trigger] s[i] != c
}

proof fn first_separator(a: Seq<char>, c: char, rest: Seq<char>)
    requires
        is_free_of(a, c),
    ensures
        position(a + seq![c] + rest, c) == Some(a.len() as int),
        (a + seq![c] + rest).take(a.len() as int) == a,
        (a + seq![c] + rest).skip(a.len() + 1int) == rest,
        position(a, c) is None,
{
    let s = a + seq![c] + rest;
    position_is_first(s, c);
    position_is_first(a, c);
    assert(s[a.len() as int] == c);
    assert forall|i: int| 0 <= i < a.len() implies #[trigger] s[i] != c by {
        assert(s[i] == a[i]);
    }
    assert(s.take(a.len() as int) =~= a);
    assert(s.skip(a.len() + 1int) =~= rest);
    if let Some(k) = position(a, c) {
        assert(a[k] == c);
    }
}

/// What stands before a separator is a field, and the fields behind it follow; a text without separators is one field.
pub proof fn fields_are_found(a: Seq<char>, sep: char, rest: Seq<char>)
    requires
        is_free_of(a, sep),
    ensures
        fields_of(a + seq![sep] + rest, sep) == seq![a] + fields_of(rest, sep),
        fields_of(a, sep) == seq![a],
{
    first_separator(a, sep, rest);
}

/// A line ends at its line feed, with or without a carriage return before it, and the lines behind it follow; what is left
/// behind the last line feed is a line where it is not empty.
pub proof fn lines_are_found(a: Seq<char>, rest: Seq<char>)
    requires
        is_free_of(a, '\n'),
        a.len() > 0 ==> a.last() != '\r',
    ensures
        lines_of(a + seq!['\n'] + rest) == seq![a] + lines_of(rest),
        lines_of(a + seq!['\r', '\n'] + rest) == seq![a] + lines_of(rest),
        lines_of(a) == (if a.len() > 0 { seq![a] } else { Seq::empty() }),
{
    first_separator(a, '\n', rest);
    let b = a + seq!['\r'];
    assert(is_free_of(b, '\n')) by {
        assert forall|i: int| 0 <= i < b.len() implies #[trigger] b[i] != '\n' by {
            if i < a.len() {
                assert(b[i] == a[i]);
            }
        }
    }
    first_separator(b, '\n', rest);
    assert(b + seq!['\n'] + rest =~= a + seq!['\r', '\n'] + rest);
    assert(b.drop_last() =~= a);
}

/// A separator that no numeral holds.
pub open spec fn separates(sep: char) -> bool {
    !is_digit(sep) && sep != '-'
}

proof fn numerals_are_free(v: i64, sep: char)
    requires
        separates(sep),
    ensures
        is_free_of(int_text(v as int), sep),
        int_text(v as int).len() > 0,
{
    let m = (if v < 0 { -(v as int) } else { v as int }) as nat;
    numeral_is_read_back(m);
    let s = int_text(v as int);
    assert forall|i: int| 0 <= i < s.len() implies #[trigger] s[i] != sep by {
        if v < 0 {
            if i > 0 {
                assert(s[i] == dec(m)[i - 1]);
                assert(is_digit(dec(m)[i - 1]));
            }
        } else {
            assert(is_digit(dec(m)[i]));
        }
    }
}

proof fn fields_end(s: Seq<char>, sep: char, a: Seq<char>)
    requires
        is_free_of(a, sep),
    ensures
        fields_of(s + seq![sep] + a, sep) == fields_of(s, sep).push(a),
    decreases s.len(),
{
    let all = s + seq![sep] + a;
    position_is_first(s, sep);
    match position(s, sep) {
        None => {
            assert(is_free_of(s, sep));
            fields_are_found(s, sep, a);
            fields_are_found(a, sep, a);
            assert(seq![s] + seq![a] =~= seq![s].push(a));
        },
        Some(k) => {
            let first = s.take(k);
            let rest = s.skip(k + 1);
            assert(is_free_of(first, sep)) by {
                assert forall|i: int| 0 <= i < first.len() implies #[trigger] first[i] != sep by {
                    assert(first[i] == s[i]);
                }
            }
            assert(s =~= first + seq![sep] + rest);
            fields_are_found(first, sep, rest);
            fields_end(rest, sep, a);
            assert(all =~= first + seq![sep] + (rest + seq![sep] + a));
            fields_are_found(first, sep, rest + seq![sep] + a);
            assert(seq![first] + fields_of(rest, sep).push(a) =~= (seq![first] + fields_of(rest, sep)).push(a));
        },
    }
}

/// Numbers with separators between are as many fields, each the numeral of its number.
pub proof fn joined_numbers_are_fields(l: Seq<i64>, sep: char)
    requires
        l.len() > 0,
        separates(sep),
    ensures
        fields_of(joined(l, sep), sep) == Seq::new(l.len(), |i: int| int_text(l[i] as int)),
    decreases l.len(),
{
    numerals_are_free(l.last(), sep);
    if l.len() == 1 {
        fields_are_found(int_text(l[0] as int), sep, Seq::empty());
        assert(seq![int_text(l[0] as int)] =~= Seq::new(l.len(), |i: int| int_text(l[i] as int)));
    } else {
        let head = l.drop_last();
        joined_numbers_are_fields(head, sep);
        fields_end(joined(head, sep), sep, int_text(l.last() as int));
        assert(fields_of(joined(head, sep), sep).push(int_text(l.last() as int)) =~= Seq::new(
            l.len(),
            |i: int| int_text(l[i] as int),
        ));
    }
}

proof fn lines_end(s: Seq<char>, a: Seq<char>)
    requires
        s.len() == 0 || s.last() == '\n',
        is_free_of(a, '\n'),
        a.len() > 0 && a.last() != '\r',
    ensures
        lines_of(s + (a + seq!['\n'])) == lines_of(s).push(a),
    decreases s.len(),
{
    if s.len() == 0 {
        assert(s + (a + seq!['\n']) =~= a + seq!['\n'] + Seq::empty());
        lines_are_found(a, Seq::empty());
        lines_are_found(Seq::empty(), Seq::empty());
        assert(seq![a] + Seq::<Seq<char>>::empty() =~= Seq::<Seq<char>>::empty().push(a));
    } else {
        position_is_first(s, '\n');
        assert(s[s.len() - 1] == '\n');
        let k = position(s, '\n')->0;
        let first = s.take(k);
        let rest = s.skip(k + 1);
        let more = rest + (a + seq!['\n']);
        assert(is_free_of(first, '\n')) by {
            assert forall|i: int| 0 <= i < first.len() implies #[trigger] first[i] != '\n' by {
                assert(first[i] == s[i]);
            }
        }
        assert(s =~= first + seq!['\n'] + rest);
        assert(s + (a + seq!['\n']) =~= first + seq!['\n'] + more);
        first_separator(first, '\n', rest);
        first_separator(first, '\n', more);
        assert(rest.len() > 0 ==> rest.last() == s.last());
        lines_end(rest, a);
        let one = seq![without_return(first)];
        assert(one + lines_of(rest).push(a) =~= (one + lines_of(rest)).push(a));
    }
}

/// The lines of a dump are the numerals of the predictions.
pub proof fn dumped_predictions_are_lines(preds: Seq<i64>, n: nat)
    requires
        n <= preds.len(),
    ensures
        lines_of(dump_of(preds, n)) == Seq::new(n, |i: int| int_text(preds[i] as int)),
        n > 0 ==> dump_of(preds, n).len() > 0 && dump_of(preds, n).last() == '\n',
        n == 0 ==> dump_of(preds, n).len() == 0,
    decreases n,
{
    reveal_strlit("\n");
    assert("\n"@ =~= seq!['\n']);
    if n == 0 {
        assert(Seq::new(n, |i: int| int_text(preds[i] as int)) =~= Seq::empty());
    } else {
        let k = (n - 1) as nat;
        dumped_predictions_are_lines(preds, k);
        let a = int_text(preds[n - 1] as int);
        numerals_are_free(preds[n - 1], '\n');
        numerals_are_free(preds[n - 1], '\r');
        assert(a[a.len() - 1] != '\r');
        let s = dump_of(preds, k);
        assert(s + a + "\n"@ =~= s + (a + seq!['\n']));
        lines_end(s, a);
        assert(lines_of(s).push(a) =~= Seq::new(n, |i: int| int_text(preds[i] as int)));
    }
}

// ---- Counts and keys.

/// Hits add up: those of a run are those of its two parts. All are hits exactly where every prediction is the token that
/// follows.
pub proof fn hits_add_up(preds: Seq<i64>, ids: Seq<i64>, start: nat, n: nat, m: nat)
    requires
        n + m <= preds.len(),
        start + n + m <= ids.len(),
    ensures
        hits(preds, ids, start, n + m) == hits(preds, ids, start, n) + hits(preds.skip(n as int), ids, start + n, m),
        hits(preds, ids, start, n) <= n,
        hits(preds, ids, start, n) == n <==> forall|i: int| 0 <= i < n ==> #[trigger] preds[i] == ids[start + i],
    decreases n + m,
{
    if m > 0 {
        hits_add_up(preds, ids, start, n, (m - 1) as nat);
        assert(preds.skip(n as int)[m - 1] == preds[n + m - 1]);
    } else if n > 0 {
        hits_add_up(preds, ids, start, (n - 1) as nat, 0);
    }
}

/// Contexts with the same last tokens have the same key.
pub proof fn keys_are_of_last_tokens(a: Seq<i64>, b: Seq<i64>, order: nat)
    requires
        order > 0,
        a.len() >= order,
        b.len() >= order,
        forall|i: int| 1 <= i <= order ==> a[a.len() - i] == #[trigger] b[b.len() - i],
    ensures
        signature_of(a, order) == signature_of(b, order),
{
    assert(a[a.len() - 1] == b[b.len() - 1]);
    folds_agree(a, b, order, order);
}

proof fn folds_agree(a: Seq<i64>, b: Seq<i64>, order: nat, n: nat)
    requires
        n <= order <= a.len(),
        order <= b.len(),
        forall|i: int| 1 <= i <= order ==> a[a.len() - i] == #[trigger] b[b.len() - i],
    ensures
        folded(a, n) == folded(b, n),
    decreases n,
{
    if n > 0 {
        folds_agree(a, b, order, (n - 1) as nat);
        assert(a[a.len() - n] == b[b.len() - n]);
    }
}

/// A token number below this bound has its own place in a key.
pub open spec fn is_small_token(t: i64) -> bool {
    0 <= t < 0xf_ffff
}

proof fn small_numbers_do_not_wrap(x: int)
    requires
        0 <= x < 0x1000_0000_0000_0000,
    ensures
        wrapped(x) == x,
{
}

/// One more token goes behind those that are folded.
proof fn fold_step(ctx: Seq<i64>, n: nat)
    requires
        0 < n <= ctx.len(),
        is_small_token(ctx[ctx.len() - n]),
        0 <= folded(ctx, (n - 1) as nat) < 0x100_0000_0000,
    ensures
        folded(ctx, n) == folded(ctx, (n - 1) as nat) * 0x10_0000 + ctx[ctx.len() - n] + 1,
{
    let s = folded(ctx, (n - 1) as nat);
    small_numbers_do_not_wrap(s * 0x10_0000);
    small_numbers_do_not_wrap(s * 0x10_0000 + (ctx[ctx.len() - n] + 1));
}

/// Contexts of small token numbers whose last two or three tokens differ have different keys.
pub proof fn keys_tell_contexts(a: Seq<i64>, b: Seq<i64>, order: nat)
    requires
        2 <= order <= 3,
        a.len() >= order,
        b.len() >= order,
        forall|i: int| 1 <= i <= order ==> is_small_token(#[trigger] a[a.len() - i]),
        forall|i: int| 1 <= i <= order ==> is_small_token(#[trigger] b[b.len() - i]),
        signature_of(a, order) == signature_of(b, order),
    ensures
        forall|i: int| 1 <= i <= order ==> #[trigger] a[a.len() - i] == b[b.len() - i],
{
    let (a1, a2, a3) = (a[a.len() - 1], a[a.len() - 2], a[a.len() - 3]);
    let (b1, b2, b3) = (b[b.len() - 1], b[b.len() - 2], b[b.len() - 3]);
    assert(folded(a, 0) == 0 && folded(b, 0) == 0);
    fold_step(a, 1);
    fold_step(b, 1);
    fold_step(a, 2);
    fold_step(b, 2);
    if order == 3 {
        fold_step(a, 3);
        fold_step(b, 3);
        assert(a1 == b1 && a2 == b2 && a3 == b3);
    } else {
        assert(a1 == b1 && a2 == b2);
    }
    assert forall|i: int| 1 <= i <= order implies #[trigger] a[a.len() - i] == b[b.len() - i] by {
        assert(i == 1 || i == 2 || i == 3);
    }
}

/// A step number is written with three digits at least, and they are its number.
pub proof fn step_numbers_are_read_back(k: nat)
    ensures
        three_digits(k).len() >= 3,
        all_digits(three_digits(k)),
        digits_value(three_digits(k)) == k,
{
    numeral_is_read_back(k);
    zeros_count_nothing(dec(k));
    reveal_strlit("0");
    reveal_strlit("00");
    assert("0"@ =~= seq!['0']);
    assert("00"@ =~= seq!['0', '0']);
    reveal_with_fuel(dec, 4);
}

proof fn zeros_count_nothing(d: Seq<char>)
    requires
        all_digits(d),
    ensures
        digits_value(seq!['0'] + d) == digits_value(d),
        digits_value(seq!['0', '0'] + d) == digits_value(d),
        all_digits(seq!['0'] + d),
        all_digits(seq!['0', '0'] + d),
    decreases d.len(),
{
    let one = seq!['0'] + d;
    let two = seq!['0', '0'] + d;
    assert forall|i: int| 0 <= i < one.len() implies is_digit(#[trigger] one[i]) by {
        if i > 0 {
            assert(one[i] == d[i - 1]);
        }
    }
    assert forall|i: int| 0 <= i < two.len() implies is_digit(#[trigger] two[i]) by {
        if i > 1 {
            assert(two[i] == d[i - 2]);
        }
    }
    if d.len() == 0 {
        reveal_with_fuel(digits_value, 3);
        assert(one.drop_last() =~= Seq::empty());
        assert(two.drop_last() =~= seq!['0']);
        assert(seq!['0'].drop_last() =~= Seq::empty());
    } else {
        let h = d.drop_last();
        assert forall|i: int| 0 <= i < h.len() implies is_digit(#[trigger] h[i]) by {
            assert(h[i] == d[i]);
        }
        zeros_count_nothing(h);
        assert(one.drop_last() =~= seq!['0'] + h);
        assert(two.drop_last() =~= seq!['0', '0'] + h);
    }
}

} // verus!
