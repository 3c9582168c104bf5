//! What holds of every span and every line of Markdown: how each form is shown.
use vstd::prelude::*;
use crate::mdfmt::{
    delimited, digit_len, find_text, indent_of, inline_from, inline_text, is_fence, is_rule, latex_text, math_range,
    position_pair, rendered, run_len, spans_text, spans_unfold,
};
use crate::text::{all_digits, is_digit, is_white, position, position_is_first, trim_end, trim_start};

verus! {

/// The character does not occur.
pub open spec fn lacks(s: Seq<char>, c: char) -> bool {
    forall|i: int| 0 <= i < s.len() ==> #[trigger] s[i] != c
}

/// The character does not occur twice in a row, nor at the end.
pub open spec fn lacks_pairs(s: Seq<char>, c: char) -> bool {
    &&& forall|i: int| 0 <= i < s.len() - 1 ==> !(#[trigger] s[i] == c && s[i + 1] == c)
    &&& s.len() > 0 ==> s.last() != c
}

proof fn position_behind(a: Seq<char>, c: char, rest: Seq<char>)
    requires
        lacks(a, c),
    ensures
        position(a + seq![c] + rest, c) == Some(a.len() as int),
{
    let s = a + seq![c] + rest;
    position_is_first(s, c);
    assert(s[a.len() as int] == c);
    assert forall|i: int| 0 <= i < a.len() implies #[trigger] s[i] != c by {
        assert(s[i] == a[i]);
    }
}

proof fn pair_behind(a: Seq<char>, c: char, rest: Seq<char>)
    requires
        lacks_pairs(a, c),
    ensures
        position_pair(a + seq![c, c] + rest, c) == Some(a.len() as int),
    decreases a.len(),
{
    let s = a + seq![c, c] + rest;
    if a.len() == 0 {
        assert(s[0] == c && s[1] == c);
    } else {
        let t = a.skip(1);
        assert forall|i: int| 0 <= i < t.len() - 1 implies !(#[trigger] t[i] == c && t[i + 1] == c) by {
            assert(t[i] == a[i + 1] && t[i + 1] == a[i + 2]);
        }
        assert(t.len() > 0 ==> t.last() == a.last());
        pair_behind(t, c, rest);
        assert(s.skip(1) =~= t + seq![c, c] + rest);
        assert(s[0] == a[0]);
        if a.len() > 1 {
            assert(s[1] == a[1]);
            assert(!(a[0] == c && a[0int + 1] == c));
        } else {
            assert(a[0] == a.last());
        }
    }
}

/// Text between two backticks is shown as it is, in the code colour.
pub proof fn code_spans_are_shown(a: Seq<char>, rest: Seq<char>)
    requires
        lacks(a, '`'),
    ensures
        spans_text(seq!['`'] + a + seq!['`'] + rest) == "\x1b[36m"@ + a + "\x1b[39m"@ + spans_text(rest),
{
    let s = seq!['`'] + a + seq!['`'] + rest;
    position_behind(a, '`', rest);
    assert(s.skip(1) =~= a + seq!['`'] + rest);
    spans_unfold(s);
    assert(s.subrange(1, 1int + a.len()) =~= a);
    assert(s.skip(a.len() + 2int) =~= rest);
}

/// Text between two doubled stars, or two doubled underscores, is shown bold, with its own spans.
pub proof fn bold_spans_are_shown(c: char, a: Seq<char>, rest: Seq<char>)
    requires
        c == '*' || c == '_',
        lacks_pairs(a, c),
    ensures
        spans_text(seq![c, c] + a + seq![c, c] + rest) == "\x1b[1m"@ + spans_text(a) + "\x1b[22m"@ + spans_text(rest),
{
    let s = seq![c, c] + a + seq![c, c] + rest;
    pair_behind(a, c, rest);
    assert(s.skip(2) =~= a + seq![c, c] + rest);
    spans_unfold(s);
    assert(s.subrange(2, 2int + a.len()) =~= a);
    assert(s.skip(a.len() + 4int) =~= rest);
}

/// Text between two doubled tildes is shown as it is, struck out.
pub proof fn struck_spans_are_shown(a: Seq<char>, rest: Seq<char>)
    requires
        lacks_pairs(a, '~'),
    ensures
        spans_text(seq!['~', '~'] + a + seq!['~', '~'] + rest) == "\x1b[9m"@ + a + "\x1b[29m"@ + spans_text(rest),
{
    let s = seq!['~', '~'] + a + seq!['~', '~'] + rest;
    pair_behind(a, '~', rest);
    assert(s.skip(2) =~= a + seq!['~', '~'] + rest);
    spans_unfold(s);
    assert(s.subrange(2, 2int + a.len()) =~= a);
    assert(s.skip(a.len() + 4int) =~= rest);
}

/// Text between two single stars is shown as it is, in italics.
pub proof fn italic_spans_are_shown(a: Seq<char>, rest: Seq<char>)
    requires
        a.len() > 0,
        lacks(a, '*'),
    ensures
        spans_text(seq!['*'] + a + seq!['*'] + rest) == "\x1b[3m"@ + a + "\x1b[23m"@ + spans_text(rest),
{
    let s = seq!['*'] + a + seq!['*'] + rest;
    position_behind(a, '*', rest);
    assert(s.skip(1) =~= a + seq!['*'] + rest);
    assert(s[1] == a[0]);
    spans_unfold(s);
    assert(s.subrange(1, 1int + a.len()) =~= a);
    assert(s.skip(a.len() + 2int) =~= rest);
}

/// A character that is no span mark stays, and so do a lone underscore and a lone tilde; what follows is shown for itself.
pub proof fn plain_text_stays(c: char, rest: Seq<char>)
    requires
        c != '`' && c != '*',
        c == '_' || c == '~' ==> rest.len() == 0 || rest[0] != c,
    ensures
        spans_text(seq![c] + rest) == seq![c] + spans_text(rest),
{
    let s = seq![c] + rest;
    spans_unfold(s);
    assert(s.skip(1) =~= rest);
}

// ---- Mathematics.

/// The text is closed by `close` at its end, and at no place before.
pub open spec fn closes_once(m: Seq<char>, close: Seq<char>) -> bool {
    forall|j: int| 0 <= j < m.len() ==> #[trigger] (m + close).subrange(j, j + close.len()) != close
}

proof fn found_behind(m: Seq<char>, close: Seq<char>, rest: Seq<char>)
    requires
        close.len() > 0,
        closes_once(m, close),
    ensures
        find_text(m + close + rest, close) == Some(m.len() as int),
    decreases m.len(),
{
    let s = m + close + rest;
    if m.len() == 0 {
        assert(s.take(close.len() as int) =~= close);
    } else {
        let t = m.skip(1);
        assert forall|j: int| 0 <= j < t.len() implies #[trigger] (t + close).subrange(j, j + close.len()) != close by {
            assert((t + close).subrange(j, j + close.len()) =~= (m + close).subrange(j + 1, j + 1 + close.len()));
        }
        found_behind(t, close, rest);
        assert(s.skip(1) =~= t + close + rest);
        assert(s.take(close.len() as int) =~= (m + close).subrange(0, 0int + close.len()));
    }
}

/// The two delimiters enclose mathematics; a single dollar sign must not be doubled by what it encloses.
pub open spec fn encloses(open: Seq<char>, m: Seq<char>, close: Seq<char>) -> bool {
    ||| open == seq!['\\', '('] && close == seq!['\\', ')']
    ||| open == seq!['\\', '['] && close == seq!['\\', ']']
    ||| open == seq!['$', '$'] && close == seq!['$', '$']
    ||| open == seq!['$'] && close == seq!['$'] && m.len() > 0
}

proof fn mathematics_starts(open: Seq<char>, m: Seq<char>, close: Seq<char>, rest: Seq<char>)
    requires
        encloses(open, m, close),
        closes_once(m, close),
    ensures
        math_range(open + m + close + rest) == Some((
            open.len() as int,
            (open.len() + m.len()) as int,
            (open.len() + m.len() + close.len()) as int,
        )),
{
    let s = open + m + close + rest;
    let n = open.len() as int;
    found_behind(m, close, rest);
    assert(s.skip(n) =~= m + close + rest);
    assert(open =~= s.subrange(0, n));
    assert(open.is_prefix_of(s));
    assert(delimited(s, open, close) == Some(m.len() as int));
    assert(s[0] == open[0]);
    if open == seq!['$'] {
        if seq!['$', '$'].is_prefix_of(s) {
            assert(seq!['$', '$'][1] == s.subrange(0, 2)[1]);
            assert(s[1] == m[0]);
            assert((m + close).subrange(0, 0int + close.len()) =~= close);
        }
    } else {
        assert(s[1] == open[1]);
    }
    if seq!['\\', '('].is_prefix_of(s) {
        assert(seq!['\\', '('][0] == s.subrange(0, 2)[0] && seq!['\\', '('][1] == s.subrange(0, 2)[1]);
    }
    if seq!['\\', '['].is_prefix_of(s) {
        assert(seq!['\\', '['][0] == s.subrange(0, 2)[0] && seq!['\\', '['][1] == s.subrange(0, 2)[1]);
    }
    if seq!['$', '$'].is_prefix_of(s) {
        assert(seq!['$', '$'][0] == s.subrange(0, 2)[0]);
    }
}

proof fn nothing_starts(s: Seq<char>)
    requires
        s.len() > 0,
        s[0] != '\\' && s[0] != '$',
    ensures
        math_range(s) is None,
{
    if seq!['\\', '('].is_prefix_of(s) {
        assert(seq!['\\', '('][0] == s.subrange(0, 2)[0]);
    }
    if seq!['\\', '['].is_prefix_of(s) {
        assert(seq!['\\', '['][0] == s.subrange(0, 2)[0]);
    }
    if seq!['$', '$'].is_prefix_of(s) {
        assert(seq!['$', '$'][0] == s.subrange(0, 2)[0]);
    }
    if seq!['$'].is_prefix_of(s) {
        assert(seq!['$'][0] == s.subrange(0, 1)[0]);
    }
}

proof fn text_is_passed(done: Seq<char>, pre: Seq<char>, rest: Seq<char>)
    requires
        lacks(pre, '\\'),
        lacks(pre, '$'),
    ensures
        inline_from(done, pre + rest) == inline_from(done + pre, rest),
    decreases pre.len(),
{
    if pre.len() == 0 {
        assert(pre + rest =~= rest);
        assert(done + pre =~= done);
    } else {
        let s = pre + rest;
        let t = pre.skip(1);
        assert(s[0] == pre[0]);
        nothing_starts(s);
        assert(s.skip(1) =~= t + rest);
        assert(lacks(t, '\\') && lacks(t, '$')) by {
            assert forall|i: int| 0 <= i < t.len() implies #[trigger] t[i] != '\\' && t[i] != '$' by {
                assert(t[i] == pre[i + 1]);
            }
        }
        text_is_passed(done.push(s[0]), t, rest);
        assert(done.push(s[0]) + t =~= done + pre);
    }
}

/// Mathematics is shown transliterated and without its delimiters; the text before it has its spans shown, and what
/// follows is shown for itself.
pub proof fn mathematics_is_shown(pre: Seq<char>, open: Seq<char>, m: Seq<char>, close: Seq<char>, rest: Seq<char>)
    requires
        lacks(pre, '\\'),
        lacks(pre, '$'),
        encloses(open, m, close),
        closes_once(m, close),
    ensures
        inline_text(pre + (open + m + close + rest)) == spans_text(pre) + latex_text(m) + inline_text(rest),
{
    let s = open + m + close + rest;
    let n = open.len() as int;
    text_is_passed(Seq::empty(), pre, s);
    assert(Seq::<char>::empty() + pre =~= pre);
    mathematics_starts(open, m, close, rest);
    assert(s.subrange(n, n + m.len()) =~= m);
    assert(s.skip(n + m.len() + close.len()) =~= rest);
}

// ---- Lines.

pub open spec fn all_white(w: Seq<char>) -> bool {
    forall|i: int| 0 <= i < w.len() ==> is_white(#[trigger] w[i])
}

/// The text neither starts nor ends with white space.
pub open spec fn is_trimmed(s: Seq<char>) -> bool {
    s.len() > 0 && !is_white(s[0]) && !is_white(s.last())
}

proof fn start_is_trimmed(w: Seq<char>, s: Seq<char>)
    requires
        all_white(w),
        s.len() > 0 ==> !is_white(s[0]),
    ensures
        trim_start(w + s) == s,
    decreases w.len(),
{
    let all = w + s;
    if w.len() == 0 {
        assert(all =~= s);
    } else {
        assert(is_white(w[0]));
        let t = w.skip(1);
        assert forall|i: int| 0 <= i < t.len() implies is_white(#[trigger] t[i]) by {
            assert(t[i] == w[i + 1]);
        }
        start_is_trimmed(t, s);
        assert(all.skip(1) =~= t + s);
    }
}

proof fn end_is_trimmed(s: Seq<char>, w: Seq<char>)
    requires
        all_white(w),
        s.len() > 0 ==> !is_white(s.last()),
    ensures
        trim_end(s + w) == s,
    decreases w.len(),
{
    let all = s + w;
    if w.len() == 0 {
        assert(all =~= s);
    } else {
        assert(is_white(w[w.len() - 1]));
        let t = w.drop_last();
        assert forall|i: int| 0 <= i < t.len() implies is_white(#[trigger] t[i]) by {
            assert(t[i] == w[i]);
        }
        end_is_trimmed(s, t);
        assert(all.drop_last() =~= s + t);
    }
}

proof fn trimmed_is_prefix(s: Seq<char>)
    ensures
        trim_end(s).len() <= s.len(),
        trim_end(s) == s.take(trim_end(s).len() as int),
    decreases s.len(),
{
    if s.len() > 0 && is_white(s.last()) {
        trimmed_is_prefix(s.drop_last());
        let n = trim_end(s).len() as int;
        assert(s.drop_last().take(n) =~= s.take(n));
    } else {
        assert(s.take(s.len() as int) =~= s);
    }
}

/// A line with this body, behind white space, that opens no code block.
proof fn body_of_line(w: Seq<char>, body: Seq<char>)
    requires
        all_white(w),
        body.len() > 0,
        !is_white(body[0]),
        body[0] != '`',
    ensures
        trim_start(w + body) == body,
        !is_fence(w + body),
        indent_of(w + body) == w,
{
    start_is_trimmed(w, body);
    if seq!['`', '`', '`'].is_prefix_of(body) {
        assert(seq!['`', '`', '`'][0] == body.subrange(0, 3)[0]);
    }
    assert((w + body).take(w.len() as int) =~= w);
}

proof fn no_rule(body: Seq<char>)
    requires
        body.len() > 0,
        !is_white(body[0]),
        (body[0] != '-' && body[0] != '*' && body[0] != '_') || (body.len() > 1 && body[1] == ' '),
    ensures
        !is_rule(trim_end(body)),
{
    trimmed_is_prefix(body);
    let t = trim_end(body);
    if t.len() >= 3 {
        assert(t[0] == body[0] && t[1] == body[1]);
    }
}

proof fn run_is_counted(k: nat, rest: Seq<char>)
    requires
        rest.len() > 0 ==> rest[0] != '#',
    ensures
        run_len(Seq::new(k, |i: int| '#') + rest, '#') == k,
    decreases k,
{
    let s = Seq::new(k, |i: int| '#') + rest;
    if k > 0 {
        run_is_counted((k - 1) as nat, rest);
        assert(s.skip(1) =~= Seq::new((k - 1) as nat, |i: int| '#') + rest);
    } else {
        assert(s =~= rest);
    }
}

proof fn digits_are_counted(d: Seq<char>, rest: Seq<char>)
    requires
        all_digits(d),
        rest.len() > 0 ==> !is_digit(rest[0]),
    ensures
        digit_len(d + rest) == d.len(),
    decreases d.len(),
{
    let s = d + rest;
    if d.len() > 0 {
        assert(is_digit(d[0]));
        let t = d.skip(1);
        assert forall|i: int| 0 <= i < t.len() implies is_digit(#[trigger] t[i]) by {
            assert(t[i] == d[i + 1]);
        }
        digits_are_counted(t, rest);
        assert(s.skip(1) =~= t + rest);
    } else {
        assert(s =~= rest);
    }
}

/// A heading: one number sign or more, then its text. It is shown bold, and underlined at the first two levels.
pub proof fn headings_are_shown(w: Seq<char>, k: nat, gap: Seq<char>, h: Seq<char>, end: Seq<char>)
    requires
        all_white(w),
        all_white(gap),
        all_white(end),
        k > 0,
        is_trimmed(h),
        gap.len() > 0 || h[0] != '#',
    ensures
        rendered(w + (Seq::new(k, |i: int| '#') + (gap + (h + end))), false) == "\x1b[1m"@ + (if k <= 2 {
            "\x1b[4m"@
        } else {
            Seq::empty()
        }) + inline_text(h) + "\x1b[0m"@,
{
    let marks = Seq::new(k, |i: int| '#');
    let rest = gap + (h + end);
    let body = marks + rest;
    assert(body[0] == '#');
    body_of_line(w, body);
    no_rule(body);
    if gap.len() > 0 {
        assert(is_white(gap[0]));
        assert(rest[0] == gap[0]);
    } else {
        assert(rest[0] == h[0]);
    }
    run_is_counted(k, rest);
    assert(body.skip(k as int) =~= rest);
    start_is_trimmed(gap, h + end);
    end_is_trimmed(h, end);
}

/// A block quote: its bar is shown dimmed, then the text.
pub proof fn quotes_are_shown(w: Seq<char>, gap: Seq<char>, h: Seq<char>)
    requires
        all_white(w),
        all_white(gap),
        h.len() > 0 ==> !is_white(h[0]),
    ensures
        rendered(w + (seq!['>'] + (gap + h)), false) == "\x1b[2m"@ + "│"@ + "\x1b[0m"@ + seq![' '] + inline_text(h),
{
    let body = seq!['>'] + (gap + h);
    body_of_line(w, body);
    no_rule(body);
    assert(body.skip(1) =~= gap + h);
    start_is_trimmed(gap, h);
}

/// A bullet, whichever of the three marks it has, is shown as one sign behind its own white space.
pub proof fn bullets_are_shown(w: Seq<char>, c: char, h: Seq<char>)
    requires
        all_white(w),
        c == '-' || c == '*' || c == '+',
    ensures
        rendered(w + (seq![c, ' '] + h), false) == w + seq!['•', ' '] + inline_text(h),
{
    let body = seq![c, ' '] + h;
    body_of_line(w, body);
    no_rule(body);
    assert(body.skip(2) =~= h);
}

/// A numbered item keeps its white space, its number and its mark.
pub proof fn numbers_are_shown(w: Seq<char>, d: Seq<char>, c: char, h: Seq<char>)
    requires
        all_white(w),
        d.len() > 0,
        all_digits(d),
        c == '.' || c == ')',
    ensures
        rendered(w + (d + (seq![c, ' '] + h)), false) == w + (d + seq![c, ' ']) + inline_text(h),
{
    let rest = seq![c, ' '] + h;
    let body = d + rest;
    let n = d.len() as int;
    assert(is_digit(d[0]));
    assert(body[0] == d[0]);
    body_of_line(w, body);
    no_rule(body);
    digits_are_counted(d, rest);
    assert(body[n] == c && body[n + 1] == ' ');
    assert(body.take(n + 2) =~= d + seq![c, ' ']);
    assert(body.skip(n + 2) =~= h);
}

/// Three or more of one of the three marks, alone on a line, are shown as a rule.
pub proof fn rules_are_shown(w: Seq<char>, c: char, n: nat, end: Seq<char>)
    requires
        all_white(w),
        all_white(end),
        c == '-' || c == '*' || c == '_',
        n >= 3,
    ensures
        rendered(w + (Seq::new(n, |i: int| c) + end), false) == "\x1b[2m"@ + "────────────"@ + "\x1b[0m"@,
{
    let marks = Seq::new(n, |i: int| c);
    let body = marks + end;
    assert(body[0] == c);
    body_of_line(w, body);
    end_is_trimmed(marks, end);
}

/// A line that starts with none of the marks of a block, nor with a digit, is shown for itself.
pub proof fn ordinary_lines_are_shown(w: Seq<char>, body: Seq<char>)
    requires
        all_white(w),
        body.len() > 0,
        !is_white(body[0]),
        body[0] != '`' && body[0] != '#' && body[0] != '>' && body[0] != '-' && body[0] != '*' && body[0] != '+' && body[0]
            != '_' && !is_digit(body[0]),
    ensures
        rendered(w + body, false) == inline_text(w + body),
{
    body_of_line(w, body);
    no_rule(body);
}

/// A line that starts with three backticks is shown as it is, dimmed, whether it opens a code block or closes one.
pub proof fn fences_are_shown(w: Seq<char>, h: Seq<char>, open: bool)
    requires
        all_white(w),
    ensures
        is_fence(w + (seq!['`', '`', '`'] + h)),
        rendered(w + (seq!['`', '`', '`'] + h), open) == "\x1b[2m"@ + (w + (seq!['`', '`', '`'] + h)) + "\x1b[0m"@,
{
    let body = seq!['`', '`', '`'] + h;
    start_is_trimmed(w, body);
    assert(seq!['`', '`', '`'] =~= body.subrange(0, 3));
}

} // verus!
