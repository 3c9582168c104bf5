//! What holds of every Markdown text and every piece of mathematics.
use vstd::prelude::*;
use crate::mdfmt::{
    close_brace, close_brace_in_text, find_text, find_text_in_text, fraction_groups, group_len, groups_in_text, inline_from,
    inline_text, is_dropped, is_fence, is_fraction, is_mark, latex_text, math_range, position_pair, position_pair_is_first, rendered,
    script_range, script_text, spans_text, spans_unfold, word_len, word_len_in_text, CODE, FG_OFF,
};
use crate::symbols::{function_name_symbol, greek_lower_symbol, greek_upper_symbol, relation_symbol, script_form, symbol};
use crate::text::{is_alpha, position, position_is_first};

verus! {

/// No two characters of the text, in this order, are both `c`.
pub open spec fn at_most_one(s: Seq<char>, c: char) -> bool {
    forall|i: int, j: int| 0 <= i < j < s.len() ==> !(#[trigger] s[i] == c && #[trigger] s[j] == c)
}

/// The text has a doubled `c` at `i`.
pub open spec fn doubled_at(s: Seq<char>, c: char, i: int) -> bool {
    0 <= i < s.len() - 1 && s[i] == c && s[i + 1] == c
}

/// No two doubled `c` of the text are apart, so that none has a partner.
pub open spec fn at_most_one_pair(s: Seq<char>, c: char) -> bool {
    forall|i: int, j: int| i + 2 <= j ==> !(#[trigger] doubled_at(s, c, i) && #[trigger] doubled_at(s, c, j))
}

/// No star of the text has a partner: there is one, or there are two side by side.
pub open spec fn lone_stars(s: Seq<char>) -> bool {
    forall|i: int, j: int| 0 <= i < j < s.len() && #[trigger] s[i] == '*' && #[trigger] s[j] == '*' ==> j == i + 1
}

/// No span mark of the text has a partner.
pub open spec fn without_spans(s: Seq<char>) -> bool {
    &&& at_most_one(s, '`')
    &&& lone_stars(s)
    &&& at_most_one_pair(s, '_')
    &&& at_most_one_pair(s, '~')
}

proof fn rest_without_spans(s: Seq<char>, k: int)
    requires
        without_spans(s),
        0 <= k <= s.len(),
    ensures
        without_spans(s.skip(k)),
{
    let t = s.skip(k);
    assert forall|i: int, j: int| 0 <= i < j < t.len() implies !(#[trigger] t[i] == '`' && #[trigger] t[j] == '`')
        && (t[i] == '*' && t[j] == '*' ==> j == i + 1) by {
        assert(t[i] == s[i + k] && t[j] == s[j + k]);
    }
    assert forall|c: char, i: int| #[trigger] doubled_at(t, c, i) implies doubled_at(s, c, i + k) by {
        assert(t[i] == s[i + k] && t[i + 1] == s[i + 1 + k]);
    }
}

/// Unmatched delimiters are literal: text in which no span mark has a partner is left as it is.
pub proof fn unmatched_marks_are_literal(s: Seq<char>)
    requires
        without_spans(s),
    ensures
        spans_text(s) == s,
    decreases s.len(),
{
    spans_unfold(s);
    if s.len() > 0 {
        let t = s.skip(1);
        let c = s[0];
        position_is_first(t, '`');
        position_is_first(t, '*');
        match position(t, '`') {
            Some(k) => assert(t[k] == s[k + 1]),
            None => {},
        }
        match position(t, '*') {
            Some(k) => assert(t[k] == s[k + 1]),
            None => {},
        }
        if s.len() > 1 && s[1] == c && is_mark(c) {
            let u = s.skip(2);
            position_pair_is_first(u, c);
            if let Some(k) = position_pair(u, c) {
                assert(u[k] == s[k + 2] && u[k + 1] == s[k + 3]);
                assert(doubled_at(s, c, 0) && doubled_at(s, c, k + 2));
            }
            rest_without_spans(s, 2);
            unmatched_marks_are_literal(u);
            assert(seq![c, c] + u =~= s);
        } else {
            rest_without_spans(s, 1);
            unmatched_marks_are_literal(t);
            assert(seq![c] + t =~= s);
        }
    }
}

/// A doubled mark without a partner stays as it is, and what follows it is rendered for itself.
pub proof fn unmatched_double_is_literal(c: char, rest: Seq<char>)
    requires
        is_mark(c),
        position_pair(rest, c) is None,
    ensures
        spans_text(seq![c, c] + rest) == seq![c, c] + spans_text(rest),
{
    let s = seq![c, c] + rest;
    spans_unfold(s);
    assert(s.skip(2) =~= rest);
}

/// No mathematics can start in the text: there is no backslash, and at most one dollar sign.
pub open spec fn without_math(s: Seq<char>) -> bool {
    &&& forall|i: int| 0 <= i < s.len() ==> #[trigger] s[i] != '\\'
    &&& at_most_one(s, '$')
}

proof fn no_math_starts(s: Seq<char>)
    requires
        without_math(s),
    ensures
        math_range(s) is None,
{
    if seq!['\\', '('].is_prefix_of(s) {
        assert(s[0] == seq!['\\', '('][0]);
    }
    if seq!['\\', '['].is_prefix_of(s) {
        assert(s[0] == seq!['\\', '['][0]);
    }
    if seq!['$', '$'].is_prefix_of(s) {
        assert(s[0] == seq!['$', '$'][0]);
        assert(s[1] == seq!['$', '$'][1]);
    }
    if seq!['$'].is_prefix_of(s) {
        assert(s[0] == seq!['$'][0]);
        find_text_in_text(s.skip(1), seq!['$']);
        match find_text(s.skip(1), seq!['$']) {
            Some(k) => {
                assert(s.skip(1).subrange(k, k + 1)[0] == '$');
                assert(s[k + 1] == '$');
            },
            None => {},
        }
    }
}

proof fn inline_without_math(text: Seq<char>, rest: Seq<char>)
    requires
        without_math(rest),
    ensures
        inline_from(text, rest) == spans_text(text + rest),
    decreases rest.len(),
{
    no_math_starts(rest);
    if rest.len() == 0 {
        assert(text + rest =~= text);
    } else {
        let t = rest.skip(1);
        assert forall|i: int| 0 <= i < t.len() implies #[trigger] t[i] != '\\' by {
            assert(t[i] == rest[i + 1]);
        }
        assert forall|i: int, j: int| 0 <= i < j < t.len() implies !(#[trigger] t[i] == '$' && #[trigger] t[j]
            == '$') by {
            assert(t[i] == rest[i + 1]);
            assert(t[j] == rest[j + 1]);
        }
        inline_without_math(text.push(rest[0]), t);
        assert(text.push(rest[0]) + t =~= text + rest);
    }
}

/// LaTeX is transliterated only inside math delimiters: where none can open, inline formatting renders the
/// Markdown spans and nothing else. A lone dollar sign opens nothing.
pub proof fn only_mathematics_is_transliterated(s: Seq<char>)
    requires
        without_math(s),
    ensures
        inline_text(s) == spans_text(s),
{
    inline_without_math(Seq::empty(), s);
    assert(Seq::<char>::empty() + s =~= s);
}

/// An underscore or a caret in ordinary text is left alone.
pub proof fn ordinary_text_is_left_alone(s: Seq<char>)
    requires
        without_math(s),
        without_spans(s),
    ensures
        inline_text(s) == s,
{
    only_mathematics_is_transliterated(s);
    unmatched_marks_are_literal(s);
}

/// Mathematics between `\(` and the first `\)` is shown transliterated, without its delimiters.
pub proof fn delimiters_are_stripped(m: Seq<char>)
    requires
        find_text(m + seq!['\\', ')'], seq!['\\', ')']) == Some(m.len() as int),
    ensures
        inline_text(seq!['\\', '('] + m + seq!['\\', ')']) == latex_text(m),
{
    let s = seq!['\\', '('] + m + seq!['\\', ')'];
    let n = m.len() as int;
    assert(seq!['\\', '('] =~= s.subrange(0, 2));
    assert(s.skip(2) =~= m + seq!['\\', ')']);
    assert(math_range(s) == Some((2int, 2 + n, 4 + n)));
    assert(s.subrange(2, 2 + n) =~= m);
    assert(s.skip(4 + n) =~= Seq::<char>::empty());
    spans_unfold(Seq::empty());
    assert(inline_from(Seq::empty(), Seq::empty()) =~= Seq::<char>::empty());
    assert(Seq::<char>::empty() + latex_text(m) + Seq::<char>::empty() =~= latex_text(m));
}

/// No backslash and no brace.
pub open spec fn is_clean(s: Seq<char>) -> bool {
    forall|i: int| 0 <= i < s.len() ==> #[trigger] s[i] != '\\' && s[i] != '{' && s[i] != '}'
}

proof fn greek_lower_clean(cmd: Seq<char>)
    ensures
        greek_lower_symbol(cmd) is Some ==> is_clean(greek_lower_symbol(cmd)->0),
{
    reveal_strlit("α");
    reveal_strlit("β");
    reveal_strlit("γ");
    reveal_strlit("δ");
    reveal_strlit("ε");
    reveal_strlit("ζ");
    reveal_strlit("η");
    reveal_strlit("θ");
    reveal_strlit("ϑ");
    reveal_strlit("ι");
    reveal_strlit("κ");
    reveal_strlit("λ");
    reveal_strlit("μ");
    reveal_strlit("ν");
    reveal_strlit("ξ");
    reveal_strlit("π");
    reveal_strlit("ρ");
    reveal_strlit("σ");
    reveal_strlit("τ");
    reveal_strlit("υ");
    reveal_strlit("φ");
    reveal_strlit("χ");
    reveal_strlit("ψ");
    reveal_strlit("ω");
}

proof fn greek_upper_clean(cmd: Seq<char>)
    ensures
        greek_upper_symbol(cmd) is Some ==> is_clean(greek_upper_symbol(cmd)->0),
{
    reveal_strlit("Γ");
    reveal_strlit("Δ");
    reveal_strlit("Θ");
    reveal_strlit("Λ");
    reveal_strlit("Ξ");
    reveal_strlit("Π");
    reveal_strlit("Σ");
    reveal_strlit("Φ");
    reveal_strlit("Ψ");
    reveal_strlit("Ω");
}

proof fn relation_clean(cmd: Seq<char>)
    ensures
        relation_symbol(cmd) is Some ==> is_clean(relation_symbol(cmd)->0),
{
    reveal_strlit("×");
    reveal_strlit("·");
    reveal_strlit("÷");
    reveal_strlit("±");
    reveal_strlit("∓");
    reveal_strlit("∗");
    reveal_strlit("≤");
    reveal_strlit("≥");
    reveal_strlit("≠");
    reveal_strlit("≈");
    reveal_strlit("≡");
    reveal_strlit("∼");
    reveal_strlit("∝");
    reveal_strlit("≪");
    reveal_strlit("≫");
    reveal_strlit("→");
    reveal_strlit("←");
    reveal_strlit("⇒");
    reveal_strlit("⇐");
    reveal_strlit("↔");
    reveal_strlit("↦");
    reveal_strlit("↑");
    reveal_strlit("↓");
    reveal_strlit("∞");
    reveal_strlit("∂");
    reveal_strlit("∇");
    reveal_strlit("∑");
    reveal_strlit("∏");
    reveal_strlit("∫");
    reveal_strlit("∮");
    reveal_strlit("√");
    reveal_strlit("∠");
    reveal_strlit("⊥");
    reveal_strlit("∥");
    reveal_strlit("∈");
    reveal_strlit("∉");
    reveal_strlit("∋");
    reveal_strlit("⊂");
    reveal_strlit("⊆");
    reveal_strlit("⊃");
    reveal_strlit("⊇");
    reveal_strlit("∪");
    reveal_strlit("∩");
    reveal_strlit("∅");
    reveal_strlit("∀");
    reveal_strlit("∃");
    reveal_strlit("¬");
    reveal_strlit("∧");
    reveal_strlit("∨");
    reveal_strlit("⊕");
    reveal_strlit("⊗");
    reveal_strlit("⋆");
    reveal_strlit("•");
    reveal_strlit("…");
    reveal_strlit("⋯");
    reveal_strlit("ℜ");
    reveal_strlit("ℑ");
    reveal_strlit("ℏ");
    reveal_strlit("ℓ");
    reveal_strlit("ℵ");
    reveal_strlit("°");
}

proof fn function_name_clean(cmd: Seq<char>)
    ensures
        function_name_symbol(cmd) is Some ==> is_clean(function_name_symbol(cmd)->0),
{
    reveal_strlit("cos");
    reveal_strlit("sin");
    reveal_strlit("tan");
    reveal_strlit("sec");
    reveal_strlit("csc");
    reveal_strlit("cot");
    reveal_strlit("log");
    reveal_strlit("ln");
    reveal_strlit("exp");
    reveal_strlit("lim");
    reveal_strlit("max");
    reveal_strlit("min");
    reveal_strlit("det");
    reveal_strlit("gcd");
    reveal_strlit("arg");
    reveal_strlit("dim");
    reveal_strlit("ker");
    reveal_strlit("deg");
    reveal_strlit("");
    reveal_strlit("  ");
    reveal_strlit("    ");
}

proof fn symbols_are_clean(cmd: Seq<char>)
    ensures
        symbol(cmd) is Some ==> is_clean(symbol(cmd)->0),
{
    reveal(symbol);
    greek_lower_clean(cmd);
    greek_upper_clean(cmd);
    relation_clean(cmd);
    function_name_clean(cmd);
}

proof fn scripts_are_clean(s: Seq<char>, sub: bool)
    ensures
        script_form(s, sub) is Some ==> is_clean(script_form(s, sub)->0),
    decreases s.len(),
{
    if s.len() > 0 {
        scripts_are_clean(s.drop_last(), sub);
    }
}

/// Whatever is transliterated, no backslash and no grouping brace is left in the result.
pub proof fn transliteration_is_clean(s: Seq<char>)
    ensures
        is_clean(latex_text(s)),
    decreases s.len(),
{
    if s.len() == 0 {
    } else if s[0] == '\\' && s.len() > 1 && is_alpha(s[1]) {
        let j = 1 + word_len(s.skip(1));
        let cmd = s.subrange(1, j as int);
        let tail = s.skip(j as int);
        word_len_in_text(s.skip(1));
        groups_in_text(tail);
        if is_fraction(cmd) && fraction_groups(tail) is Some {
            let (k, k2) = fraction_groups(tail)->0;
            transliteration_is_clean(tail.subrange(1, k - 1));
            transliteration_is_clean(tail.subrange(k + 1, k2 - 1));
            transliteration_is_clean(tail.skip(k2));
        } else {
            transliteration_is_clean(tail);
            symbols_are_clean(cmd);
            assert forall|i: int| 0 <= i < cmd.len() implies #[trigger] cmd[i] != '\\' && cmd[i] != '{' && cmd[i]
                != '}' by {
                assert(cmd[i] == s.skip(1)[i]);
            }
        }
    } else if s[0] == '^' || s[0] == '_' {
        groups_in_text(s.skip(1));
        let (from, to, next) = script_range(s.skip(1));
        let conv = latex_text(s.skip(1).subrange(from, to));
        transliteration_is_clean(s.skip(1).subrange(from, to));
        transliteration_is_clean(s.skip(1).skip(next));
        scripts_are_clean(conv, s[0] == '_');
        assert(is_clean(script_text(conv, s[0] == '_')));
    } else {
        if s.len() > 1 {
            transliteration_is_clean(s.skip(2));
        }
        transliteration_is_clean(s.skip(1));
    }
}

/// Text without backslashes, braces and script marks is its own transliteration.
pub proof fn transliteration_keeps_plain_text(s: Seq<char>)
    requires
        is_clean(s),
        forall|i: int| 0 <= i < s.len() ==> #[trigger] s[i] != '^' && s[i] != '_',
    ensures
        latex_text(s) == s,
    decreases s.len(),
{
    if s.len() > 0 {
        assert(s[0] != '\\' && s[0] != '^');
        let t = s.skip(1);
        assert forall|i: int| 0 <= i < t.len() implies #[trigger] t[i] != '\\' && t[i] != '{' && t[i] != '}' && t[i]
            != '^' && t[i] != '_' by {
            assert(t[i] == s[i + 1]);
        }
        transliteration_keeps_plain_text(t);
        assert(seq![s[0]] + t =~= s);
    }
}

/// How many braces of the text are open at its end: the opening ones less the closing ones.
pub open spec fn open_braces(s: Seq<char>) -> int
    decreases s.len(),
{
    if s.len() == 0 {
        0
    } else {
        open_braces(s.drop_last()) + (if s.last() == '{' {
            1int
        } else if s.last() == '}' {
            -1
        } else {
            0
        })
    }
}

/// The braces of the text pair up: as many close as open, and none closes before its partner opens.
pub open spec fn is_balanced(s: Seq<char>) -> bool {
    open_braces(s) == 0 && forall|j: int| 0 <= j <= s.len() ==> #[trigger] open_braces(s.take(j)) >= 0
}

/// The braces open at the end of two texts are those of both.
proof fn open_braces_of_sum(a: Seq<char>, b: Seq<char>)
    ensures
        open_braces(a + b) == open_braces(a) + open_braces(b),
    decreases b.len(),
{
    if b.len() == 0 {
        assert(a + b =~= a);
    } else {
        assert((a + b).drop_last() =~= a + b.drop_last());
        open_braces_of_sum(a, b.drop_last());
    }
}

proof fn open_braces_grow(s: Seq<char>, k: int)
    requires
        0 <= k < s.len(),
    ensures
        open_braces(s.take(k + 1)) == open_braces(s.take(k)) + (if s[k] == '{' {
            1int
        } else if s[k] == '}' {
            -1
        } else {
            0
        }),
{
    assert(s.take(k + 1).drop_last() =~= s.take(k));
}

/// The closing brace is where the number of open braces falls to zero for the first time.
proof fn closing_brace_is_first(s: Seq<char>, from: int, depth: nat)
    requires
        0 <= from <= s.len(),
        depth >= 1,
        open_braces(s.take(from)) == depth,
    ensures
        match close_brace(s, from, depth) {
            Some(k) => from <= k < s.len() && open_braces(s.take(k + 1)) == 0 && forall|j: int|
                from <= j <= k ==> #[trigger] open_braces(s.take(j)) > 0,
            None => forall|j: int| from <= j <= s.len() ==> #[trigger] open_braces(s.take(j)) > 0,
        },
    decreases s.len() - from,
{
    if from < s.len() {
        open_braces_grow(s, from);
        if s[from] == '{' {
            closing_brace_is_first(s, from + 1, depth + 1);
        } else if s[from] != '}' {
            closing_brace_is_first(s, from + 1, depth);
        } else if depth > 1 {
            closing_brace_is_first(s, from + 1, (depth - 1) as nat);
        }
    }
}

/// A group is balanced: it starts with an opening brace, its braces pair up at its end, and at no place before.
/// Where a text starts with an opening brace and has no group, that brace is never closed.
pub proof fn groups_are_balanced(s: Seq<char>)
    ensures
        match group_len(s) {
            Some(k) => {
                &&& 2 <= k <= s.len()
                &&& s[0] == '{' && s[k - 1] == '}'
                &&& open_braces(s.take(k)) == 0
                &&& forall|j: int| 0 < j < k ==> #[trigger] open_braces(s.take(j)) > 0
            },
            None => s.len() == 0 || s[0] != '{' || forall|j: int|
                0 < j <= s.len() ==> #[trigger] open_braces(s.take(j)) > 0,
        },
{
    if s.len() > 0 && s[0] == '{' {
        open_braces_grow(s, 0);
        assert(s.take(0) =~= Seq::empty());
        closing_brace_is_first(s, 1, 1);
        close_brace_in_text(s, 1, 1);
        if let Some(k) = group_len(s) {
            if k - 1 < 1 {
                assert(open_braces(s.take(1)) > 0);
            }
        }
    }
}

/// A balanced text between braces is a group, whatever follows.
pub proof fn balanced_text_is_a_group(a: Seq<char>, rest: Seq<char>)
    requires
        is_balanced(a),
    ensures
        group_len(seq!['{'] + a + seq!['}'] + rest) == Some(a.len() as int + 2),
{
    let s = seq!['{'] + a + seq!['}'] + rest;
    let n = a.len() as int;
    groups_are_balanced(s);
    open_braces_of_sum(seq!['{'], a);
    open_braces_of_sum(seq!['{'] + a, seq!['}']);
    reveal_with_fuel(open_braces, 2);
    assert(seq!['{'].drop_last() =~= Seq::empty());
    assert(seq!['}'].drop_last() =~= Seq::empty());
    assert(open_braces(seq!['{']) == 1);
    assert(open_braces(seq!['}']) == -1);
    assert(s.take(n + 2) =~= seq!['{'] + a + seq!['}']);
    assert(open_braces(s.take(n + 2)) == 0);
    assert forall|j: int| 0 < j < n + 2 implies #[trigger] open_braces(s.take(j)) > 0 by {
        assert(s.take(j) =~= seq!['{'] + a.take(j - 1));
        open_braces_of_sum(seq!['{'], a.take(j - 1));
    }
    match group_len(s) {
        Some(k) => {
            if k < n + 2 {
                assert(open_braces(s.take(k)) > 0);
            }
        },
        None => {},
    }
}

/// The run of letters of a word ends with it, where no letter follows.
proof fn word_ends(w: Seq<char>, t: Seq<char>)
    requires
        forall|i: int| 0 <= i < w.len() ==> is_alpha(#[trigger] w[i]),
        t.len() > 0 ==> !is_alpha(t[0]),
    ensures
        word_len(w + t) == w.len(),
    decreases w.len(),
{
    if w.len() == 0 {
        assert(w + t =~= t);
    } else {
        let v = w.skip(1);
        assert forall|i: int| 0 <= i < v.len() implies is_alpha(#[trigger] v[i]) by {
            assert(v[i] == w[i + 1]);
        }
        assert((w + t)[0] == w[0]);
        assert((w + t).skip(1) =~= v + t);
        word_ends(v, t);
    }
}

proof fn command_unfolds(w: Seq<char>, tail: Seq<char>)
    requires
        w.len() > 0,
        forall|i: int| 0 <= i < w.len() ==> is_alpha(#[trigger] w[i]),
        tail.len() > 0 ==> !is_alpha(tail[0]),
    ensures
        latex_text(seq!['\\'] + w + tail) == if is_fraction(w) && fraction_groups(tail) is Some {
            let (k, k2) = fraction_groups(tail)->0;
            seq!['('] + latex_text(tail.subrange(1, k - 1)) + seq![')', '/', '('] + latex_text(
                tail.subrange(k + 1, k2 - 1),
            ) + seq![')'] + latex_text(tail.skip(k2))
        } else {
            (match symbol(w) {
                Some(t) => t,
                None => w,
            }) + latex_text(tail)
        },
{
    let s = seq!['\\'] + w + tail;
    word_ends(w, tail);
    assert(s.skip(1) =~= w + tail);
    let j = 1 + w.len() as int;
    assert(s.subrange(1, j) =~= w);
    assert(s.skip(j) =~= tail);
    assert(s[1] == w[0]);
}

proof fn fraction_names(w: Seq<char>)
    ensures
        names_fraction(w) == is_fraction(w),
        names_fraction(w) ==> w.len() > 0 && forall|i: int| 0 <= i < w.len() ==> is_alpha(#[trigger] w[i]),
{
    reveal_strlit("frac");
    reveal_strlit("dfrac");
    reveal_strlit("tfrac");
    assert("frac"@ =~= seq!['f', 'r', 'a', 'c']);
    assert("dfrac"@ =~= seq!['d', 'f', 'r', 'a', 'c']);
    assert("tfrac"@ =~= seq!['t', 'f', 'r', 'a', 'c']);
}

/// The name of a command that shows a fraction.
pub open spec fn names_fraction(w: Seq<char>) -> bool {
    w == seq!['f', 'r', 'a', 'c'] || w == seq!['d', 'f', 'r', 'a', 'c'] || w == seq!['t', 'f', 'r', 'a', 'c']
}

/// A fraction of two balanced texts is shown as the two, each transliterated and between brackets, with a stroke
/// between; what follows is transliterated for itself.
pub proof fn fractions_are_shown(w: Seq<char>, a: Seq<char>, b: Seq<char>, rest: Seq<char>)
    requires
        names_fraction(w),
        is_balanced(a),
        is_balanced(b),
    ensures
        latex_text(seq!['\\'] + w + seq!['{'] + a + seq!['}'] + seq!['{'] + b + seq!['}'] + rest) == seq!['(']
            + latex_text(a) + seq![')', '/', '('] + latex_text(b) + seq![')'] + latex_text(rest),
{
    fraction_names(w);
    let second = seq!['{'] + b + seq!['}'] + rest;
    let tail = seq!['{'] + a + seq!['}'] + second;
    assert(seq!['\\'] + w + seq!['{'] + a + seq!['}'] + seq!['{'] + b + seq!['}'] + rest =~= seq!['\\'] + w + tail);
    command_unfolds(w, tail);
    balanced_text_is_a_group(a, second);
    let k = a.len() as int + 2;
    assert(tail.skip(k) =~= second);
    balanced_text_is_a_group(b, rest);
    let k2 = k + b.len() as int + 2;
    assert(tail.subrange(1, k - 1) =~= a);
    assert(tail.subrange(k + 1, k2 - 1) =~= b);
    assert(tail.skip(k2) =~= rest);
}

/// The mark of a script.
pub open spec fn script_mark(sub: bool) -> char {
    if sub { '_' } else { '^' }
}

/// A balanced text behind a script mark is the whole argument of the script: it is transliterated, then shown in script
/// characters where every character has such a form, and else behind the mark, between brackets unless it is one
/// character. What follows is transliterated for itself.
pub proof fn scripts_are_shown(a: Seq<char>, sub: bool, rest: Seq<char>)
    requires
        is_balanced(a),
    ensures
        ({
            let conv = latex_text(a);
            let all = latex_text(seq![script_mark(sub)] + seq!['{'] + a + seq!['}'] + rest);
            let after = latex_text(rest);
            match script_form(conv, sub) {
                Some(t) => all == t + after,
                None => if conv.len() == 1 {
                    all == seq![script_mark(sub)] + conv + after
                } else {
                    all == seq![script_mark(sub), '('] + conv + seq![')'] + after
                },
            }
        }),
{
    let group = seq!['{'] + a + seq!['}'] + rest;
    let s = seq![script_mark(sub)] + seq!['{'] + a + seq!['}'] + rest;
    assert(s =~= seq![script_mark(sub)] + group);
    assert(s.skip(1) =~= group);
    balanced_text_is_a_group(a, rest);
    let k = a.len() as int + 2;
    assert(group.subrange(1, k - 1) =~= a);
    assert(group.skip(k) =~= rest);
}

/// One character behind a script mark, which starts no group, is the whole argument of the script.
pub proof fn single_scripts_are_shown(c: char, sub: bool, rest: Seq<char>)
    requires
        c != '{' && c != '}',
    ensures
        latex_text(seq![script_mark(sub), c] + rest) == latex_text(
            seq![script_mark(sub)] + seq!['{'] + seq![c] + seq!['}'] + rest,
        ),
{
    let s = seq![script_mark(sub), c] + rest;
    assert(s.skip(1) =~= seq![c] + rest);
    assert(s.skip(1).subrange(0, 1) =~= seq![c]);
    assert(s.skip(1).skip(1) =~= rest);
    reveal_with_fuel(open_braces, 3);
    assert(seq![c].drop_last() =~= Seq::empty());
    assert forall|j: int| 0 <= j <= 1 implies #[trigger] open_braces(seq![c].take(j)) >= 0 by {
        assert(seq![c].take(0) =~= Seq::empty());
        assert(seq![c].take(1) =~= seq![c]);
    }
    scripts_are_shown(seq![c], sub, rest);
}

/// A command word that shows no fraction is shown as its symbol, or as the bare word where it has none; what follows,
/// unless it goes on with a letter, is transliterated for itself.
pub proof fn commands_are_shown(w: Seq<char>, rest: Seq<char>)
    requires
        w.len() > 0,
        forall|i: int| 0 <= i < w.len() ==> is_alpha(#[trigger] w[i]),
        !names_fraction(w),
        rest.len() > 0 ==> !is_alpha(rest[0]),
    ensures
        latex_text(seq!['\\'] + w + rest) == (match symbol(w) {
            Some(t) => t,
            None => w,
        }) + latex_text(rest),
{
    fraction_names(w);
    command_unfolds(w, rest);
}

/// A grouping brace outside an argument is left out, and any other character without a meaning of its own stays: both
/// leave what follows to itself.
pub proof fn plain_characters_stay(c: char, rest: Seq<char>)
    requires
        c != '\\' && c != '^' && c != '_',
    ensures
        latex_text(seq![c] + rest) == (if c == '{' || c == '}' { Seq::empty() } else { seq![c] }) + latex_text(rest),
{
    assert((seq![c] + rest).skip(1) =~= rest);
    assert(Seq::<char>::empty() + latex_text(rest) =~= latex_text(rest));
}

/// A math delimiter or a spacer behind a backslash leaves nothing, a second backslash leaves a blank, and any other
/// character that is no letter loses its backslash alone.
pub proof fn escapes_are_shown(c: char, rest: Seq<char>)
    ensures
        "()[],;!"@.contains(c) ==> latex_text(seq!['\\', c] + rest) == latex_text(rest),
        c == '\\' ==> latex_text(seq!['\\', c] + rest) == seq![' '] + latex_text(rest),
        !"()[],;!"@.contains(c) && c != '\\' && !is_alpha(c) ==> latex_text(seq!['\\', c] + rest) == latex_text(seq![c] + rest),
        latex_text(seq!['\\']) == Seq::<char>::empty(),
{
    let s = seq!['\\', c] + rest;
    let marks = "()[],;!"@;
    reveal_strlit("()[],;!");
    assert(marks[0] == '(' && marks[1] == ')' && marks[2] == '[' && marks[3] == ']' && marks[4] == ',' && marks[5] == ';'
        && marks[6] == '!');
    assert(marks.contains(c) == is_dropped(c));
    assert(s.skip(2) =~= rest);
    assert(s.skip(1) =~= seq![c] + rest);
    assert(s[1] == c);
    assert(seq!['\\'].skip(1) =~= Seq::<char>::empty());
    assert(latex_text(Seq::<char>::empty()) =~= Seq::empty());
}

/// Whether a code block is open after the given lines.
pub open spec fn code_open_after(lines: Seq<Seq<char>>, open: bool) -> bool
    decreases lines.len(),
{
    if lines.len() == 0 {
        open
    } else {
        let before = code_open_after(lines.drop_last(), open);
        if is_fence(lines.last()) { !before } else { before }
    }
}

/// Between an opening fence and the next one every line is shown verbatim, in the code colour.
pub proof fn code_is_verbatim(before: Seq<Seq<char>>, fence: Seq<char>, body: Seq<Seq<char>>, k: int)
    requires
        !code_open_after(before, false),
        is_fence(fence),
        forall|i: int| 0 <= i < body.len() ==> !is_fence(#[trigger] body[i]),
        0 <= k < body.len(),
    ensures
        rendered(body[k], code_open_after(before.push(fence) + body.take(k), false)) == CODE@ + body[k] + FG_OFF@,
{
    code_stays_open(before, fence, body, k);
}

proof fn code_stays_open(before: Seq<Seq<char>>, fence: Seq<char>, body: Seq<Seq<char>>, k: int)
    requires
        !code_open_after(before, false),
        is_fence(fence),
        forall|i: int| 0 <= i < body.len() ==> !is_fence(#[trigger] body[i]),
        0 <= k <= body.len(),
    ensures
        code_open_after(before.push(fence) + body.take(k), false),
    decreases k,
{
    let lines = before.push(fence) + body.take(k);
    assert(before.push(fence).drop_last() =~= before);
    if k == 0 {
        assert(lines =~= before.push(fence));
    } else {
        code_stays_open(before, fence, body, k - 1);
        assert(lines.drop_last() =~= before.push(fence) + body.take(k - 1));
        assert(lines.last() == body[k - 1]);
    }
}

} // verus!
