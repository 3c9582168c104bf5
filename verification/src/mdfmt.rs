//! Markdown rendered for a terminal, one completed line at a time.
//!
//! A line carries one bit of state to the next: whether a code fence is open. Headings, bullets, block quotes,
//! horizontal rules and the inline spans become ANSI styles; mathematics between delimiters is transliterated to
//! Unicode, and what is not recognised degrades to plain text.
use vstd::prelude::*;
use crate::symbols::{command, script_form, symbol, to_script};
use crate::text::{
    chars_of, is_alpha, is_digit, position, position_is_first, spells, trim, trim_end, trim_start,
    white_prefix, white_suffix,
};

verus! {

pub const BOLD: &'static str = "\x1b[1m";

pub const BOLD_OFF: &'static str = "\x1b[22m";

pub const ITAL: &'static str = "\x1b[3m";

pub const ITAL_OFF: &'static str = "\x1b[23m";

pub const STRIKE: &'static str = "\x1b[9m";

pub const STRIKE_OFF: &'static str = "\x1b[29m";

pub const CODE: &'static str = "\x1b[36m";

pub const FG_OFF: &'static str = "\x1b[39m";

pub const DIM: &'static str = "\x1b[2m";

pub const UNDERLINE: &'static str = "\x1b[4m";

pub const RESET: &'static str = "\x1b[0m";

/// Appends the given characters.
fn push_chars(out: &mut String, v: &[char])
    ensures
        final(out)@ == old(out)@ + v@,
{
    for i in 0..v.len()
        invariant
            out@ == old(out)@ + v@.take(i as int),
    {
        out.push(v[i]);
        assert(v@.take(i + 1) =~= v@.take(i as int).push(v@[i as int]));
    }
    assert(v@.take(v.len() as int) =~= v@);
}

/// The index of the first of two adjacent `c`, if there are such.
pub open spec fn position_pair(s: Seq<char>, c: char) -> Option<int>
    decreases s.len(),
{
    if s.len() < 2 {
        None
    } else if s[0] == c && s[1] == c {
        Some(0)
    } else {
        match position_pair(s.skip(1), c) {
            Some(k) => Some(k + 1),
            None => None,
        }
    }
}

/// A pair of marks is found inside the text, where both stand.
pub proof fn position_pair_is_first(s: Seq<char>, c: char)
    ensures
        match position_pair(s, c) {
            Some(k) => 0 <= k < s.len() - 1 && s[k] == c && s[k + 1] == c,
            None => forall|j: int| 0 <= j < s.len() - 1 ==> !(#[trigger] s[j] == c && s[j + 1] == c),
        },
    decreases s.len(),
{
    if s.len() >= 2 && !(s[0] == c && s[1] == c) {
        position_pair_is_first(s.skip(1), c);
        if position_pair(s.skip(1), c) is None {
            assert forall|j: int| 0 <= j < s.len() - 1 implies !(#[trigger] s[j] == c && s[j + 1] == c) by {
                if j > 0 {
                    assert(s.skip(1)[j - 1] == s[j]);
                    assert(s.skip(1)[j] == s[j + 1]);
                }
            }
        }
    }
}

/// The characters that mark a span when they are doubled.
pub open spec fn is_mark(c: char) -> bool {
    c == '*' || c == '_' || c == '~'
}

/// The Markdown spans of a text: `code`, **bold** or __bold__, *italic*, ~~strike~~. A delimiter without its
/// partner is literal, a doubled one as a whole; only bold text is searched for further spans.
#[verifier::opaque]
pub open spec fn spans_text(s: Seq<char>) -> Seq<char>
    decreases s.len(),
{
    if s.len() == 0 {
        Seq::empty()
    } else {
        proof {
            position_is_first(s.skip(1), '`');
            position_is_first(s.skip(1), '*');
            position_pair_is_first(s.skip(2), s[0]);
            position_pair_is_first(s.skip(2), '~');
        }
        let c = s[0];
        let doubled = s.len() > 1 && s[1] == c;
        if c == '`' && position(s.skip(1), '`') is Some {
            let k = position(s.skip(1), '`')->0;
            CODE@ + s.subrange(1, 1 + k) + FG_OFF@ + spans_text(s.skip(k + 2))
        } else if (c == '*' || c == '_') && doubled && position_pair(s.skip(2), c) is Some {
            let k = position_pair(s.skip(2), c)->0;
            BOLD@ + spans_text(s.subrange(2, 2 + k)) + BOLD_OFF@ + spans_text(s.skip(k + 4))
        } else if c == '~' && doubled && position_pair(s.skip(2), '~') is Some {
            let k = position_pair(s.skip(2), '~')->0;
            STRIKE@ + s.subrange(2, 2 + k) + STRIKE_OFF@ + spans_text(s.skip(k + 4))
        } else if is_mark(c) && doubled {
            seq![c, c] + spans_text(s.skip(2))
        } else if c == '*' && position(s.skip(1), '*') is Some {
            let k = position(s.skip(1), '*')->0;
            ITAL@ + s.subrange(1, 1 + k) + ITAL_OFF@ + spans_text(s.skip(k + 2))
        } else {
            seq![c] + spans_text(s.skip(1))
        }
    }
}

/// What the spans of a text are, by the first character of it.
pub proof fn spans_unfold(s: Seq<char>)
    ensures
        s.len() == 0 ==> spans_text(s) == Seq::<char>::empty(),
        s.len() > 0 ==> ({
            let c = s[0];
            let doubled = s.len() > 1 && s[1] == c;
            if c == '`' && position(s.skip(1), '`') is Some {
                let k = position(s.skip(1), '`')->0;
                spans_text(s) == CODE@ + s.subrange(1, 1 + k) + FG_OFF@ + spans_text(s.skip(k + 2))
            } else if (c == '*' || c == '_') && doubled && position_pair(s.skip(2), c) is Some {
                let k = position_pair(s.skip(2), c)->0;
                spans_text(s) == BOLD@ + spans_text(s.subrange(2, 2 + k)) + BOLD_OFF@ + spans_text(s.skip(k + 4))
            } else if c == '~' && doubled && position_pair(s.skip(2), '~') is Some {
                let k = position_pair(s.skip(2), '~')->0;
                spans_text(s) == STRIKE@ + s.subrange(2, 2 + k) + STRIKE_OFF@ + spans_text(s.skip(k + 4))
            } else if is_mark(c) && doubled {
                spans_text(s) == seq![c, c] + spans_text(s.skip(2))
            } else if c == '*' && position(s.skip(1), '*') is Some {
                let k = position(s.skip(1), '*')->0;
                spans_text(s) == ITAL@ + s.subrange(1, 1 + k) + ITAL_OFF@ + spans_text(s.skip(k + 2))
            } else {
                spans_text(s) == seq![c] + spans_text(s.skip(1))
            }
        }),
{
    reveal(spans_text);
}

/// The first index at or after `from` that holds `c`.
fn find(b: &[char], from: usize, c: char) -> (r: Option<usize>)
    requires
        from <= b@.len(),
    ensures
        match r {
            Some(e) => position(b@.skip(from as int), c) == Some(e - from) && from <= e < b@.len(),
            None => position(b@.skip(from as int), c) is None,
        },
{
    let mut i: usize = from;
    while i < b.len()
        invariant
            from <= i <= b@.len(),
            match position(b@.skip(i as int), c) {
                Some(k) => position(b@.skip(from as int), c) == Some(k + (i - from)),
                None => position(b@.skip(from as int), c) is None,
            },
        decreases b.len() - i,
    {
        if b[i] == c {
            return Some(i);
        }
        assert(b@.skip(i as int).skip(1) =~= b@.skip(i + 1));
        i += 1;
    }
    None
}

/// The first index at or after `from` that starts a doubled `c`.
fn find2(b: &[char], from: usize, c: char) -> (r: Option<usize>)
    requires
        from <= b@.len(),
    ensures
        match r {
            Some(e) => position_pair(b@.skip(from as int), c) == Some(e - from) && from <= e < b@.len() - 1,
            None => position_pair(b@.skip(from as int), c) is None,
        },
{
    let mut i: usize = from;
    while i < b.len() && i + 1 < b.len()
        invariant
            from <= i <= b@.len(),
            match position_pair(b@.skip(i as int), c) {
                Some(k) => position_pair(b@.skip(from as int), c) == Some(k + (i - from)),
                None => position_pair(b@.skip(from as int), c) is None,
            },
        decreases b.len() - i,
    {
        if b[i] == c && b[i + 1] == c {
            return Some(i);
        }
        assert(b@.skip(i as int).skip(1) =~= b@.skip(i + 1));
        i += 1;
    }
    None
}

/// Appends a styled piece.
fn push_styled(out: &mut String, on: &str, inner: &[char], off: &str)
    ensures
        final(out)@ == old(out)@ + (on@ + inner@ + off@),
{
    out.append(on);
    push_chars(out, inner);
    out.append(off);
    assert(out@ =~= old(out)@ + (on@ + inner@ + off@));
}

/// Renders what stands at `i`, a span, a mark without its partner or one literal character, and says where the text goes on.
fn span_step(b: &[char], i: usize, out: &mut String) -> (next: usize)
    requires
        i < b@.len(),
    ensures
        i < next <= b@.len(),
        final(out)@ + spans_text(b@.skip(next as int)) == old(out)@ + spans_text(b@.skip(i as int)),
    decreases b@.len(), 0nat,
{
    let n: usize = b.len();
    let c = b[i];
    let ghost s = b@.skip(i as int);
    let ghost before = out@;
    proof {
        spans_unfold(s);
    }
    assert(s.skip(1) =~= b@.skip(i + 1));
    if c == '`' {
        if let Some(e) = find(b, i + 1, '`') {
            let inner = vstd::slice::slice_subrange(b, i + 1, e);
            push_styled(out, CODE, inner, FG_OFF);
            proof {
                assert(inner@ =~= s.subrange(1, e - i));
                assert(s.skip(e - i + 1) =~= b@.skip(e + 1));
                let rest = spans_text(b@.skip(e + 1));
                assert(out@ + rest =~= before + (CODE@ + inner@ + FG_OFF@ + rest));
            }
            return e + 1;
        }
    }
    if (c == '*' || c == '_') && i + 1 < n && b[i + 1] == c {
        assert(s.skip(2) =~= b@.skip(i + 2));
        if let Some(e) = find2(b, i + 2, c) {
            let inner = vstd::slice::slice_subrange(b, i + 2, e);
            let styled = chars_of(spans(inner).as_str());
            push_styled(out, BOLD, styled.as_slice(), BOLD_OFF);
            proof {
                assert(inner@ =~= s.subrange(2, e - i));
                assert(s.skip(e - i + 2) =~= b@.skip(e + 2));
                let rest = spans_text(b@.skip(e + 2));
                assert(out@ + rest =~= before + (BOLD@ + styled@ + BOLD_OFF@ + rest));
            }
            return e + 2;
        }
    }
    if c == '~' && i + 1 < n && b[i + 1] == '~' {
        assert(s.skip(2) =~= b@.skip(i + 2));
        if let Some(e) = find2(b, i + 2, '~') {
            let inner = vstd::slice::slice_subrange(b, i + 2, e);
            push_styled(out, STRIKE, inner, STRIKE_OFF);
            proof {
                assert(inner@ =~= s.subrange(2, e - i));
                assert(s.skip(e - i + 2) =~= b@.skip(e + 2));
                let rest = spans_text(b@.skip(e + 2));
                assert(out@ + rest =~= before + (STRIKE@ + inner@ + STRIKE_OFF@ + rest));
            }
            return e + 2;
        }
    }
    if (c == '*' || c == '_' || c == '~') && i + 1 < n && b[i + 1] == c {
        assert(s.skip(2) =~= b@.skip(i + 2));
        out.push(c);
        out.push(c);
        assert(out@ + spans_text(s.skip(2)) =~= before + (seq![c, c] + spans_text(s.skip(2))));
        return i + 2;
    }
    if c == '*' {
        if let Some(e) = find(b, i + 1, '*') {
            let inner = vstd::slice::slice_subrange(b, i + 1, e);
            push_styled(out, ITAL, inner, ITAL_OFF);
            proof {
                assert(inner@ =~= s.subrange(1, e - i));
                assert(s.skip(e - i + 1) =~= b@.skip(e + 1));
                let rest = spans_text(b@.skip(e + 1));
                assert(out@ + rest =~= before + (ITAL@ + inner@ + ITAL_OFF@ + rest));
            }
            return e + 1;
        }
    }
    out.push(c);
    assert(out@ + spans_text(s.skip(1)) =~= before + (seq![c] + spans_text(s.skip(1))));
    i + 1
}

/// Renders the Markdown spans.
fn spans(b: &[char]) -> (r: String)
    ensures
        r@ == spans_text(b@),
    decreases b@.len(), 1nat,
{
    let mut out = String::new();
    let mut i: usize = 0;
    assert(b@.skip(0) =~= b@);
    assert(out@ + spans_text(b@) =~= spans_text(b@));
    while i < b.len()
        invariant
            i <= b@.len(),
            out@ + spans_text(b@.skip(i as int)) == spans_text(b@),
        decreases b.len() - i,
    {
        i = span_step(b, i, &mut out);
    }
    proof {
        spans_unfold(b@.skip(i as int));
    }
    assert(out@ + Seq::<char>::empty() =~= out@);
    out
}

/// The index of the brace that closes a group, searched from `from` with `depth` braces open.
pub open spec fn close_brace(s: Seq<char>, from: int, depth: nat) -> Option<int>
    decreases s.len() - from,
{
    if from >= s.len() {
        None
    } else if s[from] == '{' {
        close_brace(s, from + 1, depth + 1)
    } else if s[from] != '}' {
        close_brace(s, from + 1, depth)
    } else if depth <= 1 {
        Some(from)
    } else {
        close_brace(s, from + 1, (depth - 1) as nat)
    }
}

/// The brace that closes a group stands inside the text.
pub proof fn close_brace_in_text(s: Seq<char>, from: int, depth: nat)
    ensures
        match close_brace(s, from, depth) {
            Some(k) => from <= k < s.len() && s[k] == '}',
            None => true,
        },
    decreases s.len() - from,
{
    if from < s.len() {
        close_brace_in_text(s, from + 1, depth + 1);
        close_brace_in_text(s, from + 1, depth);
        if depth > 1 {
            close_brace_in_text(s, from + 1, (depth - 1) as nat);
        }
    }
}

/// The length of the `{…}` group, braces included, that the text starts with; nested groups belong to it.
pub open spec fn group_len(s: Seq<char>) -> Option<int> {
    if s.len() == 0 || s[0] != '{' {
        None
    } else {
        match close_brace(s, 1, 1) {
            Some(k) => Some(k + 1),
            None => None,
        }
    }
}

/// The length of the run of letters that the text starts with.
pub open spec fn word_len(s: Seq<char>) -> nat
    decreases s.len(),
{
    if s.len() > 0 && is_alpha(s[0]) {
        1 + word_len(s.skip(1))
    } else {
        0
    }
}

/// A word is no longer than the text.
pub proof fn word_len_in_text(s: Seq<char>)
    ensures
        word_len(s) <= s.len(),
        forall|i: int| 0 <= i < word_len(s) ==> is_alpha(s[i]),
    decreases s.len(),
{
    if s.len() > 0 && is_alpha(s[0]) {
        word_len_in_text(s.skip(1));
        assert forall|i: int| 0 <= i < word_len(s) implies is_alpha(s[i]) by {
            if i > 0 {
                assert(s[i] == s.skip(1)[i - 1]);
            }
        }
    }
}

/// The argument of a script mark, `(from, to, next)`: the inside of a group, or one character, or nothing at the
/// end of the text; `next` is where the text goes on.
pub open spec fn script_range(s: Seq<char>) -> (int, int, int) {
    match group_len(s) {
        Some(k) => (1, k - 1, k),
        None => if s.len() > 0 { (0, 1, 1) } else { (0, 0, 0) },
    }
}

/// A converted script argument as it is shown: in Unicode script characters, or else behind its mark.
pub open spec fn script_text(conv: Seq<char>, sub: bool) -> Seq<char> {
    let mark = if sub { '_' } else { '^' };
    match script_form(conv, sub) {
        Some(t) => t,
        None => if conv.len() == 1 {
            seq![mark] + conv
        } else {
            seq![mark, '('] + conv + seq![')']
        },
    }
}

pub open spec fn is_fraction(cmd: Seq<char>) -> bool {
    cmd == "frac"@ || cmd == "dfrac"@ || cmd == "tfrac"@
}

/// The characters that leave nothing behind a backslash: math delimiters and spacers.
pub open spec fn is_dropped(c: char) -> bool {
    c == '(' || c == ')' || c == '[' || c == ']' || c == ',' || c == ';' || c == '!'
}

/// The two groups of a fraction whose first group starts the text: `(end of the first, end of the second)`.
pub open spec fn fraction_groups(s: Seq<char>) -> Option<(int, int)> {
    match group_len(s) {
        None => None,
        Some(k) => match group_len(s.skip(k)) {
            None => None,
            Some(k2) => Some((k, k + k2)),
        },
    }
}

/// A group has both its braces, and a fraction both its groups, inside the text.
pub proof fn groups_in_text(s: Seq<char>)
    ensures
        match group_len(s) {
            Some(k) => 2 <= k <= s.len(),
            None => true,
        },
        match fraction_groups(s) {
            Some((k, k2)) => 2 <= k && k + 2 <= k2 <= s.len(),
            None => true,
        },
{
    close_brace_in_text(s, 1, 1);
    match group_len(s) {
        Some(k) => {
            close_brace_in_text(s.skip(k), 1, 1);
        },
        None => {},
    }
}

/// The transliteration of LaTeX: delimiters and grouping braces go, commands become their symbols or their bare
/// name, fractions become `(a)/(b)`, scripts become Unicode scripts.
pub open spec fn latex_text(s: Seq<char>) -> Seq<char>
    decreases s.len(),
{
    if s.len() == 0 {
        Seq::empty()
    } else if s[0] == '\\' {
        if s.len() > 1 && is_dropped(s[1]) {
            latex_text(s.skip(2))
        } else if s.len() > 1 && s[1] == '\\' {
            seq![' '] + latex_text(s.skip(2))
        } else if s.len() > 1 && is_alpha(s[1]) {
            let j = 1 + word_len(s.skip(1));
            let cmd = s.subrange(1, j as int);
            let tail = s.skip(j as int);
            proof {
                word_len_in_text(s.skip(1));
                groups_in_text(s.skip(j as int));
            }
            if is_fraction(cmd) && fraction_groups(tail) is Some {
                let (k, k2) = fraction_groups(tail)->0;
                seq!['('] + latex_text(tail.subrange(1, k - 1)) + seq![')', '/', '('] + latex_text(
                    tail.subrange(k + 1, k2 - 1),
                ) + seq![')'] + latex_text(tail.skip(k2))
            } else {
                (match symbol(cmd) {
                    Some(t) => t,
                    None => cmd,
                }) + latex_text(tail)
            }
        } else {
            latex_text(s.skip(1))
        }
    } else if s[0] == '^' || s[0] == '_' {
        proof {
            groups_in_text(s.skip(1));
        }
        let (from, to, next) = script_range(s.skip(1));
        script_text(latex_text(s.skip(1).subrange(from, to)), s[0] == '_') + latex_text(s.skip(1).skip(next))
    } else if s[0] == '{' || s[0] == '}' {
        latex_text(s.skip(1))
    } else {
        seq![s[0]] + latex_text(s.skip(1))
    }
}

/// The length of the group that starts at `at`, braces included.
fn brace_group(b: &[char], at: usize) -> (r: Option<usize>)
    requires
        at <= b@.len(),
    ensures
        match r {
            Some(k) => group_len(b@.skip(at as int)) == Some(k as int) && 2 <= k && at + k <= b@.len(),
            None => group_len(b@.skip(at as int)) is None,
        },
{
    let n: usize = b.len();
    let ghost s = b@.skip(at as int);
    if at >= b.len() || b[at] != '{' {
        return None;
    }
    let mut depth: usize = 1;
    let mut i: usize = at + 1;
    while i < b.len()
        invariant
            at + 1 <= i <= b@.len(),
            b@[at as int] == '{',
            s == b@.skip(at as int),
            1 <= depth <= i - at,
            close_brace(s, 1, 1) == close_brace(s, i - at, depth as nat),
        decreases b.len() - i,
    {
        assert(s[i - at] == b@[i as int]);
        if b[i] == '{' {
            depth += 1;
        } else if b[i] == '}' {
            if depth == 1 {
                return Some(i - at + 1);
            }
            depth -= 1;
        }
        i += 1;
    }
    None
}

/// How far the run of letters from `from` reaches.
fn word_end(b: &[char], from: usize) -> (j: usize)
    requires
        from <= b@.len(),
    ensures
        from <= j <= b@.len(),
        j - from == word_len(b@.skip(from as int)),
{
    let mut j: usize = from;
    while j < b.len() && (('a' <= b[j] && b[j] <= 'z') || ('A' <= b[j] && b[j] <= 'Z'))
        invariant
            from <= j <= b@.len(),
            word_len(b@.skip(from as int)) == (j - from) + word_len(b@.skip(j as int)),
        decreases b.len() - j,
    {
        assert(b@.skip(j as int).skip(1) =~= b@.skip(j + 1));
        j += 1;
    }
    j
}

/// The argument of a script mark that stands before `from`.
fn script_arg(b: &[char], from: usize) -> (r: (usize, usize, usize))
    requires
        from <= b@.len(),
    ensures
        from <= r.0 <= r.1 <= r.2 <= b@.len(),
        script_range(b@.skip(from as int)) == ((r.0 - from) as int, (r.1 - from) as int, (r.2 - from) as int),
{
    let n: usize = b.len();
    if let Some(k) = brace_group(b, from) {
        return (from + 1, from + k - 1, from + k);
    }
    if from < b.len() {
        (from, from + 1, from + 1)
    } else {
        (from, from, from)
    }
}

/// Shows a converted script argument.
fn script_shown(conv: &str, sub: bool) -> (r: String)
    ensures
        r@ == script_text(conv@, sub),
{
    match to_script(conv, sub) {
        Some(t) => t,
        None => {
            let mut out = String::new();
            out.push(if sub { '_' } else { '^' });
            if conv.unicode_len() == 1 {
                out.append(conv);
                assert(out@ =~= script_text(conv@, sub));
            } else {
                out.push('(');
                out.append(conv);
                out.push(')');
                assert(out@ =~= script_text(conv@, sub));
            }
            out
        },
    }
}

/// Transliterates the command word behind the backslash at `i`, and says where the text goes on.
fn latex_word(b: &[char], i: usize, out: &mut String) -> (next: usize)
    requires
        i + 1 < b@.len(),
        b@[i as int] == '\\',
        is_alpha(b@[i + 1]),
    ensures
        i < next <= b@.len(),
        final(out)@ + latex_text(b@.skip(next as int)) == old(out)@ + latex_text(b@.skip(i as int)),
    decreases b@.len(), 0nat,
{
    let n: usize = b.len();
    let ghost s = b@.skip(i as int);
    let ghost before = out@;
    let j = word_end(b, i + 1);
    let cmd = vstd::slice::slice_subrange(b, i + 1, j);
    let ghost tail = b@.skip(j as int);
    proof {
        assert(s.skip(1) =~= b@.skip(i + 1));
        assert(cmd@ =~= s.subrange(1, j - i));
        assert(tail =~= s.skip(j - i));
        groups_in_text(tail);
    }
    if spells(cmd, "frac") || spells(cmd, "dfrac") || spells(cmd, "tfrac") {
        if let Some(k) = brace_group(b, j) {
            assert(tail.skip(k as int) =~= b@.skip(j + k));
            if let Some(k2) = brace_group(b, j + k) {
                let num = vstd::slice::slice_subrange(b, j + 1, j + k - 1);
                let den = vstd::slice::slice_subrange(b, j + k + 1, j + k + k2 - 1);
                assert(num@ =~= tail.subrange(1, k - 1));
                assert(den@ =~= tail.subrange(k + 1, k + k2 - 1));
                assert(tail.skip(k + k2) =~= b@.skip(j + k + k2));
                let top = latex_chars(num);
                let bottom = latex_chars(den);
                out.push('(');
                out.append(top.as_str());
                out.append(")/(");
                out.append(bottom.as_str());
                out.push(')');
                proof {
                    reveal_strlit(")/(");
                    assert(")/("@ =~= seq![')', '/', '(']);
                    let rest = latex_text(b@.skip(j + k + k2));
                    assert(out@ + rest =~= before + (seq!['('] + top@ + seq![')', '/', '('] + bottom@ + seq![')']
                        + rest));
                }
                return j + k + k2;
            }
        }
    }
    match command(cmd) {
        Some(rep) => {
            out.append(rep);
            assert(out@ + latex_text(tail) =~= before + (rep@ + latex_text(tail)));
        },
        None => {
            push_chars(out, cmd);
            assert(out@ + latex_text(tail) =~= before + (cmd@ + latex_text(tail)));
        },
    }
    j
}

/// Transliterates the script whose mark stands at `i`, and says where the text goes on.
fn latex_script(b: &[char], i: usize, out: &mut String) -> (next: usize)
    requires
        i < b@.len(),
        b@[i as int] == '^' || b@[i as int] == '_',
    ensures
        i < next <= b@.len(),
        final(out)@ + latex_text(b@.skip(next as int)) == old(out)@ + latex_text(b@.skip(i as int)),
    decreases b@.len(), 0nat,
{
    let n: usize = b.len();
    let ghost s = b@.skip(i as int);
    let ghost before = out@;
    let (from, to, next) = script_arg(b, i + 1);
    let inner = vstd::slice::slice_subrange(b, from, to);
    proof {
        assert(s.skip(1) =~= b@.skip(i + 1));
        assert(inner@ =~= s.skip(1).subrange(from - (i + 1), to - (i + 1)));
        assert(s.skip(1).skip(next - (i + 1)) =~= b@.skip(next as int));
        groups_in_text(s.skip(1));
    }
    let conv = latex_chars(inner);
    let shown = script_shown(conv.as_str(), b[i] == '_');
    out.append(shown.as_str());
    assert(out@ + latex_text(b@.skip(next as int)) =~= before + (shown@ + latex_text(b@.skip(next as int))));
    next
}

/// Transliterates LaTeX, character by character.
fn latex_chars(b: &[char]) -> (r: String)
    ensures
        r@ == latex_text(b@),
    decreases b@.len(), 1nat,
{
    let mut out = String::new();
    let mut i: usize = 0;
    assert(b@.skip(0) =~= b@);
    assert(out@ + latex_text(b@) =~= latex_text(b@));
    while i < b.len()
        invariant
            i <= b@.len(),
            out@ + latex_text(b@.skip(i as int)) == latex_text(b@),
        decreases b.len() - i,
    {
        let c = b[i];
        let ghost s = b@.skip(i as int);
        let ghost before = out@;
        assert(s.skip(1) =~= b@.skip(i + 1));
        if c == '\\' {
            if i + 1 < b.len() {
                let d = b[i + 1];
                assert(s.skip(2) =~= b@.skip(i + 2));
                if d == '(' || d == ')' || d == '[' || d == ']' || d == ',' || d == ';' || d == '!' {
                    i += 2;
                } else if d == '\\' {
                    out.push(' ');
                    assert(out@ + latex_text(s.skip(2)) =~= before + (seq![' '] + latex_text(s.skip(2))));
                    i += 2;
                } else if ('a' <= d && d <= 'z') || ('A' <= d && d <= 'Z') {
                    i = latex_word(b, i, &mut out);
                } else {
                    i += 1;
                }
            } else {
                i += 1;
            }
        } else if c == '^' || c == '_' {
            i = latex_script(b, i, &mut out);
        } else if c == '{' || c == '}' {
            i += 1;
        } else {
            out.push(c);
            assert(out@ + latex_text(s.skip(1)) =~= before + (seq![c] + latex_text(s.skip(1))));
            i += 1;
        }
    }
    assert(b@.skip(i as int) =~= Seq::<char>::empty());
    assert(out@ + Seq::<char>::empty() =~= out@);
    out
}

/// Transliterates LaTeX to Unicode and plain text.
pub fn latex(s: &str) -> (r: String)
    ensures
        r@ == latex_text(s@),
{
    latex_chars(chars_of(s).as_slice())
}

/// The first place where `pat` occurs in `s`.
pub open spec fn find_text(s: Seq<char>, pat: Seq<char>) -> Option<int>
    decreases s.len(),
{
    if s.len() < pat.len() {
        None
    } else if s.take(pat.len() as int) == pat {
        Some(0)
    } else if s.len() == 0 {
        None
    } else {
        match find_text(s.skip(1), pat) {
            Some(k) => Some(k + 1),
            None => None,
        }
    }
}

/// What is found stands inside the text.
pub proof fn find_text_in_text(s: Seq<char>, pat: Seq<char>)
    ensures
        match find_text(s, pat) {
            Some(k) => 0 <= k && k + pat.len() <= s.len() && s.subrange(k, k + pat.len()) == pat,
            None => true,
        },
    decreases s.len(),
{
    if s.len() >= pat.len() && s.take(pat.len() as int) != pat && s.len() > 0 {
        find_text_in_text(s.skip(1), pat);
        match find_text(s.skip(1), pat) {
            Some(k) => {
                assert(s.subrange(k + 1, k + 1 + pat.len()) =~= s.skip(1).subrange(k, k + pat.len()));
            },
            None => {},
        }
    } else if s.len() >= pat.len() {
        assert(s.subrange(0, pat.len() as int) =~= s.take(pat.len() as int));
    }
}

/// When the text starts with `open` and `close` follows: the length of what lies between.
pub open spec fn delimited(s: Seq<char>, open: Seq<char>, close: Seq<char>) -> Option<int> {
    if open.is_prefix_of(s) {
        find_text(s.skip(open.len() as int), close)
    } else {
        None
    }
}

/// The mathematics that the text starts with: `(start, end, next)`, the bounds of the content and where the text
/// goes on. The delimiters are tried in the order `\(…\)`, `\[…\]`, `$$…$$`, `$…$`.
pub open spec fn math_range(s: Seq<char>) -> Option<(int, int, int)> {
    if delimited(s, seq!['\\', '('], seq!['\\', ')']) is Some {
        let k = delimited(s, seq!['\\', '('], seq!['\\', ')'])->0;
        Some((2, 2 + k, 4 + k))
    } else if delimited(s, seq!['\\', '['], seq!['\\', ']']) is Some {
        let k = delimited(s, seq!['\\', '['], seq!['\\', ']'])->0;
        Some((2, 2 + k, 4 + k))
    } else if delimited(s, seq!['$', '$'], seq!['$', '$']) is Some {
        let k = delimited(s, seq!['$', '$'], seq!['$', '$'])->0;
        Some((2, 2 + k, 4 + k))
    } else if delimited(s, seq!['$'], seq!['$']) is Some {
        let k = delimited(s, seq!['$'], seq!['$'])->0;
        Some((1, 1 + k, 2 + k))
    } else {
        None
    }
}

/// A mathematical span stands inside the text.
pub proof fn math_range_in_text(s: Seq<char>)
    ensures
        match math_range(s) {
            Some((from, to, next)) => 1 <= from <= to < next <= s.len(),
            None => true,
        },
{
    if s.len() >= 2 {
        find_text_in_text(s.skip(2), seq!['\\', ')']);
        find_text_in_text(s.skip(2), seq!['\\', ']']);
        find_text_in_text(s.skip(2), seq!['$', '$']);
    }
    if s.len() >= 1 {
        find_text_in_text(s.skip(1), seq!['$']);
    }
}

/// Inline formatting with `text` pending before `rest`: mathematics is transliterated where it stands, and the
/// text between two pieces of it has its Markdown spans rendered.
pub open spec fn inline_from(text: Seq<char>, rest: Seq<char>) -> Seq<char>
    decreases rest.len(),
{
    proof {
        math_range_in_text(rest);
    }
    if rest.len() == 0 {
        spans_text(text)
    } else if math_range(rest) is Some {
        let (from, to, next) = math_range(rest)->0;
        spans_text(text) + latex_text(rest.subrange(from, to)) + inline_from(Seq::empty(), rest.skip(next))
    } else {
        inline_from(text.push(rest[0]), rest.skip(1))
    }
}

pub open spec fn inline_text(s: Seq<char>) -> Seq<char> {
    inline_from(Seq::empty(), s)
}

/// Whether `pat` stands at `at`.
fn stands_at(b: &[char], at: usize, pat: &[char]) -> (r: bool)
    requires
        at <= b@.len(),
    ensures
        r == pat@.is_prefix_of(b@.skip(at as int)),
{
    let n: usize = b.len();
    if b.len() - at < pat.len() {
        return false;
    }
    let mut k: usize = 0;
    while k < pat.len()
        invariant
            k <= pat@.len(),
            at + pat@.len() <= b@.len() == n,
            forall|j: int| 0 <= j < k ==> b@[at + j] == pat@[j],
        decreases pat.len() - k,
    {
        if b[at + k] != pat[k] {
            assert(b@.skip(at as int)[k as int] != pat@[k as int]);
            return false;
        }
        k += 1;
    }
    assert(pat@ =~= b@.skip(at as int).subrange(0, pat@.len() as int));
    true
}

/// Where the text between `open`, which starts at `at`, and `close` ends.
fn delimited_at(b: &[char], at: usize, open: &[char], close: &[char]) -> (r: Option<usize>)
    requires
        at <= b@.len(),
        close@.len() > 0,
    ensures
        match r {
            Some(e) => delimited(b@.skip(at as int), open@, close@) == Some(e - at - open@.len())
                && at + open@.len() <= e && e + close@.len() <= b@.len(),
            None => delimited(b@.skip(at as int), open@, close@) is None,
        },
{
    let n: usize = b.len();
    if !stands_at(b, at, open) {
        return None;
    }
    let start: usize = at + open.len();
    assert(b@.skip(at as int).skip(open@.len() as int) =~= b@.skip(start as int));
    let mut i: usize = start;
    while i < b.len()
        invariant
            start <= i <= b@.len(),
            start == at + open@.len(),
            close@.len() > 0,
            delimited(b@.skip(at as int), open@, close@) == find_text(b@.skip(start as int), close@),
            match find_text(b@.skip(i as int), close@) {
                Some(k) => find_text(b@.skip(start as int), close@) == Some(k + (i - start)),
                None => find_text(b@.skip(start as int), close@) is None,
            },
        decreases b.len() - i,
    {
        if stands_at(b, i, close) {
            proof {
                let s = b@.skip(i as int);
                assert(s.take(close@.len() as int) =~= close@);
            }
            return Some(i);
        }
        proof {
            let s = b@.skip(i as int);
            if s.len() >= close@.len() {
                assert(s.take(close@.len() as int) != close@) by {
                    if s.take(close@.len() as int) == close@ {
                        assert(close@ =~= s.subrange(0, close@.len() as int));
                    }
                }
            }
            assert(s.skip(1) =~= b@.skip(i + 1));
            if s.skip(1).len() < close@.len() {
                assert(find_text(s.skip(1), close@) is None);
            }
        }
        i += 1;
    }
    None
}

/// The mathematics that starts at `at`.
fn math_at(b: &[char], at: usize) -> (r: Option<(usize, usize, usize)>)
    requires
        at <= b@.len(),
    ensures
        match r {
            Some((from, to, next)) => math_range(b@.skip(at as int)) == Some(
                ((from - at) as int, (to - at) as int, (next - at) as int),
            ) && at < from <= to < next <= b@.len(),
            None => math_range(b@.skip(at as int)) is None,
        },
{
    let n: usize = b.len();
    let pairs: [([char; 2], [char; 2]); 3] = [(['\\', '('], ['\\', ')']), (['\\', '['], ['\\', ']']), (['$', '$'], ['$', '$'])];
    proof {
        assert(pairs@[0].0@ =~= seq!['\\', '(']);
        assert(pairs@[0].1@ =~= seq!['\\', ')']);
        assert(pairs@[1].0@ =~= seq!['\\', '[']);
        assert(pairs@[1].1@ =~= seq!['\\', ']']);
        assert(pairs@[2].0@ =~= seq!['$', '$']);
        assert(pairs@[2].1@ =~= seq!['$', '$']);
    }
    if let Some(e) = delimited_at(b, at, &pairs[0].0, &pairs[0].1) {
        return Some((at + 2, e, e + 2));
    }
    if let Some(e) = delimited_at(b, at, &pairs[1].0, &pairs[1].1) {
        return Some((at + 2, e, e + 2));
    }
    if let Some(e) = delimited_at(b, at, &pairs[2].0, &pairs[2].1) {
        return Some((at + 2, e, e + 2));
    }
    let dollar: [char; 1] = ['$'];
    assert(dollar@ =~= seq!['$']);
    if let Some(e) = delimited_at(b, at, &dollar, &dollar) {
        return Some((at + 1, e, e + 1));
    }
    None
}

fn inline_chars(b: &[char]) -> (r: String)
    ensures
        r@ == inline_text(b@),
{
    let mut out = String::new();
    let mut text: Vec<char> = Vec::new();
    let mut i: usize = 0;
    assert(b@.skip(0) =~= b@);
    while i < b.len()
        invariant
            i <= b@.len(),
            out@ + inline_from(text@, b@.skip(i as int)) == inline_text(b@),
        decreases b.len() - i,
    {
        let ghost before = out@;
        let ghost rest = b@.skip(i as int);
        if let Some((from, to, next)) = math_at(b, i) {
            let shown = spans(text.as_slice());
            out.append(shown.as_str());
            text.clear();
            let content = vstd::slice::slice_subrange(b, from, to);
            let math = latex_chars(content);
            out.append(math.as_str());
            proof {
                assert(content@ =~= rest.subrange(from - i, to - i));
                assert(rest.skip(next - i) =~= b@.skip(next as int));
                let tail = inline_from(Seq::empty(), b@.skip(next as int));
                assert(before + shown@ + math@ + tail =~= before + (shown@ + math@ + tail));
            }
            i = next;
        } else {
            text.push(b[i]);
            assert(rest.skip(1) =~= b@.skip(i + 1));
            i += 1;
        }
    }
    let shown = spans(text.as_slice());
    out.append(shown.as_str());
    out
}

/// Inline formatting. LaTeX is transliterated only inside math delimiters; everything else is plain text with
/// Markdown spans, so an underscore or a caret in an identifier is left alone.
pub fn inline(s: &str) -> (r: String)
    ensures
        r@ == inline_text(s@),
{
    inline_chars(chars_of(s).as_slice())
}

/// A line that opens or closes a code block.
pub open spec fn is_fence(line: Seq<char>) -> bool {
    seq!['`', '`', '`'].is_prefix_of(trim_start(line))
}

/// A horizontal rule: three or more of one of `-`, `*` and `_`.
pub open spec fn is_rule(body: Seq<char>) -> bool {
    &&& body.len() >= 3
    &&& (body[0] == '-' || body[0] == '*' || body[0] == '_')
    &&& forall|i: int| 0 <= i < body.len() ==> #[trigger] body[i] == body[0]
}

/// How often `c` stands at the start of the text.
pub open spec fn run_len(s: Seq<char>, c: char) -> nat
    decreases s.len(),
{
    if s.len() > 0 && s[0] == c {
        1 + run_len(s.skip(1), c)
    } else {
        0
    }
}

/// How many digits the text starts with.
pub open spec fn digit_len(s: Seq<char>) -> nat
    decreases s.len(),
{
    if s.len() > 0 && is_digit(s[0]) {
        1 + digit_len(s.skip(1))
    } else {
        0
    }
}

/// The length of a leading ordered-list marker, `12. ` or `12) `.
pub open spec fn marker_len(s: Seq<char>) -> Option<int> {
    let n = digit_len(s) as int;
    if n > 0 && n + 1 < s.len() && (s[n] == '.' || s[n] == ')') && s[n + 1] == ' ' {
        Some(n + 2)
    } else {
        None
    }
}

/// The white space that a line starts with.
pub open spec fn indent_of(line: Seq<char>) -> Seq<char> {
    line.take(line.len() - trim_start(line).len())
}

pub open spec fn is_bullet(s: Seq<char>) -> bool {
    s.len() >= 2 && (s[0] == '-' || s[0] == '*' || s[0] == '+') && s[1] == ' '
}

/// A line outside code blocks, rendered by the first block form that it has.
pub open spec fn block_text(line: Seq<char>) -> Seq<char> {
    let body = trim_start(line);
    if is_rule(trim_end(body)) {
        DIM@ + "────────────"@ + RESET@
    } else if body.len() > 0 && body[0] == '#' {
        let level = run_len(body, '#');
        BOLD@ + (if level <= 2 { UNDERLINE@ } else { Seq::empty() }) + inline_text(trim(body.skip(level as int)))
            + RESET@
    } else if body.len() > 0 && body[0] == '>' {
        DIM@ + "│"@ + RESET@ + seq![' '] + inline_text(trim_start(body.skip(1)))
    } else if is_bullet(body) {
        indent_of(line) + seq!['•', ' '] + inline_text(body.skip(2))
    } else if marker_len(body) is Some {
        let p = marker_len(body)->0;
        indent_of(line) + body.take(p) + inline_text(body.skip(p))
    } else {
        inline_text(line)
    }
}

/// A line as it is shown, given whether a code block is open before it.
pub open spec fn rendered(line: Seq<char>, in_code: bool) -> Seq<char> {
    if is_fence(line) {
        DIM@ + line + RESET@
    } else if in_code {
        CODE@ + line + FG_OFF@
    } else {
        block_text(line)
    }
}

fn count_run(b: &[char], c: char) -> (n: usize)
    ensures
        n == run_len(b@, c),
        n <= b@.len(),
{
    let mut n: usize = 0;
    assert(b@.skip(0) =~= b@);
    while n < b.len() && b[n] == c
        invariant
            n <= b@.len(),
            run_len(b@, c) == n + run_len(b@.skip(n as int), c),
        decreases b.len() - n,
    {
        assert(b@.skip(n as int).skip(1) =~= b@.skip(n + 1));
        n += 1;
    }
    n
}

fn count_digits(b: &[char]) -> (n: usize)
    ensures
        n == digit_len(b@),
        n <= b@.len(),
{
    let mut n: usize = 0;
    assert(b@.skip(0) =~= b@);
    while n < b.len() && '0' <= b[n] && b[n] <= '9'
        invariant
            n <= b@.len(),
            digit_len(b@) == n + digit_len(b@.skip(n as int)),
        decreases b.len() - n,
    {
        assert(b@.skip(n as int).skip(1) =~= b@.skip(n + 1));
        n += 1;
    }
    n
}

/// The length of a leading ordered-list marker, if the text has one.
fn numbered_prefix(b: &[char]) -> (r: Option<usize>)
    ensures
        match r {
            Some(p) => marker_len(b@) == Some(p as int) && p <= b@.len(),
            None => marker_len(b@) is None,
        },
{
    let n = count_digits(b);
    if n == 0 || b.len() - n < 2 {
        return None;
    }
    if (b[n] == '.' || b[n] == ')') && b[n + 1] == ' ' {
        Some(n + 2)
    } else {
        None
    }
}

fn horizontal_rule(body: &[char]) -> (r: bool)
    ensures
        r == is_rule(body@),
{
    if body.len() < 3 {
        return false;
    }
    let c = body[0];
    if c != '-' && c != '*' && c != '_' {
        return false;
    }
    let mut i: usize = 0;
    while i < body.len()
        invariant
            i <= body@.len(),
            body@.len() >= 3,
            c == body@[0],
            forall|j: int| 0 <= j < i ==> #[trigger] body@[j] == c,
        decreases body.len() - i,
    {
        if body[i] != c {
            return false;
        }
        i += 1;
    }
    true
}

/// Renders one completed line of Markdown. `in_code` says whether a code fence is open, and is kept up to date.
pub fn render_line(line: &str, in_code: &mut bool) -> (r: String)
    ensures
        r@ == rendered(line@, *old(in_code)),
        *final(in_code) == (if is_fence(line@) { !*old(in_code) } else { *old(in_code) }),
{
    let chars = chars_of(line);
    let b = chars.as_slice();
    let n: usize = b.len();
    let indent = white_prefix(b);
    let body = vstd::slice::slice_subrange(b, indent, n);
    assert(body@ =~= trim_start(line@));
    let fence: [char; 3] = ['`', '`', '`'];
    assert(fence@ =~= seq!['`', '`', '`']);
    assert(body@.skip(0) =~= body@);
    let mut out = String::new();
    if stands_at(body, 0, &fence) {
        *in_code = !*in_code;
        push_styled(&mut out, DIM, b, RESET);
        assert(out@ =~= DIM@ + line@ + RESET@);
        return out;
    }
    if *in_code {
        push_styled(&mut out, CODE, b, FG_OFF);
        assert(out@ =~= CODE@ + line@ + FG_OFF@);
        return out;
    }
    let end = white_suffix(body);
    if horizontal_rule(vstd::slice::slice_subrange(body, 0, end)) {
        assert(body@.subrange(0, end as int) =~= body@.take(end as int));
        out.append(DIM);
        out.append("────────────");
        out.append(RESET);
        assert(out@ =~= rendered(line@, false));
        return out;
    }
    assert(body@.subrange(0, end as int) =~= body@.take(end as int));
    let len: usize = body.len();
    if len > 0 && body[0] == '#' {
        let level = count_run(body, '#');
        let rest = vstd::slice::slice_subrange(body, level, len);
        let from = white_prefix(rest);
        let tail = vstd::slice::slice_subrange(rest, from, rest.len());
        let to = white_suffix(tail);
        let heading = vstd::slice::slice_subrange(tail, 0, to);
        proof {
            assert(rest@ =~= body@.skip(level as int));
            assert(tail@ =~= trim_start(rest@));
            assert(heading@ =~= tail@.take(to as int));
        }
        out.append(BOLD);
        if level <= 2 {
            out.append(UNDERLINE);
        }
        out.append(inline_chars(heading).as_str());
        out.append(RESET);
        assert(out@ =~= rendered(line@, false));
        return out;
    }
    if len > 0 && body[0] == '>' {
        let quoted = vstd::slice::slice_subrange(body, 1, len);
        let from = white_prefix(quoted);
        let rest = vstd::slice::slice_subrange(quoted, from, quoted.len());
        proof {
            assert(quoted@ =~= body@.skip(1));
            assert(rest@ =~= trim_start(quoted@));
        }
        out.append(DIM);
        out.append("│");
        out.append(RESET);
        out.push(' ');
        out.append(inline_chars(rest).as_str());
        assert(out@ =~= rendered(line@, false));
        return out;
    }
    let margin = vstd::slice::slice_subrange(b, 0, indent);
    assert(margin@ =~= indent_of(line@));
    if len >= 2 && (body[0] == '-' || body[0] == '*' || body[0] == '+') && body[1] == ' ' {
        let rest = vstd::slice::slice_subrange(body, 2, len);
        assert(rest@ =~= body@.skip(2));
        push_chars(&mut out, margin);
        out.push('•');
        out.push(' ');
        out.append(inline_chars(rest).as_str());
        assert(out@ =~= rendered(line@, false));
        return out;
    }
    if let Some(p) = numbered_prefix(body) {
        let marker = vstd::slice::slice_subrange(body, 0, p);
        let rest = vstd::slice::slice_subrange(body, p, len);
        assert(marker@ =~= body@.take(p as int));
        assert(rest@ =~= body@.skip(p as int));
        push_chars(&mut out, margin);
        push_chars(&mut out, marker);
        out.append(inline_chars(rest).as_str());
        assert(out@ =~= rendered(line@, false));
        return out;
    }
    inline_chars(b)
}

} // verus!
