//! What a merge keeps: every fact of every program, under the number of its step.
use vstd::prelude::*;
use crate::facts::{arguments, fact_of, facts_of, FactKey, FactModel};
use crate::probe_laws::numeral_is_read_back;
use crate::stitch::{
    fact_parts, indexed_fact, indexed_facts, prediction_from, step_header, step_text, steps_text, stitch_header,
    three_digits,
};
use crate::text::{
    dec, i64_value, is_digit, is_white, position, position_is_first, trim, trim_end, trim_start, unsigned_part,
};
use crate::words::{fields_of, has_prefix, lines_of, without_return};

verus! {

/// The first occurrence behind a text that has none.
pub(crate) proof fn position_behind(a: Seq<char>, b: Seq<char>, c: char)
    requires
        !a.contains(c),
    ensures
        position(a + b, c) == (match position(b, c) {
            Some(i) => Some(a.len() + i),
            None => None,
        }),
    decreases a.len(),
{
    if a.len() == 0 {
        assert(a + b =~= b);
    } else {
        assert((a + b).skip(1) =~= a.skip(1) + b);
        assert(a[0] != c) by {
            assert(a.contains(a[0]));
        }
        assert(!a.skip(1).contains(c)) by {
            if a.skip(1).contains(c) {
                let i = choose|i: int| 0 <= i < a.skip(1).len() && a.skip(1)[i] == c;
                assert(a[i + 1] == c);
            }
        }
        position_behind(a.skip(1), b, c);
    }
}

pub(crate) proof fn position_of_none(s: Seq<char>, c: char)
    requires
        !s.contains(c),
    ensures
        position(s, c) is None,
{
    position_is_first(s, c);
    if let Some(i) = position(s, c) {
        assert(s.contains(s[i]));
    }
}

/// Trimming the end never cuts into a text that ends in a character that is not white.
pub(crate) proof fn trimmed_end_keeps(a: Seq<char>, b: Seq<char>)
    requires
        a.len() > 0,
        !is_white(a.last()),
    ensures
        trim_end(a + b) == a + trim_end(b),
    decreases b.len(),
{
    if b.len() == 0 {
        assert(a + b =~= a);
        assert(a + trim_end(b) =~= a);
    } else if is_white(b.last()) {
        assert((a + b).drop_last() =~= a + b.drop_last());
        assert((a + b).last() == b.last());
        trimmed_end_keeps(a, b.drop_last());
    } else {
        assert((a + b).last() == b.last());
    }
}

/// A space in front is trimmed.
proof fn leading_space_is_trimmed(s: Seq<char>)
    ensures
        trim(seq![' '] + s) == trim(s),
{
    assert((seq![' '] + s).skip(1) =~= s);
}

pub(crate) proof fn numerals_are_plain(k: nat)
    ensures
        !dec(k).contains(')'),
        !dec(k).contains(','),
        trim(dec(k)) == dec(k),
        dec(k).len() > 0,
{
    numeral_is_read_back(k);
    let d = dec(k);
    assert forall|i: int| 0 <= i < d.len() implies d[i] != ')' && d[i] != ',' by {
        assert(is_digit(d[i]));
    }
    assert(is_digit(d[0]));
    assert(is_digit(d[d.len() - 1]));
    assert(trim_start(d) == d);
    assert(trim_end(d) == d);
}

/// The fields of a text with a numeral in front.
proof fn numbered_fields(k: nat, s: Seq<char>)
    ensures
        fields_of(dec(k) + ", "@ + s, ',') == seq![dec(k)] + fields_of(seq![' '] + s, ','),
{
    reveal_strlit(", ");
    numerals_are_plain(k);
    let all = dec(k) + ", "@ + s;
    let tail = seq![',', ' '] + s;
    assert(all =~= dec(k) + tail);
    position_behind(dec(k), tail, ',');
    assert(position(tail, ',') == Some(0int));
    assert(all.take(dec(k).len() as int) =~= dec(k));
    assert(all.skip((dec(k).len() + 1) as int) =~= seq![' '] + s);
}

/// A space in front only reaches the first field.
proof fn spaced_fields(s: Seq<char>)
    ensures
        fields_of(seq![' '] + s, ',').map_values(|f: Seq<char>| trim(f)) == fields_of(s, ',').map_values(
            |f: Seq<char>| trim(f),
        ),
{
    let sp = seq![' '] + s;
    let cut = |f: Seq<char>| trim(f);
    assert(!seq![' '].contains(','));
    position_behind(seq![' '], s, ',');
    position_is_first(s, ',');
    match position(s, ',') {
        Some(i) => {
            assert(sp.take(i + 1) =~= seq![' '] + s.take(i));
            assert(sp.skip(i + 2) =~= s.skip(i + 1));
            leading_space_is_trimmed(s.take(i));
            let rest = fields_of(s.skip(i + 1), ',');
            assert((seq![sp.take(i + 1)] + rest).map_values(cut) =~= (seq![s.take(i)] + rest).map_values(cut));
        },
        None => {
            leading_space_is_trimmed(s);
            assert(seq![sp].map_values(cut) =~= seq![s].map_values(cut));
        },
    }
}

/// The arguments of a fact that is taken over: the number of its step, and what it had.
proof fn numbered_arguments(k: nat, inner: Seq<char>, after: Seq<char>)
    requires
        !inner.contains(')'),
    ensures
        arguments(dec(k) + ", "@ + inner + ")"@ + after) == seq![dec(k)] + arguments(inner + ")"@ + after),
{
    reveal_strlit(", ");
    reveal_strlit(")");
    numerals_are_plain(k);
    let cut = |f: Seq<char>| trim(f);
    let front = dec(k) + ", "@ + inner;
    let end = ")"@ + after;
    assert(!front.contains(')')) by {
        assert forall|i: int| 0 <= i < front.len() implies front[i] != ')' by {
            if i < dec(k).len() {
                assert(front[i] == dec(k)[i]);
                assert(dec(k).contains(front[i]));
            } else if i < dec(k).len() + 2 {
                assert(front[i] == ", "@[i - dec(k).len()]);
            } else {
                assert(front[i] == inner[i - dec(k).len() - 2]);
                assert(inner.contains(front[i]));
            }
        }
    }
    assert(position(end, ')') == Some(0int));
    position_behind(front, end, ')');
    position_behind(inner, end, ')');
    assert(dec(k) + ", "@ + inner + ")"@ + after =~= front + end);
    assert(inner + ")"@ + after =~= inner + end);
    assert((front + end).take(front.len() as int) =~= front);
    assert((inner + end).take(inner.len() as int) =~= inner);
    numbered_fields(k, inner);
    spaced_fields(inner);
    let tail = fields_of(seq![' '] + inner, ',');
    assert((seq![dec(k)] + tail).map_values(cut) =~= seq![dec(k)] + tail.map_values(cut));
}

/// What a line says of a fact, when it is taken apart.
proof fn parts_are_read(line: Seq<char>, head: Seq<char>, inner: Seq<char>, after: Seq<char>)
    requires
        fact_parts(line) == Some((head, inner, after)),
    ensures
        head == "candidate"@ || head == "contrib"@,
        !inner.contains(')'),
        trim_start(line) == head + "("@ + inner + ")"@ + after,
{
    reveal_strlit("(");
    reveal_strlit(")");
    reveal_strlit("candidate");
    reveal_strlit("contrib");
    let t = trim_start(line);
    position_is_first(t, '(');
    position_is_first(t, ')');
    let open = position(t, '(')->0;
    let close = position(t, ')')->0;
    if close < open {
        assert(head[close] == ')');
    }
    assert(t =~= head + "("@ + inner + ")"@ + after);
    assert forall|i: int| 0 <= i < inner.len() implies inner[i] != ')' by {
        assert(inner[i] == t[open + 1 + i]);
    }
}

/// The fact of a line that is a head, brackets with arguments, and anything behind them.
proof fn written_fact_is_read(line: Seq<char>, head: Seq<char>, inner: Seq<char>, after: Seq<char>)
    requires
        head == "candidate"@ || head == "contrib"@,
        !inner.contains(')'),
        trim_start(line) == head + "("@ + inner + ")"@ + after,
    ensures
        has_prefix(trim(line), "candidate("@) == (head == "candidate"@),
        has_prefix(trim(line), "contrib("@) == (head == "contrib"@),
        trim(line).skip((head.len() + 1) as int) == inner + ")"@ + trim_end(after),
        head == "candidate"@ ==> head.len() + 1 == "candidate("@.len(),
        head == "contrib"@ ==> head.len() + 1 == "contrib("@.len(),
{
    reveal_strlit("(");
    reveal_strlit(")");
    reveal_strlit("candidate");
    reveal_strlit("contrib");
    reveal_strlit("candidate(");
    reveal_strlit("contrib(");
    let front = head + "("@ + inner + ")"@;
    assert(front.last() == ')');
    trimmed_end_keeps(front, after);
    let l = trim(line);
    assert(l == front + trim_end(after));
    assert(l.skip((head.len() + 1) as int) =~= inner + ")"@ + trim_end(after));
    if head == "candidate"@ {
        assert(l.take(10) =~= "candidate("@);
        assert(l[1] == 'a');
        assert("contrib("@[1] == 'o');
        if has_prefix(l, "contrib("@) {
            assert(l.take(8)[1] == l[1]);
        }
    } else {
        assert(l.take(8) =~= "contrib("@);
        assert(l[1] == 'o');
        if has_prefix(l, "candidate("@) {
            assert(l.take(10)[1] == l[1]);
        }
    }
}

/// A fact that is taken over says what it said, of its step: the same token, block and weight, under the number of
/// the step. So the sums of one step never mix with those of another.
pub proof fn stitched_fact_keeps_its_meaning(line: Seq<char>, k: nat, head: Seq<char>, inner: Seq<char>, after: Seq<char>, new: Seq<char>)
    requires
        fact_parts(line) == Some((head, inner, after)),
        fact_of(line) is Some,
        !(fact_of(line)->0).key.indexed,
        new + "\n"@ == indexed_fact(k, head, inner, after),
        k <= i64::MAX,
    ensures
        ({
            let was = fact_of(line)->0;
            fact_of(new) == Some(
                FactModel {
                    key: FactKey { step: k as i64, token: was.key.token, indexed: true },
                    weight: was.weight,
                },
            )
        }),
{
    reveal_strlit("\n");
    reveal_strlit("(");
    reveal_strlit(")");
    reveal_strlit(", ");
    reveal_strlit("candidate");
    reveal_strlit("contrib");
    parts_are_read(line, head, inner, after);
    written_fact_is_read(line, head, inner, after);
    let inner2 = dec(k) + ", "@ + inner;
    assert(new =~= head + "("@ + inner2 + ")"@ + after) by {
        let full = indexed_fact(k, head, inner, after);
        assert(full.len() == new.len() + 1);
        assert(full.take(new.len() as int) =~= new);
        assert(full.take(new.len() as int) =~= head + "("@ + inner2 + ")"@ + after);
    }
    numerals_are_plain(k);
    assert(!inner2.contains(')')) by {
        assert forall|i: int| 0 <= i < inner2.len() implies inner2[i] != ')' by {
            if i < dec(k).len() {
                assert(inner2[i] == dec(k)[i]);
                assert(dec(k).contains(inner2[i]));
            } else if i < dec(k).len() + 2 {
                assert(inner2[i] == ", "@[i - dec(k).len()]);
            } else {
                assert(inner2[i] == inner[i - dec(k).len() - 2]);
                assert(inner.contains(inner2[i]));
            }
        }
    }
    assert(new[0] == 'c');
    assert(trim_start(new) == new);
    written_fact_is_read(new, head, inner2, after);
    numbered_arguments(k, inner, trim_end(after));
    let old_args = arguments(inner + ")"@ + trim_end(after));
    let new_args = arguments(inner2 + ")"@ + trim_end(after));
    assert(new_args == seq![dec(k)] + old_args);
    assert(new_args.len() == old_args.len() + 1);
    assert(new_args[0] == dec(k));
    assert forall|i: int| 0 <= i < old_args.len() implies new_args[i + 1] == old_args[i] by {}
    numeral_is_read_back(k);
    assert(is_digit(dec(k)[0]));
    assert(unsigned_part(dec(k)) =~= dec(k));
    assert(i64_value(dec(k)) == Some(k as i64));
    if head == "candidate"@ {
        assert(old_args.len() == 1);
        assert(new_args[1] == old_args[0]);
    } else {
        assert(old_args.len() == 3);
        assert(new_args[1] == old_args[0] && new_args[2] == old_args[1] && new_args[3] == old_args[2]);
    }
}

/// The facts of a text.
pub open spec fn facts_in(text: Seq<char>) -> Seq<FactModel> {
    facts_of(lines_of(text), lines_of(text).len())
}

proof fn facts_of_front(a: Seq<Seq<char>>, b: Seq<Seq<char>>, n: nat)
    requires
        n <= a.len(),
    ensures
        facts_of(a + b, n) == facts_of(a, n),
    decreases n,
{
    if n > 0 {
        facts_of_front(a, b, (n - 1) as nat);
        assert((a + b)[n - 1] == a[n - 1]);
    }
}

proof fn facts_of_sum(a: Seq<Seq<char>>, b: Seq<Seq<char>>, n: nat)
    requires
        n <= b.len(),
    ensures
        facts_of(a + b, a.len() + n) == facts_of(a, a.len()) + facts_of(b, n),
    decreases n,
{
    if n == 0 {
        facts_of_front(a, b, a.len());
        assert(facts_of(a, a.len()) + facts_of(b, 0) =~= facts_of(a, a.len()));
    } else {
        facts_of_sum(a, b, (n - 1) as nat);
        assert((a + b)[a.len() + n - 1] == b[n - 1]);
        let rest = facts_of(a, a.len()) + facts_of(b, (n - 1) as nat);
        match fact_of(b[n - 1]) {
            Some(f) => {
                assert(rest.push(f) =~= facts_of(a, a.len()) + facts_of(b, (n - 1) as nat).push(f));
            },
            None => {},
        }
    }
}

/// The lines of a line and what follows it.
pub(crate) proof fn line_in_front(body: Seq<char>, rest: Seq<char>)
    requires
        !body.contains('\n'),
    ensures
        lines_of(body + seq!['\n'] + rest) == seq![without_return(body)] + lines_of(rest),
{
    let text = body + seq!['\n'] + rest;
    let tail = seq!['\n'] + rest;
    assert(text =~= body + tail);
    position_behind(body, tail, '\n');
    assert(position(tail, '\n') == Some(0int));
    assert(text.take(body.len() as int) =~= body);
    assert(text.skip((body.len() + 1) as int) =~= rest);
}

/// The facts of a line and what follows it.
proof fn facts_behind_a_line(body: Seq<char>, rest: Seq<char>)
    requires
        !body.contains('\n'),
    ensures
        facts_in(body + seq!['\n'] + rest) == (match fact_of(without_return(body)) {
            Some(f) => seq![f] + facts_in(rest),
            None => facts_in(rest),
        }),
{
    line_in_front(body, rest);
    let one = seq![without_return(body)];
    let ls = lines_of(rest);
    facts_of_sum(one, ls, ls.len());
    reveal_with_fuel(facts_of, 2);
    match fact_of(without_return(body)) {
        Some(f) => {
            assert(facts_of(one, 1) =~= seq![f]);
        },
        None => {
            assert(facts_of(one, 1) =~= Seq::empty());
            assert(Seq::<FactModel>::empty() + facts_in(rest) =~= facts_in(rest));
        },
    }
}

/// A line that starts with another character than those of a fact, and not with white space, is none.
pub open spec fn is_no_fact(body: Seq<char>) -> bool {
    body.len() == 0 || (body[0] != 'c' && !is_white(body[0]))
}

proof fn other_lines_are_no_facts(body: Seq<char>)
    requires
        is_no_fact(body),
    ensures
        fact_of(without_return(body)) is None,
{
    reveal_strlit("candidate(");
    reveal_strlit("contrib(");
    let l = without_return(body);
    if l.len() > 0 {
        assert(l[0] == body[0]);
        assert(trim_start(l) == l);
        trimmed_end_keeps(seq![l[0]], l.skip(1));
        assert(l =~= seq![l[0]] + l.skip(1));
        assert(trim(l)[0] == l[0]);
    } else {
        assert(trim(l) =~= Seq::empty());
    }
    let t = trim(l);
    if has_prefix(t, "candidate("@) {
        assert(t.take(10)[0] == t[0]);
    }
    if has_prefix(t, "contrib("@) {
        assert(t.take(8)[0] == t[0]);
    }
}

/// A line of a heading is passed over.
pub open spec fn is_heading(l: Seq<char>) -> bool {
    &&& l.len() > 0
    &&& l.last() == '\n'
    &&& is_no_fact(l.drop_last())
    &&& !l.drop_last().contains('\n')
}

proof fn heading_is_passed_over(l: Seq<char>, rest: Seq<char>)
    requires
        is_heading(l),
    ensures
        facts_in(l + rest) == facts_in(rest),
{
    assert(l + rest =~= l.drop_last() + seq!['\n'] + rest);
    other_lines_are_no_facts(l.drop_last());
    facts_behind_a_line(l.drop_last(), rest);
}

proof fn empty_line_is_passed_over(rest: Seq<char>)
    ensures
        facts_in(seq!['\n'] + rest) == facts_in(rest),
{
    assert(seq!['\n'].drop_last() =~= Seq::empty());
    heading_is_passed_over(seq!['\n'], rest);
}

proof fn heading_0(rest: Seq<char>)
    ensures
        facts_in("// ============================================================\n"@ + rest) == facts_in(rest),
{
    reveal_strlit("// ============================================================\n");
    let l = "// ============================================================\n"@;
    assert forall|i: int| 0 <= i < l.len() - 1 implies l[i] != '\n' by {}
    assert(is_heading(l));
    heading_is_passed_over(l, rest);
}

proof fn heading_1(rest: Seq<char>)
    ensures
        facts_in("// fieldrun logic STITCH — N per-step decode programs merged into ONE step-indexed semiring-Datalog program.\n"@ + rest) == facts_in(rest),
{
    reveal_strlit("// fieldrun logic STITCH — N per-step decode programs merged into ONE step-indexed semiring-Datalog program.\n");
    let l = "// fieldrun logic STITCH — N per-step decode programs merged into ONE step-indexed semiring-Datalog program.\n"@;
    assert forall|i: int| 0 <= i < l.len() - 1 implies l[i] != '\n' by {}
    assert(is_heading(l));
    heading_is_passed_over(l, rest);
}

proof fn heading_2(rest: Seq<char>)
    ensures
        facts_in("// Each input was ONE next-token decision; step S here indexes the decode trajectory. decide(S,T) = token at step S.\n"@ + rest) == facts_in(rest),
{
    reveal_strlit("// Each input was ONE next-token decision; step S here indexes the decode trajectory. decide(S,T) = token at step S.\n");
    let l = "// Each input was ONE next-token decision; step S here indexes the decode trajectory. decide(S,T) = token at step S.\n"@;
    assert forall|i: int| 0 <= i < l.len() - 1 implies l[i] != '\n' by {}
    assert(is_heading(l));
    heading_is_passed_over(l, rest);
}

proof fn heading_3(rest: Seq<char>)
    ensures
        facts_in("// A single runnable file for the WHOLE query's decode — but a TRACE of THIS query, NOT the context-free\n"@ + rest) == facts_in(rest),
{
    reveal_strlit("// A single runnable file for the WHOLE query's decode — but a TRACE of THIS query, NOT the context-free\n");
    let l = "// A single runnable file for the WHOLE query's decode — but a TRACE of THIS query, NOT the context-free\n"@;
    assert forall|i: int| 0 <= i < l.len() - 1 implies l[i] != '\n' by {}
    assert(is_heading(l));
    heading_is_passed_over(l, rest);
}

proof fn heading_4(rest: Seq<char>)
    ensures
        facts_in("// whole-model program (it does not answer new queries; that is LOGIC_EXPORT LO3a, open).\n"@ + rest) == facts_in(rest),
{
    reveal_strlit("// whole-model program (it does not answer new queries; that is LOGIC_EXPORT LO3a, open).\n");
    let l = "// whole-model program (it does not answer new queries; that is LOGIC_EXPORT LO3a, open).\n"@;
    assert forall|i: int| 0 <= i < l.len() - 1 implies l[i] != '\n' by {}
    assert(is_heading(l));
    heading_is_passed_over(l, rest);
}

proof fn heading_6(rest: Seq<char>)
    ensures
        facts_in("// ============================================================\n\n"@ + rest) == facts_in(rest),
{
    reveal_strlit("// ============================================================\n\n");
    let l = "// ============================================================\n\n"@;
    let first = l.drop_last();
    assert forall|i: int| 0 <= i < first.len() - 1 implies first[i] != '\n' by {}
    assert(is_heading(first));
    heading_is_passed_over(first, seq!['\n'] + rest);
    empty_line_is_passed_over(rest);
    assert(l + rest =~= first + (seq!['\n'] + rest));
}

proof fn heading_7(rest: Seq<char>)
    ensures
        facts_in(".decl candidate(step:number, t:number)\n"@ + rest) == facts_in(rest),
{
    reveal_strlit(".decl candidate(step:number, t:number)\n");
    let l = ".decl candidate(step:number, t:number)\n"@;
    assert forall|i: int| 0 <= i < l.len() - 1 implies l[i] != '\n' by {}
    assert(is_heading(l));
    heading_is_passed_over(l, rest);
}

proof fn heading_8(rest: Seq<char>)
    ensures
        facts_in(".decl contrib(step:number, block:symbol, t:number, w:float)\n"@ + rest) == facts_in(rest),
{
    reveal_strlit(".decl contrib(step:number, block:symbol, t:number, w:float)\n");
    let l = ".decl contrib(step:number, block:symbol, t:number, w:float)\n"@;
    assert forall|i: int| 0 <= i < l.len() - 1 implies l[i] != '\n' by {}
    assert(is_heading(l));
    heading_is_passed_over(l, rest);
}

proof fn heading_9(rest: Seq<char>)
    ensures
        facts_in(".decl logit(step:number, t:number, s:float)\n"@ + rest) == facts_in(rest),
{
    reveal_strlit(".decl logit(step:number, t:number, s:float)\n");
    let l = ".decl logit(step:number, t:number, s:float)\n"@;
    assert forall|i: int| 0 <= i < l.len() - 1 implies l[i] != '\n' by {}
    assert(is_heading(l));
    heading_is_passed_over(l, rest);
}

proof fn heading_10(rest: Seq<char>)
    ensures
        facts_in(".decl decide(step:number, t:number)\n\n"@ + rest) == facts_in(rest),
{
    reveal_strlit(".decl decide(step:number, t:number)\n\n");
    let l = ".decl decide(step:number, t:number)\n\n"@;
    let first = l.drop_last();
    assert forall|i: int| 0 <= i < first.len() - 1 implies first[i] != '\n' by {}
    assert(is_heading(first));
    heading_is_passed_over(first, seq!['\n'] + rest);
    empty_line_is_passed_over(rest);
    assert(l + rest =~= first + (seq!['\n'] + rest));
}

proof fn heading_11(rest: Seq<char>)
    ensures
        facts_in("logit(Step, T, S) :- candidate(Step, T), S = sum W : { contrib(Step, _, T, W) }.   // ⊗ over blocks, scoped per step\n"@ + rest) == facts_in(rest),
{
    reveal_strlit("logit(Step, T, S) :- candidate(Step, T), S = sum W : { contrib(Step, _, T, W) }.   // ⊗ over blocks, scoped per step\n");
    let l = "logit(Step, T, S) :- candidate(Step, T), S = sum W : { contrib(Step, _, T, W) }.   // ⊗ over blocks, scoped per step\n"@;
    assert forall|i: int| 0 <= i < l.len() - 1 implies l[i] != '\n' by {}
    assert(is_heading(l));
    heading_is_passed_over(l, rest);
}

proof fn heading_12(rest: Seq<char>)
    ensures
        facts_in("decide(Step, T)   :- logit(Step, T, S), S = max S2 : { logit(Step, _, S2) }.        // ⊕ = max within each step\n"@ + rest) == facts_in(rest),
{
    reveal_strlit("decide(Step, T)   :- logit(Step, T, S), S = max S2 : { logit(Step, _, S2) }.        // ⊕ = max within each step\n");
    let l = "decide(Step, T)   :- logit(Step, T, S), S = max S2 : { logit(Step, _, S2) }.        // ⊕ = max within each step\n"@;
    assert forall|i: int| 0 <= i < l.len() - 1 implies l[i] != '\n' by {}
    assert(is_heading(l));
    heading_is_passed_over(l, rest);
}

proof fn heading_13(rest: Seq<char>)
    ensures
        facts_in(".output decide\n"@ + rest) == facts_in(rest),
{
    reveal_strlit(".output decide\n");
    let l = ".output decide\n"@;
    assert forall|i: int| 0 <= i < l.len() - 1 implies l[i] != '\n' by {}
    assert(is_heading(l));
    heading_is_passed_over(l, rest);
}

proof fn heading_of_steps(steps: nat, rest: Seq<char>)
    ensures
        facts_in("// "@ + dec(steps) + " steps. Run: souffle <this>.dl -D -   |   fieldrun eval <this>.dl --semiring max|log\n"@ + rest) == facts_in(rest),
{
    reveal_strlit("// ");
    reveal_strlit(" steps. Run: souffle <this>.dl -D -   |   fieldrun eval <this>.dl --semiring max|log\n");
    let end = " steps. Run: souffle <this>.dl -D -   |   fieldrun eval <this>.dl --semiring max|log\n"@;
    let l = "// "@ + dec(steps) + end;
    numeral_is_read_back(steps);
    assert forall|i: int| 0 <= i < l.len() - 1 implies l[i] != '\n' by {
        if i < 3 {
            assert(l[i] == "// "@[i]);
        } else if i < 3 + dec(steps).len() {
            assert(l[i] == dec(steps)[i - 3]);
            assert(is_digit(dec(steps)[i - 3]));
        } else {
            assert(l[i] == end[i - 3 - dec(steps).len()]);
        }
    }
    assert(l[0] == '/');
    assert(is_heading(l));
    heading_is_passed_over(l, rest);
}

proof fn regroup(a: Seq<char>, b: Seq<char>, c: Seq<char>)
    ensures
        (a + b) + c == a + (b + c),
{
    assert((a + b) + c =~= a + (b + c));
}

/// The heading of a merged program has no facts.
proof fn heading_has_no_facts(steps: nat, rest: Seq<char>)
    ensures
        facts_in(stitch_header(steps) + rest) == facts_in(rest),
{
    let p0 = "// ============================================================\n"@;
    let p1 = "// fieldrun logic STITCH — N per-step decode programs merged into ONE step-indexed semiring-Datalog program.\n"@;
    let p2 = "// Each input was ONE next-token decision; step S here indexes the decode trajectory. decide(S,T) = token at step S.\n"@;
    let p3 = "// A single runnable file for the WHOLE query's decode — but a TRACE of THIS query, NOT the context-free\n"@;
    let p4 = "// whole-model program (it does not answer new queries; that is LOGIC_EXPORT LO3a, open).\n"@;
    let p5 = "// "@;
    let p6 = dec(steps);
    let p7 = " steps. Run: souffle <this>.dl -D -   |   fieldrun eval <this>.dl --semiring max|log\n"@;
    let p8 = "// ============================================================\n\n"@;
    let p9 = ".decl candidate(step:number, t:number)\n"@;
    let p10 = ".decl contrib(step:number, block:symbol, t:number, w:float)\n"@;
    let p11 = ".decl logit(step:number, t:number, s:float)\n"@;
    let p12 = ".decl decide(step:number, t:number)\n\n"@;
    let p13 = "logit(Step, T, S) :- candidate(Step, T), S = sum W : { contrib(Step, _, T, W) }.   // ⊗ over blocks, scoped per step\n"@;
    let p14 = "decide(Step, T)   :- logit(Step, T, S), S = max S2 : { logit(Step, _, S2) }.        // ⊕ = max within each step\n"@;
    let p15 = ".output decide\n"@;
    let h0 = p0;
    let h1 = h0 + p1;
    let h2 = h1 + p2;
    let h3 = h2 + p3;
    let h4 = h3 + p4;
    let h5 = h4 + p5;
    let h6 = h5 + p6;
    let h7 = h6 + p7;
    let h8 = h7 + p8;
    let h9 = h8 + p9;
    let h10 = h9 + p10;
    let h11 = h10 + p11;
    let h12 = h11 + p12;
    let h13 = h12 + p13;
    let h14 = h13 + p14;
    let h15 = h14 + p15;
    assert(stitch_header(steps) == h15);
    let r15 = rest;
    let r14 = p15 + r15;
    let r13 = p14 + r14;
    let r12 = p13 + r13;
    let r11 = p12 + r12;
    let r10 = p11 + r11;
    let r9 = p10 + r10;
    let r8 = p9 + r9;
    let r7 = p8 + r8;
    let r6 = p7 + r7;
    let r5 = p6 + r6;
    let r4 = p5 + r5;
    let r3 = p4 + r4;
    let r2 = p3 + r3;
    let r1 = p2 + r2;
    let r0 = p1 + r1;
    regroup(h14, p15, r15);
    regroup(h13, p14, r14);
    regroup(h12, p13, r13);
    regroup(h11, p12, r12);
    regroup(h10, p11, r11);
    regroup(h9, p10, r10);
    regroup(h8, p9, r9);
    regroup(h7, p8, r8);
    regroup(h6, p7, r7);
    regroup(h5, p6, r6);
    regroup(h4, p5, r5);
    regroup(h3, p4, r4);
    regroup(h2, p3, r3);
    regroup(h1, p2, r2);
    regroup(h0, p1, r1);
    assert(h15 + rest == p0 + r0);
    heading_0(r0);
    heading_1(r1);
    heading_2(r2);
    heading_3(r3);
    heading_4(r4);
    heading_of_steps(steps, r7);
    regroup(p5, p6, p7 + r7);
    regroup(p5 + p6, p7, r7);
    heading_6(r8);
    heading_7(r9);
    heading_8(r10);
    heading_9(r11);
    heading_10(r12);
    heading_11(r13);
    heading_12(r14);
    heading_13(r15);
}

/// A fact under the number of a step.
pub open spec fn stepped(f: FactModel, k: nat) -> FactModel {
    FactModel { key: FactKey { step: k as i64, token: f.key.token, indexed: true }, weight: f.weight }
}

/// A line of a program of one decision: where it has the form of a fact, it is one, and it names no step.
pub open spec fn is_plain_line(line: Seq<char>) -> bool {
    fact_parts(line) is Some ==> fact_of(line) is Some && !(fact_of(line)->0).key.indexed
}

/// A program of one decision.
pub open spec fn is_plain(program: Seq<char>) -> bool {
    forall|i: int| 0 <= i < lines_of(program).len() ==> is_plain_line(#[trigger] lines_of(program)[i])
}

/// The facts of the first `n` lines, under the number of a step.
pub open spec fn stepped_facts(k: nat, ls: Seq<Seq<char>>, n: nat) -> Seq<FactModel>
    decreases n,
{
    if n == 0 {
        Seq::empty()
    } else {
        let rest = stepped_facts(k, ls, (n - 1) as nat);
        if fact_parts(ls[n - 1]) is Some { rest.push(stepped(fact_of(ls[n - 1])->0, k)) } else { rest }
    }
}

/// No line has a line end in it.
proof fn lines_have_no_end(s: Seq<char>)
    ensures
        forall|i: int| 0 <= i < lines_of(s).len() ==> !(#[trigger] lines_of(s)[i]).contains('\n'),
    decreases s.len(),
{
    if s.len() > 0 {
        position_is_first(s, '\n');
        match position(s, '\n') {
            Some(i) => {
                let (first, rest) = (without_return(s.take(i)), lines_of(s.skip(i + 1)));
                lines_have_no_end(s.skip(i + 1));
                assert(!first.contains('\n')) by {
                    assert forall|k: int| 0 <= k < first.len() implies first[k] != '\n' by {
                        assert(first[k] == s[k]);
                    }
                }
                assert forall|k: int| 0 <= k < lines_of(s).len() implies !(#[trigger] lines_of(s)[k]).contains('\n') by {
                    if k > 0 {
                        assert(lines_of(s)[k] == rest[k - 1]);
                    }
                }
            },
            None => {},
        }
    }
}

proof fn trimmed_start_has_no_end(s: Seq<char>)
    requires
        !s.contains('\n'),
    ensures
        !trim_start(s).contains('\n'),
    decreases s.len(),
{
    if s.len() > 0 && is_white(s[0]) {
        assert(!s.skip(1).contains('\n')) by {
            assert forall|k: int| 0 <= k < s.skip(1).len() implies s.skip(1)[k] != '\n' by {
                assert(s[k + 1] != '\n') by {
                    assert(s.contains(s[k + 1]));
                }
            }
        }
        trimmed_start_has_no_end(s.skip(1));
    }
}

/// A fact does not depend on a carriage return at its end.
proof fn return_is_trimmed(s: Seq<char>)
    requires
        s.len() > 0,
        !is_white(s[0]),
    ensures
        fact_of(without_return(s)) == fact_of(s),
{
    if s.last() == '\r' {
        let t = s.drop_last();
        assert(s.len() > 1);
        assert(t[0] == s[0]);
        assert(trim_start(s) == s && trim_start(t) == t);
        assert(trim_end(s) == trim_end(t));
    }
}

/// A fact that is taken over is read behind what was read before, and what follows is read behind it.
proof fn one_fact_is_taken_over(k: nat, line: Seq<char>, rest: Seq<char>)
    requires
        k <= i64::MAX,
        is_plain_line(line),
        !line.contains('\n'),
        fact_parts(line) is Some,
    ensures
        ({
            let (head, inner, after) = fact_parts(line)->0;
            facts_in(indexed_fact(k, head, inner, after) + rest) == seq![stepped(fact_of(line)->0, k)] + facts_in(rest)
        }),
{
    reveal_strlit("\n");
    reveal_strlit("(");
    reveal_strlit(")");
    reveal_strlit(", ");
    reveal_strlit("candidate");
    reveal_strlit("contrib");
    let (head, inner, after) = fact_parts(line)->0;
    let full = indexed_fact(k, head, inner, after);
    let new = full.drop_last();
    assert(new + "\n"@ =~= full);
    stitched_fact_keeps_its_meaning(line, k, head, inner, after, new);
    parts_are_read(line, head, inner, after);
    trimmed_start_has_no_end(line);
    let t = trim_start(line);
    numeral_is_read_back(k);
    let d = dec(k);
    let (a, b, c) = (head.len() as int, d.len() as int, inner.len() as int);
    assert(!new.contains('\n')) by {
        assert forall|i: int| 0 <= i < new.len() implies new[i] != '\n' by {
            if i < a {
                assert(new[i] == t[i]);
                assert(t.contains(t[i]));
            } else if i == a {
                assert(new[i] == '(');
            } else if i < a + 1 + b {
                assert(new[i] == d[i - a - 1]);
                assert(is_digit(d[i - a - 1]));
            } else if i < a + 3 + b {
                assert(new[i] == ", "@[i - a - 1 - b]);
            } else if i < a + 3 + b + c {
                assert(new[i] == inner[i - a - 3 - b]);
                assert(t[i - b - 2] == inner[i - a - 3 - b]);
                assert(t.contains(t[i - b - 2]));
            } else if i == a + 3 + b + c {
                assert(new[i] == ')');
            } else {
                assert(new[i] == after[i - a - 4 - b - c]);
                assert(t[i - b - 2] == after[i - a - 4 - b - c]);
                assert(t.contains(t[i - b - 2]));
            }
        }
    }
    assert(new[0] == head[0]);
    return_is_trimmed(new);
    facts_behind_a_line(new, rest);
    assert(full + rest =~= new + seq!['\n'] + rest);
}

/// The facts of a step are those of its program.
proof fn facts_of_a_step(k: nat, ls: Seq<Seq<char>>, n: nat, rest: Seq<char>)
    requires
        k <= i64::MAX,
        n <= ls.len(),
        forall|i: int| 0 <= i < ls.len() ==> is_plain_line(#[trigger] ls[i]) && !ls[i].contains('\n'),
    ensures
        facts_in(indexed_facts(k, ls, n).0 + rest) == stepped_facts(k, ls, n) + facts_in(rest),
    decreases n,
{
    if n == 0 {
        assert(indexed_facts(k, ls, 0).0 + rest =~= rest);
        assert(stepped_facts(k, ls, 0) + facts_in(rest) =~= facts_in(rest));
    } else {
        let before = indexed_facts(k, ls, (n - 1) as nat).0;
        let line = ls[n - 1];
        assert(is_plain_line(line));
        match fact_parts(line) {
            Some((head, inner, after)) => {
                let f = indexed_fact(k, head, inner, after);
                one_fact_is_taken_over(k, line, rest);
                facts_of_a_step(k, ls, (n - 1) as nat, f + rest);
                regroup(before, f, rest);
                let was = stepped_facts(k, ls, (n - 1) as nat);
                let x = stepped(fact_of(line)->0, k);
                assert(was + (seq![x] + facts_in(rest)) =~= was.push(x) + facts_in(rest));
            },
            None => {
                facts_of_a_step(k, ls, (n - 1) as nat, rest);
            },
        }
    }
}

proof fn prediction_has_no_end(ls: Seq<Seq<char>>, i: nat)
    requires
        forall|i: int| 0 <= i < ls.len() ==> !(#[trigger] ls[i]).contains('\n'),
    ensures
        !prediction_from(ls, i).contains('\n'),
    decreases ls.len() - i,
{
    if i < ls.len() {
        if has_prefix(trim_start(ls[i as int]), "// model predicts:"@) {
            reveal_strlit("// model predicts:");
            trimmed_start_has_no_end(ls[i as int]);
            let t = trim_start(ls[i as int]);
            assert forall|k: int| 0 <= k < t.skip(3).len() implies t.skip(3)[k] != '\n' by {
                assert(t.contains(t[k + 3]));
            }
        } else {
            prediction_has_no_end(ls, i + 1);
        }
    }
}

proof fn three_digits_are_digits(k: nat)
    ensures
        !three_digits(k).contains('\n'),
{
    reveal_strlit("00");
    reveal_strlit("0");
    numeral_is_read_back(k);
    let (t, d) = (three_digits(k), dec(k));
    let pad = t.len() - d.len();
    assert forall|i: int| 0 <= i < t.len() implies t[i] != '\n' by {
        if i >= pad {
            assert(t[i] == d[i - pad]);
            assert(is_digit(d[i - pad]));
        }
    }
}

/// The line that opens a step is passed over.
proof fn step_header_is_passed_over(k: nat, name: Seq<char>, pred: Seq<char>, rest: Seq<char>)
    requires
        !name.contains('\n'),
        !pred.contains('\n'),
    ensures
        facts_in(step_header(k, name, pred) + rest) == facts_in(rest),
{
    reveal_strlit("\n// ---- step ");
    reveal_strlit("  (");
    reveal_strlit(")  ");
    reveal_strlit(" ----\n");
    let h = step_header(k, name, pred);
    let d = three_digits(k);
    three_digits_are_digits(k);
    let l = h.skip(1);
    assert(h =~= seq!['\n'] + l);
    let (a, b, c) = (d.len() as int, name.len() as int, pred.len() as int);
    assert(l.len() == 13 + a + 3 + b + 3 + c + 6);
    assert forall|i: int| 0 <= i < l.len() - 1 implies l[i] != '\n' by {
        if i < 13 {
            assert(l[i] == "\n// ---- step "@[i + 1]);
        } else if i < 13 + a {
            assert(l[i] == d[i - 13]);
            assert(d.contains(d[i - 13]));
        } else if i < 16 + a {
            assert(l[i] == "  ("@[i - 13 - a]);
        } else if i < 16 + a + b {
            assert(l[i] == name[i - 16 - a]);
            assert(name.contains(name[i - 16 - a]));
        } else if i < 19 + a + b {
            assert(l[i] == ")  "@[i - 16 - a - b]);
        } else if i < 19 + a + b + c {
            assert(l[i] == pred[i - 19 - a - b]);
            assert(pred.contains(pred[i - 19 - a - b]));
        } else {
            assert(l[i] == " ----\n"@[i - 19 - a - b - c]);
        }
    }
    assert(l[0] == '/');
    assert(l.last() == '\n');
    assert(is_heading(l));
    heading_is_passed_over(l, rest);
    empty_line_is_passed_over(l + rest);
    assert(h + rest =~= seq!['\n'] + (l + rest));
}

/// The facts of the first `n` programs, each under the number of its step.
pub open spec fn trace_facts(programs: Seq<String>, n: nat) -> Seq<FactModel>
    decreases n,
{
    if n == 0 {
        Seq::empty()
    } else {
        let ls = lines_of(programs[n - 1]@);
        trace_facts(programs, (n - 1) as nat) + stepped_facts((n - 1) as nat, ls, ls.len())
    }
}

proof fn steps_are_read(names: Seq<String>, programs: Seq<String>, n: nat, rest: Seq<char>)
    requires
        n <= programs.len(),
        n <= i64::MAX,
        names.len() == programs.len(),
        forall|i: int| 0 <= i < programs.len() ==> is_plain((#[trigger] programs[i])@),
        forall|i: int| 0 <= i < names.len() ==> !(#[trigger] names[i])@.contains('\n'),
    ensures
        facts_in(steps_text(names, programs, n) + rest) == trace_facts(programs, n) + facts_in(rest),
    decreases n,
{
    if n == 0 {
        assert(steps_text(names, programs, 0) + rest =~= rest);
        assert(trace_facts(programs, 0) + facts_in(rest) =~= facts_in(rest));
    } else {
        let k = (n - 1) as nat;
        let before = steps_text(names, programs, k);
        let (name, program) = (names[n - 1]@, programs[n - 1]@);
        let ls = lines_of(program);
        let step = step_text(k, name, program);
        let head = step_header(k, name, prediction_from(ls, 0));
        let body = indexed_facts(k, ls, ls.len()).0;
        assert(is_plain(programs[n - 1]@));
        assert(!names[n - 1]@.contains('\n'));
        lines_have_no_end(program);
        prediction_has_no_end(ls, 0);
        facts_of_a_step(k, ls, ls.len(), rest);
        step_header_is_passed_over(k, name, prediction_from(ls, 0), body + rest);
        regroup(head, body, rest);
        regroup(before, step, rest);
        steps_are_read(names, programs, k, step + rest);
        let (x, y, z) = (trace_facts(programs, k), stepped_facts(k, ls, ls.len()), facts_in(rest));
        assert(x + (y + z) =~= (x + y) + z);
    }
}

/// A merged program holds exactly the facts of its inputs, each under the number of its step, in order: reading it
/// back gives the facts of the first program as step zero, then those of the second, and so on. The inputs are
/// programs of one decision, and no file name has a line end in it.
pub proof fn stitched_program_is_read_back(names: Seq<String>, programs: Seq<String>, steps: nat)
    requires
        programs.len() <= i64::MAX,
        names.len() == programs.len(),
        forall|i: int| 0 <= i < programs.len() ==> is_plain((#[trigger] programs[i])@),
        forall|i: int| 0 <= i < names.len() ==> !(#[trigger] names[i])@.contains('\n'),
    ensures
        facts_in(stitch_header(steps) + steps_text(names, programs, programs.len())) == trace_facts(
            programs,
            programs.len(),
        ),
{
    let body = steps_text(names, programs, programs.len());
    heading_has_no_facts(steps, body);
    steps_are_read(names, programs, programs.len(), Seq::empty());
    assert(body + Seq::<char>::empty() =~= body);
    assert(facts_in(Seq::empty()) =~= Seq::empty());
    let t = trace_facts(programs, programs.len());
    assert(t + Seq::<FactModel>::empty() =~= t);
}

} // verus!
