//! What holds of every script character: how the tables of superscripts and subscripts go together.
use vstd::prelude::*;
use crate::symbols::{script_form, subscript_of, superscript_of};

verus! {

/// The subscript digits stand in order; so do the superscript digits, but for one, two and three, which stand elsewhere.
pub proof fn script_digits_stand_in_order(c: char)
    requires
        '0' <= c && c <= '9',
    ensures
        subscript_of(c) matches Some(t) && t as int == 0x2080 + (c as int - '0' as int),
        superscript_of(c) matches Some(t) && t as int == (if c == '1' {
            0xb9int
        } else if c == '2' || c == '3' {
            0xb2 + (c as int - '2' as int)
        } else {
            0x2070 + (c as int - '0' as int)
        }),
{
}

/// The signs and brackets have their superscripts and their subscripts at the same places behind the digits.
pub proof fn script_signs_stand_in_order(c: char)
    requires
        c == '+' || c == '-' || c == '=' || c == '(' || c == ')',
    ensures
        superscript_of(c) matches Some(t) && 0x207a <= t as int <= 0x207e && (subscript_of(c) matches Some(u) && u as int == t as int
            + 0x10),
        c == '-' || c == ')' ==> (superscript_of((if c == '-' { '+' } else { '(' })) matches Some(t) && superscript_of(c)
            == Some((t as int + 1) as char)),
{
}

/// A script character shows which character it stands for, and, but for the blank, whether it is raised or lowered.
pub proof fn scripts_tell_characters(a: char, b: char)
    ensures
        superscript_of(a) is Some && superscript_of(a) == superscript_of(b) ==> a == b,
        subscript_of(a) is Some && subscript_of(a) == subscript_of(b) ==> a == b,
        superscript_of(a) is Some && superscript_of(a) == subscript_of(b) ==> a == ' ' && b == ' ',
{
}

/// A text has a script form exactly where each of its characters has one, and those make it up, one for one.
pub proof fn scripts_go_by_characters(s: Seq<char>, sub: bool)
    ensures
        script_form(s, sub) is Some <==> forall|i: int|
            0 <= i < s.len() ==> (if sub { subscript_of(#[trigger] s[i]) } else { superscript_of(s[i]) }) is Some,
        script_form(s, sub) matches Some(t) ==> t.len() == s.len() && forall|i: int|
            0 <= i < s.len() ==> (if sub { subscript_of(#[trigger] s[i]) } else { superscript_of(s[i]) }) == Some(t[i]),
    decreases s.len(),
{
    if s.len() > 0 {
        let h = s.drop_last();
        let n = s.len() - 1;
        scripts_go_by_characters(h, sub);
        assert(s.last() == s[n]);
        assert forall|i: int| 0 <= i < h.len() implies #[trigger] h[i] == s[i] by {}
        if script_form(s, sub) is Some {
            let t = script_form(s, sub)->0;
            assert forall|i: int| 0 <= i < s.len() implies (if sub { subscript_of(#[trigger] s[i]) } else {
                superscript_of(s[i])
            }) == Some(t[i]) by {
                if i < n {
                    assert(h[i] == s[i]);
                }
            }
        }
        if forall|i: int| 0 <= i < s.len() ==> (if sub { subscript_of(#[trigger] s[i]) } else { superscript_of(s[i]) }) is Some {
            assert forall|i: int| 0 <= i < h.len() implies (if sub { subscript_of(#[trigger] h[i]) } else {
                superscript_of(h[i])
            }) is Some by {
                assert(h[i] == s[i]);
            }
            assert((if sub { subscript_of(s[n]) } else { superscript_of(s[n]) }) is Some);
        }
    }
}

} // verus!
