//! Questions to a model and the numbers in its answers.
//!
//! A question is asked token by token: the pieces of the answer are collected until one of them holds a line end, or
//! until enough of them were taken. The answer is the first number of the collected text.
use vstd::prelude::*;
use crate::text::{chars_of, i64_value, is_digit, parse_i64, string_of, trim, trim_start, white_prefix, white_suffix};

verus! {

/// The answer as far as it has come.
pub struct Asking {
    text: String,
    left: usize,
}

impl Asking {
    /// What was collected.
    pub closed spec fn collected(self) -> Seq<char> {
        self.text@
    }

    /// How many further pieces may be taken.
    pub closed spec fn remaining(self) -> nat {
        self.left as nat
    }

    /// A question whose answer has at most `limit` pieces.
    pub fn new(limit: usize) -> (a: Asking)
        ensures
            a.collected() == Seq::<char>::empty(),
            a.remaining() == limit,
    {
        Asking { text: String::new(), left: limit }
    }

    /// Whether another piece is to be asked for.
    pub fn wants_more(&self) -> (r: bool)
        ensures
            r == (self.remaining() > 0),
    {
        self.left > 0
    }

    /// Takes the next piece, unless it ends the answer; says whether it was taken.
    pub fn feed(&mut self, piece: &str) -> (taken: bool)
        requires
            old(self).remaining() > 0,
        ensures
            taken == !piece@.contains('\n'),
            final(self).collected() == (if taken { old(self).collected() + piece@ } else { old(self).collected() }),
            final(self).remaining() == (if taken { (old(self).remaining() - 1) as nat } else { 0 }),
    {
        if has_line_end(piece) {
            self.left = 0;
            false
        } else {
            self.text.append(piece);
            self.left = self.left - 1;
            true
        }
    }

    /// The first number of what was collected.
    pub fn answer(&self) -> (r: Option<i64>)
        ensures
            r == first_number(self.collected()),
    {
        leading_number(self.text.as_str())
    }
}

fn has_line_end(piece: &str) -> (r: bool)
    ensures
        r == piece@.contains('\n'),
{
    for c in it: piece.chars()
        invariant
            it.seq() == piece@,
            forall|k: int| 0 <= k < it.index() ==> piece@[k] != '\n',
    {
        if c == '\n' {
            assert(piece@[it.index() as int] == '\n');
            return true;
        }
    }
    false
}

/// What is collected of the pieces: those before the first line end, at most `limit`.
pub open spec fn continuation(pieces: Seq<Seq<char>>, limit: nat) -> Seq<char>
    decreases limit,
{
    if limit == 0 || pieces.len() == 0 || pieces[0].contains('\n') {
        Seq::empty()
    } else {
        pieces[0] + continuation(pieces.skip(1), (limit - 1) as nat)
    }
}

/// Asks with the pieces given in advance: as many of them are taken as the question wants.
pub fn collect_answer(pieces: &[String], limit: usize) -> (a: Asking)
    ensures
        a.collected() == continuation(pieces@.map_values(|p: String| p@), limit as nat),
{
    let ghost all = pieces@.map_values(|p: String| p@);
    let mut a = Asking::new(limit);
    let mut i: usize = 0;
    assert(all.skip(0) =~= all);
    assert(a.collected() + continuation(all, limit as nat) =~= continuation(all, limit as nat));
    while a.wants_more() && i < pieces.len()
        invariant
            i <= pieces@.len(),
            all == pieces@.map_values(|p: String| p@),
            a.collected() + continuation(all.skip(i as int), a.remaining()) == continuation(all, limit as nat),
        decreases pieces.len() - i,
    {
        let ghost before = a.collected();
        let ghost left = a.remaining();
        let piece = pieces[i].as_str();
        proof {
            let s = all.skip(i as int);
            assert(s[0] == piece@);
            assert(s.skip(1) =~= all.skip(i + 1));
            let rest = continuation(s.skip(1), (left - 1) as nat);
            assert(before + (piece@ + rest) =~= before + piece@ + rest);
        }
        a.feed(piece);
        i += 1;
    }
    assert(a.collected() + Seq::<char>::empty() =~= a.collected());
    a
}

/// The text from its first digit on.
pub open spec fn from_digit(s: Seq<char>) -> Seq<char>
    decreases s.len(),
{
    if s.len() == 0 || is_digit(s[0]) {
        s
    } else {
        from_digit(s.skip(1))
    }
}

/// The digits that the text starts with.
pub open spec fn digit_run(s: Seq<char>) -> Seq<char>
    decreases s.len(),
{
    if s.len() > 0 && is_digit(s[0]) {
        seq![s[0]] + digit_run(s.skip(1))
    } else {
        Seq::empty()
    }
}

/// The first run of digits of the text, as a number; none when there is no digit or the number is out of range.
pub open spec fn first_number(s: Seq<char>) -> Option<i64> {
    i64_value(digit_run(from_digit(s)))
}

/// Reads the first number of a text.
pub fn leading_number(text: &str) -> (r: Option<i64>)
    ensures
        r == first_number(text@),
{
    let b = chars_of(text);
    let mut i: usize = 0;
    assert(b@.skip(0) =~= b@);
    while i < b.len() && !('0' <= b[i] && b[i] <= '9')
        invariant
            i <= b@.len(),
            from_digit(b@) == from_digit(b@.skip(i as int)),
        decreases b.len() - i,
    {
        assert(b@.skip(i as int).skip(1) =~= b@.skip(i + 1));
        i += 1;
    }
    let ghost s = b@.skip(i as int);
    let mut j: usize = i;
    let mut num = String::new();
    assert(num@ + digit_run(s) =~= digit_run(s));
    while j < b.len() && '0' <= b[j] && b[j] <= '9'
        invariant
            i <= j <= b@.len(),
            num@ + digit_run(b@.skip(j as int)) == digit_run(s),
        decreases b.len() - j,
    {
        let ghost before = num@;
        let ghost t = b@.skip(j as int);
        assert(t.skip(1) =~= b@.skip(j + 1));
        num.push(b[j]);
        assert(before + (seq![t[0]] + digit_run(t.skip(1))) =~= num@ + digit_run(t.skip(1)));
        j += 1;
    }
    assert(num@ + Seq::<char>::empty() =~= num@);
    parse_i64(num.as_str())
}

/// The numbers of a text, with the digits `num` pending: each maximal run of digits that is a number in range.
pub open spec fn numbers_in(s: Seq<char>, num: Seq<char>) -> Seq<i64>
    decreases s.len(),
{
    let here = match i64_value(num) {
        Some(v) => seq![v],
        None => Seq::empty(),
    };
    if s.len() == 0 {
        here
    } else if is_digit(s[0]) {
        numbers_in(s.skip(1), num.push(s[0]))
    } else {
        here + numbers_in(s.skip(1), Seq::empty())
    }
}

/// The numbers that occur in a text, in order.
pub fn literals_in(text: &str) -> (r: Vec<i64>)
    ensures
        r@ == numbers_in(text@, Seq::empty()),
{
    let b = chars_of(text);
    let mut out: Vec<i64> = Vec::new();
    let mut num: Vec<char> = Vec::new();
    let mut i: usize = 0;
    assert(b@.skip(0) =~= b@);
    assert(out@ + numbers_in(b@, Seq::empty()) =~= numbers_in(b@, Seq::empty()));
    while i < b.len()
        invariant
            i <= b@.len(),
            out@ + numbers_in(b@.skip(i as int), num@) == numbers_in(b@, Seq::empty()),
        decreases b.len() - i,
    {
        let ghost s = b@.skip(i as int);
        let ghost before = out@;
        let ghost pending = num@;
        assert(s.skip(1) =~= b@.skip(i + 1));
        let c = b[i];
        if '0' <= c && c <= '9' {
            num.push(c);
        } else {
            if let Some(v) = parse_i64(string_of(num.as_slice()).as_str()) {
                out.push(v);
            }
            num.clear();
            proof {
                let here = match i64_value(pending) {
                    Some(v) => seq![v],
                    None => Seq::empty(),
                };
                let rest = numbers_in(s.skip(1), Seq::empty());
                assert(num@ =~= Seq::empty());
                assert(out@ =~= before + here);
                assert(before + (here + rest) =~= out@ + rest);
            }
        }
        i += 1;
    }
    let ghost before = out@;
    if let Some(v) = parse_i64(string_of(num.as_slice()).as_str()) {
        out.push(v);
    }
    assert(out@ =~= before + numbers_in(b@.skip(i as int), num@));
    out
}

/// Reads a decoded token as a number: the number may stand between white space, and nothing else may.
pub fn decoded_number(text: &str) -> (r: Option<i64>)
    ensures
        r == i64_value(trim(text@)),
{
    let b = chars_of(text);
    let from = white_prefix(b.as_slice());
    let tail = vstd::slice::slice_subrange(b.as_slice(), from, b.len());
    assert(tail@ =~= trim_start(text@));
    let to = white_suffix(tail);
    let body = vstd::slice::slice_subrange(tail, 0, to);
    assert(body@ =~= tail@.take(to as int));
    parse_i64(string_of(body).as_str())
}

} // verus!
