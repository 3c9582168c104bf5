//! Lines, fields and names: texts taken apart, and names put in order.
use vstd::prelude::*;
use crate::text::{chars_of, position, position_is_first};

verus! {

/// The text starts with another.
pub open spec fn has_prefix(s: Seq<char>, p: Seq<char>) -> bool {
    p.len() <= s.len() && s.take(p.len() as int) == p
}

/// The text ends with another.
pub open spec fn has_suffix(s: Seq<char>, p: Seq<char>) -> bool {
    p.len() <= s.len() && s.skip(s.len() - p.len()) == p
}

/// Whether the characters from `from` on begin with a word.
fn matches_at(s: &[char], from: usize, w: &[char]) -> (r: bool)
    requires
        from + w@.len() <= s@.len(),
    ensures
        r == (s@.subrange(from as int, from + w@.len()) == w@),
{
    let n: usize = w.len();
    let len: usize = s.len();
    for i in 0..n
        invariant
            n == w@.len(),
            len == s@.len(),
            from + n <= len,
            forall|k: int| 0 <= k < i ==> s@[from + k] == w@[k],
    {
        if s[from + i] != w[i] {
            assert(s@.subrange(from as int, from + w@.len())[i as int] != w@[i as int]);
            return false;
        }
    }
    assert(s@.subrange(from as int, from + w@.len()) =~= w@);
    true
}

pub fn starts_with(s: &[char], p: &str) -> (r: bool)
    ensures
        r == has_prefix(s@, p@),
{
    let w = chars_of(p);
    if w.len() > s.len() {
        return false;
    }
    assert(s@.subrange(0, w@.len() as int) =~= s@.take(w@.len() as int));
    matches_at(s, 0, w.as_slice())
}

pub fn ends_with(s: &[char], p: &str) -> (r: bool)
    ensures
        r == has_suffix(s@, p@),
{
    let w = chars_of(p);
    if w.len() > s.len() {
        return false;
    }
    let from: usize = s.len() - w.len();
    assert(s@.subrange(from as int, from + w@.len()) =~= s@.skip(from as int));
    matches_at(s, from, w.as_slice())
}

/// The index of the first `c`, if there is one.
pub fn find_char(s: &[char], c: char) -> (r: Option<usize>)
    ensures
        match r {
            Some(i) => position(s@, c) == Some(i as int) && i < s@.len() && s@[i as int] == c,
            None => position(s@, c) is None,
        },
{
    proof {
        position_is_first(s@, c);
    }
    for i in 0..s.len()
        invariant
            forall|k: int| 0 <= k < i ==> s@[k] != c,
            match position(s@, c) {
                Some(k) => 0 <= k < s@.len() && s@[k] == c && forall|j: int| 0 <= j < k ==> s@[j] != c,
                None => !s@.contains(c),
            },
    {
        if s[i] == c {
            assert(s@.contains(s@[i as int]));
            return Some(i);
        }
    }
    None
}

/// A line without the carriage return before its end.
pub open spec fn without_return(s: Seq<char>) -> Seq<char> {
    if s.len() > 0 && s.last() == '\r' { s.drop_last() } else { s }
}

/// The lines of a text: what a line feed ends, without the carriage return before it, and what is left behind the
/// last line feed, if anything is.
pub open spec fn lines_of(s: Seq<char>) -> Seq<Seq<char>>
    decreases s.len(),
{
    if s.len() == 0 {
        Seq::empty()
    } else {
        match position(s, '\n') {
            Some(i) => if 0 <= i < s.len() {
                seq![without_return(s.take(i))] + lines_of(s.skip(i + 1))
            } else {
                Seq::empty()
            },
            None => seq![s],
        }
    }
}

/// What the vectors spell.
pub open spec fn spelled(v: Seq<Vec<char>>) -> Seq<Seq<char>> {
    v.map_values(|w: Vec<char>| w@)
}

/// A piece of a text.
pub fn piece(s: &[char], from: usize, to: usize) -> (v: Vec<char>)
    requires
        from <= to <= s@.len(),
    ensures
        v@ == s@.subrange(from as int, to as int),
{
    let mut v: Vec<char> = Vec::new();
    for i in from..to
        invariant
            from <= to <= s@.len(),
            v@ == s@.subrange(from as int, i as int),
    {
        v.push(s[i]);
        assert(v@ =~= s@.subrange(from as int, i + 1));
    }
    v
}

/// Splits a text into its lines.
pub fn lines(text: &str) -> (v: Vec<Vec<char>>)
    ensures
        spelled(v@) == lines_of(text@),
{
    let s = chars_of(text);
    let n: usize = s.len();
    let mut v: Vec<Vec<char>> = Vec::new();
    let mut at: usize = 0;
    assert(s@.skip(0) =~= s@);
    assert(spelled(v@) + lines_of(s@) =~= lines_of(s@));
    while at < n
        invariant
            n == s@.len(),
            at <= n,
            spelled(v@) + lines_of(s@.skip(at as int)) == lines_of(s@),
        decreases n - at,
    {
        let tail = vstd::slice::slice_subrange(s.as_slice(), at, n);
        let ghost t = s@.skip(at as int);
        assert(tail@ =~= t);
        let ghost was = spelled(v@);
        match find_char(tail, '\n') {
            Some(i) => {
                let end: usize = if i > 0 && tail[i - 1] == '\r' { i - 1 } else { i };
                let line = piece(tail, 0, end);
                assert(line@ =~= without_return(t.take(i as int)));
                v.push(line);
                at = at + i + 1;
                proof {
                    assert(t.skip(i + 1) =~= s@.skip(at as int));
                    let rest = lines_of(s@.skip(at as int));
                    assert(spelled(v@) =~= was.push(line@));
                    assert(was + (seq![line@] + rest) =~= spelled(v@) + rest);
                }
            },
            None => {
                let line = piece(tail, 0, tail.len());
                assert(line@ =~= t);
                v.push(line);
                at = n;
                proof {
                    assert(s@.skip(at as int) =~= Seq::empty());
                    assert(spelled(v@) =~= was.push(t));
                    assert(spelled(v@) + Seq::<Seq<char>>::empty() =~= was + seq![t]);
                }
            },
        }
    }
    assert(s@.skip(at as int) =~= Seq::empty());
    assert(spelled(v@) + Seq::<Seq<char>>::empty() =~= spelled(v@));
    v
}

/// The fields of a text between separators; there is always one more than there are separators.
pub open spec fn fields_of(s: Seq<char>, sep: char) -> Seq<Seq<char>>
    decreases s.len(),
{
    match position(s, sep) {
        Some(i) => if 0 <= i < s.len() { seq![s.take(i)] + fields_of(s.skip(i + 1), sep) } else { Seq::empty() },
        None => seq![s],
    }
}

/// Splits a text at its separators.
pub fn fields(s: &[char], sep: char) -> (v: Vec<Vec<char>>)
    ensures
        spelled(v@) == fields_of(s@, sep),
        v@.len() > 0,
{
    let n: usize = s.len();
    let mut v: Vec<Vec<char>> = Vec::new();
    let mut at: usize = 0;
    assert(s@.skip(0) =~= s@);
    assert(spelled(v@) + fields_of(s@, sep) =~= fields_of(s@, sep));
    loop
        invariant
            n == s@.len(),
            at <= n,
            spelled(v@) + fields_of(s@.skip(at as int), sep) == fields_of(s@, sep),
        decreases n + 1 - at,
    {
        let tail = vstd::slice::slice_subrange(s, at, n);
        let ghost t = s@.skip(at as int);
        assert(tail@ =~= t);
        let ghost was = spelled(v@);
        match find_char(tail, sep) {
            Some(i) => {
                let f = piece(tail, 0, i);
                assert(f@ =~= t.take(i as int));
                v.push(f);
                at = at + i + 1;
                proof {
                    assert(t.skip(i + 1) =~= s@.skip(at as int));
                    let rest = fields_of(s@.skip(at as int), sep);
                    assert(spelled(v@) =~= was.push(f@));
                    assert(was + (seq![f@] + rest) =~= spelled(v@) + rest);
                }
            },
            None => {
                let f = piece(tail, 0, tail.len());
                assert(f@ =~= t);
                v.push(f);
                proof {
                    assert(spelled(v@) =~= was.push(t));
                    assert(spelled(v@) =~= was + seq![t]);
                }
                return v;
            },
        }
    }
}

/// The order of names: character by character, a prefix before what it is a prefix of.
pub open spec fn name_less(a: Seq<char>, b: Seq<char>) -> bool
    decreases a.len(),
{
    if b.len() == 0 {
        false
    } else if a.len() == 0 {
        true
    } else if a[0] != b[0] {
        a[0] < b[0]
    } else {
        name_less(a.skip(1), b.skip(1))
    }
}

/// Any two different names are in order, one way and not the other.
pub proof fn names_compare(a: Seq<char>, b: Seq<char>)
    ensures
        a != b ==> name_less(a, b) != name_less(b, a),
        a == b ==> !name_less(a, b),
    decreases a.len(),
{
    if a.len() > 0 && b.len() > 0 && a[0] == b[0] {
        names_compare(a.skip(1), b.skip(1));
        if a.skip(1) == b.skip(1) {
            assert(a =~= seq![a[0]] + a.skip(1));
            assert(b =~= seq![b[0]] + b.skip(1));
        }
    } else if a.len() == 0 && b.len() == 0 {
        assert(a =~= b);
    }
}

/// The order of names is transitive.
pub proof fn names_chain(a: Seq<char>, b: Seq<char>, c: Seq<char>)
    requires
        name_less(a, b),
        name_less(b, c),
    ensures
        name_less(a, c),
    decreases a.len(),
{
    if a.len() > 0 && b.len() > 0 && c.len() > 0 && a[0] == b[0] && b[0] == c[0] {
        names_chain(a.skip(1), b.skip(1), c.skip(1));
    }
}

fn comes_first(a: &str, b: &str) -> (r: bool)
    ensures
        r == name_less(a@, b@),
{
    let x = chars_of(a);
    let y = chars_of(b);
    let mut i: usize = 0;
    assert(x@.skip(0) =~= x@ && y@.skip(0) =~= y@);
    while i < x.len() && i < y.len() && x[i] == y[i]
        invariant
            i <= x@.len(),
            i <= y@.len(),
            name_less(x@, y@) == name_less(x@.skip(i as int), y@.skip(i as int)),
        decreases x.len() - i,
    {
        assert(x@.skip(i as int).skip(1) =~= x@.skip(i + 1));
        assert(y@.skip(i as int).skip(1) =~= y@.skip(i + 1));
        i += 1;
    }
    if i >= y.len() {
        false
    } else if i >= x.len() {
        true
    } else {
        x[i] < y[i]
    }
}

/// A text is one of the names.
pub open spec fn names_text(v: Seq<String>, t: Seq<char>) -> bool {
    exists|i: int| 0 <= i < v.len() && (#[trigger] v[i])@ == t
}

/// The names are in order, without repetition.
pub open spec fn in_order(v: Seq<String>) -> bool {
    forall|i: int, j: int| 0 <= i < j < v.len() ==> name_less((#[trigger] v[i])@, (#[trigger] v[j])@)
}

/// Puts a name at its place, unless it is there already.
fn place_name(v: &mut Vec<String>, name: String)
    requires
        in_order(old(v)@),
    ensures
        in_order(final(v)@),
        forall|t: Seq<char>| #[trigger] names_text(final(v)@, t) == (names_text(old(v)@, t) || t == name@),
{
    let ghost was = v@;
    let ghost x = name@;
    let mut at: usize = 0;
    while at < v.len() && comes_first(v[at].as_str(), name.as_str())
        invariant
            at <= v@.len(),
            v@ == was,
            x == name@,
            forall|i: int| 0 <= i < at ==> name_less((#[trigger] was[i])@, x),
        decreases v.len() - at,
    {
        at += 1;
    }
    if at < v.len() && !comes_first(name.as_str(), v[at].as_str()) {
        proof {
            names_compare(was[at as int]@, x);
            assert(was[at as int]@ == x);
        }
        return;
    }
    v.insert(at, name);
    proof {
        assert(v@.len() == was.len() + 1);
        assert(v@[at as int]@ == x);
        assert forall|i: int, j: int| 0 <= i < j < v@.len() implies name_less((#[trigger] v@[i])@, (#[trigger] v@[j])@) by {
            let bi = if i < at { i } else { i - 1 };
            let bj = if j < at { j } else { j - 1 };
            if i != at {
                assert(v@[i] == was[bi]);
            }
            if j != at {
                assert(v@[j] == was[bj]);
            }
            if i == at && bj > at {
                assert(name_less(was[at as int]@, was[bj]@));
                names_chain(x, was[at as int]@, was[bj]@);
            } else if i < at && j > at {
                assert(name_less(was[bi]@, was[bj]@));
            }
        }
        assert forall|t: Seq<char>| #[trigger] names_text(v@, t) == (names_text(was, t) || t == x) by {
            if names_text(v@, t) {
                let i = choose|i: int| 0 <= i < v@.len() && (#[trigger] v@[i])@ == t;
                if i != at {
                    assert(v@[i] == was[if i < at { i } else { i - 1 }]);
                }
            }
            if names_text(was, t) {
                let i = choose|i: int| 0 <= i < was.len() && (#[trigger] was[i])@ == t;
                assert(v@[if i < at { i } else { i + 1 }] == was[i]);
            }
        }
    }
}

/// Sorts names and drops repetitions.
pub fn sort_names(names: Vec<String>) -> (v: Vec<String>)
    ensures
        in_order(v@),
        forall|t: Seq<char>| #[trigger] names_text(v@, t) == names_text(names@, t),
{
    let mut v: Vec<String> = Vec::new();
    let ghost all = names@;
    for name in it: names
        invariant
            it.seq() == all,
            in_order(v@),
            forall|t: Seq<char>| #[trigger] names_text(v@, t) == names_text(all.take(it.index() as int), t),
    {
        let ghost k = it.index() as int;
        let ghost was = v@;
        let ghost x = name@;
        place_name(&mut v, name);
        proof {
            let (s, n) = (all.take(k), all.take(k + 1));
            assert(n[k]@ == x);
            assert forall|t: Seq<char>| #[trigger] names_text(v@, t) == names_text(n, t) by {
                assert(names_text(v@, t) == (names_text(was, t) || t == x));
                assert(names_text(was, t) == names_text(s, t));
                if names_text(s, t) {
                    let i = choose|i: int| 0 <= i < s.len() && (#[trigger] s[i])@ == t;
                    assert(n[i] == s[i]);
                }
                if names_text(n, t) {
                    let i = choose|i: int| 0 <= i < n.len() && (#[trigger] n[i])@ == t;
                    if i < k {
                        assert(s[i] == n[i]);
                    }
                }
            }
        }
    }
    assert(all.take(all.len() as int) =~= all);
    v
}

} // verus!
