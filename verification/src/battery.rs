//! The list battery: recursive functions over lists of digits, the questions about them, and the score.
use vstd::prelude::*;
use crate::recursion_probe::{digit_of, shuffled, xorshift};
use crate::text::{int_text, push_i64};

verus! {

/// A function over lists; the last two are what a model may compute instead of what it was asked.
#[derive(Clone, Copy, PartialEq, Eq, Structural)]
pub enum ListFn {
    Last,
    First,
    Len,
    Max,
    Min,
    Sum,
    SumMod10,
    Second,
}

pub open spec fn list_sum(l: Seq<i64>) -> int
    decreases l.len(),
{
    if l.len() == 0 {
        0
    } else {
        list_sum(l.drop_last()) + l.last()
    }
}

pub open spec fn list_max(l: Seq<i64>) -> i64
    decreases l.len(),
{
    if l.len() <= 1 {
        l[0]
    } else {
        let m = list_max(l.drop_last());
        if l.last() >= m { l.last() } else { m }
    }
}

pub open spec fn list_min(l: Seq<i64>) -> i64
    decreases l.len(),
{
    if l.len() <= 1 {
        l[0]
    } else {
        let m = list_min(l.drop_last());
        if l.last() < m { l.last() } else { m }
    }
}

/// A list of digits whose sum fits a machine word.
pub open spec fn digit_list(l: Seq<i64>) -> bool {
    &&& forall|i: int| 0 <= i < l.len() ==> 0 <= #[trigger] l[i] <= 9
    &&& 9 * l.len() <= i64::MAX
}

/// The value of a list function, where the list has one.
pub open spec fn list_value(f: ListFn, l: Seq<i64>) -> Option<int> {
    match f {
        ListFn::Len => Some(l.len() as int),
        ListFn::Sum => Some(list_sum(l)),
        ListFn::SumMod10 => Some(list_sum(l) % 10),
        ListFn::Second => if l.len() > 1 { Some(l[1] as int) } else { None },
        ListFn::Last => if l.len() > 0 { Some(l.last() as int) } else { None },
        ListFn::First => if l.len() > 0 { Some(l[0] as int) } else { None },
        ListFn::Max => if l.len() > 0 { Some(list_max(l) as int) } else { None },
        ListFn::Min => if l.len() > 0 { Some(list_min(l) as int) } else { None },
    }
}

proof fn sum_in_range(l: Seq<i64>)
    requires
        forall|i: int| 0 <= i < l.len() ==> 0 <= #[trigger] l[i] <= 9,
    ensures
        0 <= list_sum(l) <= 9 * l.len(),
    decreases l.len(),
{
    if l.len() > 0 {
        assert(0 <= l[l.len() - 1] <= 9);
        sum_in_range(l.drop_last());
    }
}

fn sum_of(l: &[i64]) -> (s: i64)
    requires
        digit_list(l@),
    ensures
        s == list_sum(l@),
        0 <= s,
{
    let mut s: i64 = 0;
    for i in 0..l.len()
        invariant
            digit_list(l@),
            s == list_sum(l@.take(i as int)),
            0 <= s <= 9 * i,
    {
        assert(l@.take(i + 1).drop_last() =~= l@.take(i as int));
        assert(0 <= l@[i as int] <= 9);
        s = s + l[i];
    }
    assert(l@.take(l.len() as int) =~= l@);
    s
}

/// The value of a list function, if the list has one.
pub fn list_fn(f: ListFn, l: &[i64]) -> (r: Option<i64>)
    requires
        digit_list(l@),
    ensures
        match r {
            Some(v) => list_value(f, l@) == Some(v as int),
            None => list_value(f, l@) is None,
        },
{
    match f {
        ListFn::Len => Some(l.len() as i64),
        ListFn::Sum => Some(sum_of(l)),
        ListFn::SumMod10 => Some((sum_of(l) as u64 % 10) as i64),
        ListFn::Second => if l.len() > 1 { Some(l[1]) } else { None },
        ListFn::Last => if l.len() > 0 { Some(l[l.len() - 1]) } else { None },
        ListFn::First => if l.len() > 0 { Some(l[0]) } else { None },
        ListFn::Max => {
            if l.len() == 0 {
                return None;
            }
            let mut m: i64 = l[0];
            for i in 1..l.len()
                invariant
                    l@.len() > 0,
                    m == list_max(l@.take(i as int)),
            {
                assert(l@.take(i + 1).drop_last() =~= l@.take(i as int));
                if l[i] >= m {
                    m = l[i];
                }
            }
            assert(l@.take(l.len() as int) =~= l@);
            Some(m)
        },
        ListFn::Min => {
            if l.len() == 0 {
                return None;
            }
            let mut m: i64 = l[0];
            for i in 1..l.len()
                invariant
                    l@.len() > 0,
                    m == list_min(l@.take(i as int)),
            {
                assert(l@.take(i + 1).drop_last() =~= l@.take(i as int));
                if l[i] < m {
                    m = l[i];
                }
            }
            assert(l@.take(l.len() as int) =~= l@);
            Some(m)
        },
    }
}

/// The answer that a question about the list expects: a single digit, or the list is not asked about.
pub open spec fn expected_digit(f: ListFn, l: Seq<i64>) -> Option<int> {
    match list_value(f, l) {
        Some(v) => if 0 <= v <= 9 { Some(v) } else { None },
        None => None,
    }
}

pub fn expected(f: ListFn, l: &[i64]) -> (r: Option<i64>)
    requires
        digit_list(l@),
    ensures
        match r {
            Some(v) => expected_digit(f, l@) == Some(v as int),
            None => expected_digit(f, l@) is None,
        },
{
    match list_fn(f, l) {
        Some(v) => if 0 <= v && v <= 9 { Some(v) } else { None },
        None => None,
    }
}

pub open spec fn name_text(f: ListFn) -> Seq<char> {
    match f {
        ListFn::Last => "last"@,
        ListFn::First => "first"@,
        ListFn::Len => "len"@,
        ListFn::Max => "max"@,
        ListFn::Min => "min"@,
        ListFn::Sum => "sum"@,
        ListFn::SumMod10 => "sum%10"@,
        ListFn::Second => "2nd"@,
    }
}

/// The name of a list function.
pub fn list_fn_name(f: ListFn) -> (s: &'static str)
    ensures
        s@ == name_text(f),
{
    match f {
        ListFn::Last => "last",
        ListFn::First => "first",
        ListFn::Len => "len",
        ListFn::Max => "max",
        ListFn::Min => "min",
        ListFn::Sum => "sum",
        ListFn::SumMod10 => "sum%10",
        ListFn::Second => "2nd",
    }
}

/// The examples that introduce a question; the functions that are never asked for have none.
pub open spec fn prime_text(f: ListFn) -> Seq<char> {
    match f {
        ListFn::Last => "last 3 7 2 5 = 5\nlast 1 8 4 = 4\nlast 6 0 9 2 = 2\n"@,
        ListFn::First => "first 3 7 2 5 = 3\nfirst 1 8 4 = 1\nfirst 6 0 9 2 = 6\n"@,
        ListFn::Len => "len 3 7 2 5 = 4\nlen 1 8 4 = 3\nlen 6 0 9 2 5 = 5\n"@,
        ListFn::Max => "max 3 7 2 5 = 7\nmax 1 8 4 = 8\nmax 6 0 9 2 = 9\n"@,
        ListFn::Min => "min 3 7 2 5 = 2\nmin 1 8 4 = 1\nmin 6 0 9 2 = 0\n"@,
        ListFn::Sum => "sum 3 1 2 = 6\nsum 4 0 1 = 5\nsum 2 3 1 = 6\n"@,
        _ => ""@,
    }
}

pub fn list_fn_prime(f: ListFn) -> (s: &'static str)
    ensures
        s@ == prime_text(f),
{
    match f {
        ListFn::Last => "last 3 7 2 5 = 5\nlast 1 8 4 = 4\nlast 6 0 9 2 = 2\n",
        ListFn::First => "first 3 7 2 5 = 3\nfirst 1 8 4 = 1\nfirst 6 0 9 2 = 6\n",
        ListFn::Len => "len 3 7 2 5 = 4\nlen 1 8 4 = 3\nlen 6 0 9 2 5 = 5\n",
        ListFn::Max => "max 3 7 2 5 = 7\nmax 1 8 4 = 8\nmax 6 0 9 2 = 9\n",
        ListFn::Min => "min 3 7 2 5 = 2\nmin 1 8 4 = 1\nmin 6 0 9 2 = 0\n",
        ListFn::Sum => "sum 3 1 2 = 6\nsum 4 0 1 = 5\nsum 2 3 1 = 6\n",
        _ => "",
    }
}

/// `n` digits of the stream.
pub open spec fn digits_from(seed: u64, n: nat) -> (Seq<i64>, u64)
    decreases n,
{
    if n == 0 {
        (Seq::empty(), seed)
    } else {
        let (head, s) = digits_from(seed, (n - 1) as nat);
        (head.push(digit_of(shuffled(s))), shuffled(s))
    }
}

/// A list whose length a first draw picks from `lmin` to `lmax`.
pub open spec fn list_from(lmin: nat, lmax: nat, seed: u64) -> (Seq<i64>, u64) {
    let s = shuffled(seed);
    digits_from(s, (lmin + s as int % (lmax - lmin + 1)) as nat)
}

/// Draws a list of digits with a length from `lmin` to `lmax`.
pub fn draw_list(lmin: usize, lmax: usize, r: &mut u64) -> (l: Vec<i64>)
    requires
        lmin <= lmax < usize::MAX,
        9 * lmax <= i64::MAX,
    ensures
        (l@, *final(r)) == list_from(lmin as nat, lmax as nat, *old(r)),
        lmin <= l@.len() <= lmax,
        digit_list(l@),
{
    let d: u64 = xorshift(r);
    let len: usize = lmin + (d % ((lmax - lmin + 1) as u64)) as usize;
    let ghost s = *r;
    let mut l: Vec<i64> = Vec::new();
    while l.len() < len
        invariant
            l@.len() <= len,
            (l@, *r) == digits_from(s, l@.len()),
            forall|i: int| 0 <= i < l@.len() ==> 0 <= #[trigger] l@[i] <= 9,
        decreases len - l.len(),
    {
        let v: i64 = (xorshift(r) % 10) as i64;
        l.push(v);
    }
    l
}

/// The next list that has an answer, with at most `left` draws; and how many draws are left.
pub open spec fn next_asked(f: ListFn, lmin: nat, lmax: nat, left: nat, seed: u64) -> (Option<Seq<i64>>, nat, u64)
    decreases left,
{
    if left == 0 {
        (None, 0, seed)
    } else {
        let (l, s) = list_from(lmin, lmax, seed);
        if expected_digit(f, l) is Some {
            (Some(l), (left - 1) as nat, s)
        } else {
            next_asked(f, lmin, lmax, (left - 1) as nat, s)
        }
    }
}

/// Draws lists until one has an answer, which is given with it.
pub fn draw_asked(f: ListFn, lmin: usize, lmax: usize, left: &mut usize, r: &mut u64) -> (e: Option<(Vec<i64>, i64)>)
    requires
        lmin <= lmax < usize::MAX,
        9 * lmax <= i64::MAX,
    ensures
        match e {
            Some((l, v)) => {
                &&& (Some(l@), *final(left) as nat, *final(r)) == next_asked(
                    f,
                    lmin as nat,
                    lmax as nat,
                    *old(left) as nat,
                    *old(r),
                )
                &&& expected_digit(f, l@) == Some(v as int)
                &&& lmin <= l@.len() <= lmax
            },
            None => (None::<Seq<i64>>, *final(left) as nat, *final(r)) == next_asked(
                f,
                lmin as nat,
                lmax as nat,
                *old(left) as nat,
                *old(r),
            ),
        },
{
    while *left > 0
        invariant
            lmin <= lmax < usize::MAX,
            9 * lmax <= i64::MAX,
            next_asked(f, lmin as nat, lmax as nat, *left as nat, *r) == next_asked(
                f,
                lmin as nat,
                lmax as nat,
                *old(left) as nat,
                *old(r),
            ),
        decreases *left,
    {
        let l = draw_list(lmin, lmax, r);
        *left = *left - 1;
        if let Some(v) = expected(f, l.as_slice()) {
            return Some((l, v));
        }
    }
    None
}

/// Numbers with a separator between them.
pub open spec fn joined(l: Seq<i64>, sep: char) -> Seq<char>
    decreases l.len(),
{
    if l.len() == 0 {
        Seq::empty()
    } else if l.len() == 1 {
        int_text(l[0] as int)
    } else {
        joined(l.drop_last(), sep) + seq![sep] + int_text(l.last() as int)
    }
}

pub fn push_joined(out: &mut String, l: &[i64], sep: char)
    ensures
        final(out)@ == old(out)@ + joined(l@, sep),
{
    assert(out@ =~= old(out)@ + joined(l@.take(0), sep));
    for i in 0..l.len()
        invariant
            out@ == old(out)@ + joined(l@.take(i as int), sep),
    {
        assert(l@.take(i + 1).drop_last() =~= l@.take(i as int));
        if i > 0 {
            out.push(sep);
        }
        push_i64(out, l[i]);
        assert(out@ =~= old(out)@ + joined(l@.take(i + 1), sep));
    }
    assert(l@.take(l.len() as int) =~= l@);
}

/// The question for the value of a function on a list, behind its examples.
pub open spec fn question_text(f: ListFn, l: Seq<i64>) -> Seq<char> {
    prime_text(f) + name_text(f) + seq![' '] + joined(l, ' ') + " ="@
}

pub fn list_question(f: ListFn, l: &[i64]) -> (s: String)
    ensures
        s@ == question_text(f, l@),
{
    let mut s = String::new();
    s.append(list_fn_prime(f));
    s.append(list_fn_name(f));
    s.push(' ');
    push_joined(&mut s, l, ' ');
    s.append(" =");
    assert(s@ =~= question_text(f, l@));
    s
}

/// One line of a dump: what was asked about which list, what the model said, and what is true.
pub open spec fn record_text(f: ListFn, l: Seq<i64>, said: i64, truth: i64) -> Seq<char> {
    "{\"task\":\""@ + name_text(f) + "\",\"list\":["@ + joined(l, ',') + "],\"out\":"@ + int_text(said as int)
        + ",\"truth\":"@ + int_text(truth as int) + "}\n"@
}

pub fn push_record(out: &mut String, f: ListFn, l: &[i64], said: i64, truth: i64)
    ensures
        final(out)@ == old(out)@ + record_text(f, l@, said, truth),
{
    out.append("{\"task\":\"");
    out.append(list_fn_name(f));
    out.append("\",\"list\":[");
    push_joined(out, l, ',');
    out.append("],\"out\":");
    push_i64(out, said);
    out.append(",\"truth\":");
    push_i64(out, truth);
    out.append("}\n");
    assert(out@ =~= old(out)@ + record_text(f, l@, said, truth));
}

/// How many observations a function is defined on, and how many of them it reproduces: `(reproduced, defined)`.
pub open spec fn fit(f: ListFn, seen: Seq<(Vec<i64>, i64)>) -> (nat, nat)
    decreases seen.len(),
{
    if seen.len() == 0 {
        (0, 0)
    } else {
        let (m, d) = fit(f, seen.drop_last());
        match list_value(f, seen.last().0@) {
            Some(v) => (if v == seen.last().1 { m + 1 } else { m }, d + 1),
            None => (m, d),
        }
    }
}

/// Scores a function against the observations.
pub fn fit_of(f: ListFn, seen: &[(Vec<i64>, i64)]) -> (r: (usize, usize))
    requires
        forall|i: int| 0 <= i < seen@.len() ==> digit_list(#[trigger] seen@[i].0@),
    ensures
        fit(f, seen@) == (r.0 as nat, r.1 as nat),
        r.0 <= r.1 <= seen@.len(),
{
    let mut m: usize = 0;
    let mut d: usize = 0;
    for i in 0..seen.len()
        invariant
            forall|i: int| 0 <= i < seen@.len() ==> digit_list(#[trigger] seen@[i].0@),
            fit(f, seen@.take(i as int)) == (m as nat, d as nat),
            m <= d <= i,
    {
        assert(seen@.take(i + 1).drop_last() =~= seen@.take(i as int));
        assert(digit_list(seen@[i as int].0@));
        if let Some(v) = list_fn(f, seen[i].0.as_slice()) {
            d += 1;
            if v == seen[i].1 {
                m += 1;
            }
        }
    }
    assert(seen@.take(seen.len() as int) =~= seen@);
    (m, d)
}

/// A share `m` of `d` is at least as great as another; a share of nothing is nothing.
pub open spec fn share_ge(a: (nat, nat), b: (nat, nat)) -> bool {
    if b.1 == 0 {
        true
    } else if a.1 == 0 {
        b.0 == 0
    } else {
        a.0 * b.1 >= b.0 * a.1
    }
}

/// Compares two shares by cross multiplication.
pub fn share_at_least(a: (usize, usize), b: (usize, usize)) -> (r: bool)
    ensures
        r == share_ge((a.0 as nat, a.1 as nat), (b.0 as nat, b.1 as nat)),
{
    if b.1 == 0 {
        true
    } else if a.1 == 0 {
        b.0 == 0
    } else {
        proof {
            product_fits(a.0 as int, b.1 as int);
            product_fits(b.0 as int, a.1 as int);
        }
        (a.0 as u128) * (b.1 as u128) >= (b.0 as u128) * (a.1 as u128)
    }
}

proof fn product_fits(x: int, y: int)
    requires
        0 <= x <= usize::MAX,
        0 <= y <= usize::MAX,
    ensures
        0 <= x * y <= u128::MAX,
{
    assert(0 <= x * y <= 0xffff_ffff_ffff_ffff * 0xffff_ffff_ffff_ffff) by (nonlinear_arith)
        requires
            0 <= x <= 0xffff_ffff_ffff_ffff,
            0 <= y <= 0xffff_ffff_ffff_ffff,
    ;
}

/// A score is a best fit: it is not zero, and no other is greater.
pub open spec fn is_best(scores: Seq<(usize, usize)>, k: int) -> bool {
    &&& scores[k].0 > 0
    &&& scores[k].1 > 0
    &&& forall|j: int|
        0 <= j < scores.len() ==> share_ge(
            (scores[k].0 as nat, scores[k].1 as nat),
            ((#[trigger] scores[j]).0 as nat, scores[j].1 as nat),
        )
}

/// Marks the best fits.
pub fn best_fits(scores: &[(usize, usize)]) -> (marks: Vec<bool>)
    ensures
        marks@.len() == scores@.len(),
        forall|k: int| 0 <= k < scores@.len() ==> #[trigger] marks@[k] == is_best(scores@, k),
{
    let mut marks: Vec<bool> = Vec::new();
    for k in 0..scores.len()
        invariant
            marks@.len() == k,
            forall|i: int| 0 <= i < k ==> #[trigger] marks@[i] == is_best(scores@, i),
    {
        let mut best = scores[k].0 > 0 && scores[k].1 > 0;
        let mut j: usize = 0;
        while j < scores.len()
            invariant
                k < scores@.len(),
                j <= scores@.len(),
                best == (scores@[k as int].0 > 0 && scores@[k as int].1 > 0 && forall|i: int|
                    0 <= i < j ==> share_ge(
                        (scores@[k as int].0 as nat, scores@[k as int].1 as nat),
                        ((#[trigger] scores@[i]).0 as nat, scores@[i].1 as nat),
                    )),
            decreases scores.len() - j,
        {
            best = best && share_at_least(scores[k], scores[j]);
            j += 1;
        }
        marks.push(best);
    }
    marks
}

/// A count of right answers among all answers.
#[derive(Clone, Copy, PartialEq, Eq, Structural)]
pub struct Tally {
    pub right: usize,
    pub total: usize,
}

impl Tally {
    pub fn new() -> (t: Tally)
        ensures
            t.right == 0,
            t.total == 0,
    {
        Tally { right: 0, total: 0 }
    }

    /// Counts one answer.
    pub fn count(&mut self, right: bool)
        requires
            old(self).total < usize::MAX,
            old(self).right <= old(self).total,
        ensures
            final(self).total == old(self).total + 1,
            final(self).right == old(self).right + if right { 1int } else { 0 },
    {
        self.total = self.total + 1;
        if right {
            self.right = self.right + 1;
        }
    }
}

/// Counts one answer by the length of its list; lengths that the table does not have are not counted.
pub fn count_by_length(by_len: &mut Vec<Tally>, len: usize, right: bool)
    requires
        len < old(by_len)@.len() ==> old(by_len)@[len as int].right <= old(by_len)@[len as int].total < usize::MAX,
    ensures
        len >= old(by_len)@.len() ==> final(by_len)@ == old(by_len)@,
        len < old(by_len)@.len() ==> final(by_len)@ == old(by_len)@.update(
            len as int,
            (Tally {
                right: (old(by_len)@[len as int].right + if right { 1int } else { 0 }) as usize,
                total: (old(by_len)@[len as int].total + 1) as usize,
            }),
        ),
{
    if len < by_len.len() {
        let mut t: Tally = by_len[len];
        t.count(right);
        by_len.set(len, t);
    }
}

/// Dropping the carry shows exactly on the lists whose sum is not asked for.
pub proof fn carry_shows_beyond_digits(l: Seq<i64>)
    requires
        digit_list(l),
    ensures
        (list_value(ListFn::SumMod10, l) == list_value(ListFn::Sum, l)) == (expected_digit(ListFn::Sum, l) is Some),
{
    sum_in_range(l);
}

/// The greatest and the least number of a list stand in it, and every other number lies between them.
pub proof fn extremes_bound_the_list(l: Seq<i64>)
    requires
        l.len() > 0,
    ensures
        l.contains(list_max(l)),
        l.contains(list_min(l)),
        forall|i: int| 0 <= i < l.len() ==> list_min(l) <= #[trigger] l[i] <= list_max(l),
    decreases l.len(),
{
    if l.len() == 1 {
        assert(l[0] == list_max(l) && l[0] == list_min(l));
    } else {
        let init = l.drop_last();
        extremes_bound_the_list(init);
        let i = choose|i: int| 0 <= i < init.len() && init[i] == list_max(init);
        let j = choose|j: int| 0 <= j < init.len() && init[j] == list_min(init);
        assert(l[i] == list_max(init) && l[j] == list_min(init));
        assert(l[l.len() - 1] == l.last());
        assert forall|k: int| 0 <= k < l.len() implies list_min(l) <= #[trigger] l[k] <= list_max(l) by {
            if k < init.len() {
                assert(init[k] == l[k]);
            }
        }
    }
}

/// Every list that is drawn to be asked about has a single digit for an answer.
pub proof fn asked_lists_have_answers(f: ListFn, lmin: nat, lmax: nat, left: nat, seed: u64)
    ensures
        next_asked(f, lmin, lmax, left, seed).0 matches Some(l) ==> expected_digit(f, l) is Some,
        next_asked(f, lmin, lmax, left, seed).1 <= left,
    decreases left,
{
    if left > 0 {
        asked_lists_have_answers(f, lmin, lmax, (left - 1) as nat, list_from(lmin, lmax, seed).1);
    }
}

} // verus!
