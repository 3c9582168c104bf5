//! Sweeps over lists: lists are drawn, the model is asked about them, and its answers are counted, written down or
//! kept to be compared with other functions.
use vstd::prelude::*;
use crate::battery::{
    count_by_length, digit_list, draw_asked, draw_list, expected_digit, list_from, list_question, next_asked, push_record,
    question_text, record_text, ListFn, Tally,
};
use crate::sweeps::{answers_to, can_be_asked};

verus! {

/// How many draws are left, and the state of the stream, when `i` lists with an answer were drawn.
pub open spec fn asked_state(f: ListFn, lmin: nat, lmax: nat, left: nat, seed: u64, i: nat) -> (nat, u64)
    decreases i,
{
    if i == 0 {
        (left, seed)
    } else {
        let (l, s) = asked_state(f, lmin, lmax, left, seed, (i - 1) as nat);
        let (_, l2, s2) = next_asked(f, lmin, lmax, l, s);
        (l2, s2)
    }
}

/// The list with the number `i` among those with an answer, if the draws suffice for it.
pub open spec fn asked_list(f: ListFn, lmin: nat, lmax: nat, left: nat, seed: u64, i: nat) -> Option<Seq<i64>> {
    let (l, s) = asked_state(f, lmin, lmax, left, seed, i);
    next_asked(f, lmin, lmax, l, s).0
}

/// A battery of questions about one function.
pub struct BatteryModel {
    pub f: ListFn,
    pub lmin: nat,
    pub lmax: nat,
    pub left: nat,
    pub seed: u64,
}

impl BatteryModel {
    pub open spec fn list(self, i: nat) -> Option<Seq<i64>> {
        asked_list(self.f, self.lmin, self.lmax, self.left, self.seed, i)
    }

    pub open spec fn state(self, i: nat) -> (nat, u64) {
        asked_state(self.f, self.lmin, self.lmax, self.left, self.seed, i)
    }

    /// The model answered the questions about the first lists so.
    pub open spec fn is_answered<F: Fn(String) -> Option<i64>>(self, ask: F, answers: Seq<Option<i64>>) -> bool {
        forall|i: int| 0 <= i < answers.len() ==> self.may_answer(ask, i as nat, #[trigger] answers[i])
    }

    /// There is a list with the number `i`, and the model may answer the question about it so.
    pub open spec fn may_answer<F: Fn(String) -> Option<i64>>(self, ask: F, i: nat, answer: Option<i64>) -> bool {
        self.list(i) is Some && answers_to(ask, question_text(self.f, self.list(i)->0), answer)
    }

    /// The answer to the list with the number `i` is right.
    pub open spec fn is_right(self, answers: Seq<Option<i64>>, i: nat) -> bool {
        answers[i as int] matches Some(v) && expected_digit(self.f, self.list(i)->0) == Some(v as int)
    }

    /// How many of the first `n` answers are right.
    pub open spec fn right(self, answers: Seq<Option<i64>>, n: nat) -> nat
        decreases n,
    {
        if n == 0 {
            0
        } else {
            self.right(answers, (n - 1) as nat) + if self.is_right(answers, (n - 1) as nat) { 1nat } else { 0 }
        }
    }

    /// The counts by length when the first `n` answers were counted.
    pub open spec fn by_length(self, table: Seq<Tally>, answers: Seq<Option<i64>>, n: nat) -> Seq<Tally>
        decreases n,
    {
        if n == 0 {
            table
        } else {
            let before = self.by_length(table, answers, (n - 1) as nat);
            with_answer(
                before,
                (self.list((n - 1) as nat)->0).len(),
                self.is_right(answers, (n - 1) as nat),
            )
        }
    }

    /// How many of the first `n` answers are numbers.
    pub open spec fn answered(self, answers: Seq<Option<i64>>, n: nat) -> nat
        decreases n,
    {
        if n == 0 {
            0
        } else {
            self.answered(answers, (n - 1) as nat) + if answers[n - 1] is Some { 1nat } else { 0 }
        }
    }

    /// What is written down of the first `n` answers: a record for each that is a number.
    pub open spec fn records(self, answers: Seq<Option<i64>>, n: nat) -> Seq<char>
        decreases n,
    {
        if n == 0 {
            Seq::empty()
        } else {
            let rest = self.records(answers, (n - 1) as nat);
            let l = self.list((n - 1) as nat)->0;
            match answers[n - 1] {
                Some(v) => rest + record_text(self.f, l, v, (expected_digit(self.f, l)->0) as i64),
                None => rest,
            }
        }
    }
}

/// A table of counts with one more answer, if it has a place for the length.
pub open spec fn with_answer(table: Seq<Tally>, len: nat, right: bool) -> Seq<Tally> {
    if len < table.len() {
        table.update(
            len as int,
            Tally {
                right: (table[len as int].right + if right { 1int } else { 0 }) as usize,
                total: (table[len as int].total + 1) as usize,
            },
        )
    } else {
        table
    }
}

proof fn earlier_answers(m: BatteryModel, answers: Seq<Option<i64>>, more: Option<i64>, table: Seq<Tally>, n: nat)
    requires
        n <= answers.len(),
    ensures
        m.right(answers.push(more), n) == m.right(answers, n),
        m.by_length(table, answers.push(more), n) == m.by_length(table, answers, n),
        m.answered(answers.push(more), n) == m.answered(answers, n),
        m.records(answers.push(more), n) == m.records(answers, n),
    decreases n,
{
    if n > 0 {
        earlier_answers(m, answers, more, table, (n - 1) as nat);
        assert(answers.push(more)[n - 1] == answers[n - 1]);
    }
}

/// A list that is drawn costs at least one draw.
proof fn draws_are_used_up(f: ListFn, lmin: nat, lmax: nat, left: nat, seed: u64)
    ensures
        next_asked(f, lmin, lmax, left, seed).0 is Some ==> next_asked(f, lmin, lmax, left, seed).1 < left,
        next_asked(f, lmin, lmax, left, seed).1 <= left,
    decreases left,
{
    if left > 0 {
        draws_are_used_up(f, lmin, lmax, (left - 1) as nat, list_from(lmin, lmax, seed).1);
    }
}

/// A table whose counts have room for `n` more answers each.
pub open spec fn has_room(table: Seq<Tally>, n: nat) -> bool {
    forall|i: int| 0 <= i < table.len() ==> (#[trigger] table[i]).right <= table[i].total && table[i].total + n < usize::MAX
}

/// The accuracy of the model on a list function: `n` lists with an answer are drawn, in at most `left` draws, and each
/// is asked about. The answers are also counted by the length of their lists.
pub fn list_accuracy<F: Fn(String) -> Option<i64>>(
    ask: &F,
    f: ListFn,
    n: usize,
    lmin: usize,
    lmax: usize,
    left: usize,
    r: &mut u64,
    by_len: &mut Vec<Tally>,
) -> (t: Tally)
    requires
        can_be_asked(*ask),
        lmin <= lmax < usize::MAX,
        9 * lmax <= i64::MAX,
        n < usize::MAX,
        has_room(old(by_len)@, n as nat),
    ensures
        exists|answers: Seq<Option<i64>>|
            is_accuracy(
                *ask,
                (BatteryModel { f, lmin: lmin as nat, lmax: lmax as nat, left: left as nat, seed: *old(r) }),
                n as nat,
                #[trigger] answers.len(),
                answers,
                t,
                old(by_len)@,
                final(by_len)@,
                *final(r),
            ),
{
    let ghost m = BatteryModel { f, lmin: lmin as nat, lmax: lmax as nat, left: left as nat, seed: *r };
    let ghost mut answers: Seq<Option<i64>> = Seq::empty();
    let mut t = Tally::new();
    let mut left: usize = left;
    let ghost table = by_len@;
    while t.total < n
        invariant_except_break
            m.state(answers.len()) == (left as nat, *r),
        invariant
            can_be_asked(*ask),
            lmin <= lmax < usize::MAX,
            9 * lmax <= i64::MAX,
            n < usize::MAX,
            m.f == f,
            m.lmin == lmin,
            m.lmax == lmax,
            m.is_answered(*ask, answers),
            t.total == answers.len(),
            t.total <= n,
            t.right == m.right(answers, answers.len()),
            t.right <= t.total,
            by_len@ == m.by_length(table, answers, answers.len()),
            has_room(by_len@, (n - t.total) as nat),
        ensures
            if t.total == n {
                *r == m.state(answers.len()).1
            } else {
                m.list(answers.len()) is None && *r == m.state(answers.len() + 1).1
            },
        decreases n - t.total,
    {
        let ghost k = answers.len();
        match draw_asked(f, lmin, lmax, &mut left, r) {
            Some((l, truth)) => {
                let q = list_question(f, l.as_slice());
                let ghost asked = q;
                let answer = ask(q);
                let right = match answer {
                    Some(v) => v == truth,
                    None => false,
                };
                proof {
                    assert(call_ensures(*ask, (asked,), answer));
                    assert(m.list(k) == Some(l@));
                    assert(answers_to(*ask, question_text(f, l@), answer));
                    earlier_answers(m, answers, answer, table, k);
                    let was = answers;
                    answers = answers.push(answer);
                    assert forall|i: int| 0 <= i < answers.len() implies m.may_answer(
                        *ask,
                        i as nat,
                        #[trigger] answers[i],
                    ) by {
                        if i < k {
                            assert(answers[i] == was[i]);
                        }
                    }
                    assert(m.is_right(answers, k) == right);
                }
                let ghost before = by_len@;
                count_by_length(by_len, l.len(), right);
                t.count(right);
                proof {
                    assert(by_len@ =~= with_answer(before, l@.len(), right));
                    assert forall|i: int| 0 <= i < by_len@.len() implies (#[trigger] by_len@[i]).right <= by_len@[i].total
                        && by_len@[i].total + (n - t.total) < usize::MAX by {
                        assert(before[i].right <= before[i].total);
                    }
                }
            },
            None => {
                assert(m.list(k) is None);
                break;
            },
        }
    }
    assert(is_accuracy(*ask, m, n as nat, answers.len(), answers, t, table, by_len@, *r));
    t
}

/// The counts of a battery are those of the answers, of which there are `n`, unless the draws ran out.
pub open spec fn is_accuracy<F: Fn(String) -> Option<i64>>(
    ask: F,
    m: BatteryModel,
    n: nat,
    k: nat,
    answers: Seq<Option<i64>>,
    t: Tally,
    before: Seq<Tally>,
    after: Seq<Tally>,
    seed: u64,
) -> bool {
    &&& k == answers.len()
    &&& k <= n
    &&& if k == n { seed == m.state(k).1 } else { m.list(k) is None && seed == m.state(k + 1).1 }
    &&& m.is_answered(ask, answers)
    &&& t.total == k
    &&& t.right == m.right(answers, k)
    &&& after == m.by_length(before, answers, k)
}

/// Writes down what the model says about lists: lists with an answer are drawn, in at most `left` draws, until `n` of
/// the model's answers are numbers; each of those makes a record. Gives the number of records.
pub fn dump_lists<F: Fn(String) -> Option<i64>>(
    ask: &F,
    f: ListFn,
    n: usize,
    lmin: usize,
    lmax: usize,
    left: usize,
    r: &mut u64,
    out: &mut String,
) -> (got: usize)
    requires
        can_be_asked(*ask),
        lmin <= lmax < usize::MAX,
        9 * lmax <= i64::MAX,
    ensures
        exists|answers: Seq<Option<i64>>|
            is_dump(
                *ask,
                (BatteryModel { f, lmin: lmin as nat, lmax: lmax as nat, left: left as nat, seed: *old(r) }),
                n as nat,
                #[trigger] answers.len(),
                answers,
                got as nat,
                old(out)@,
                final(out)@,
                *final(r),
            ),
{
    let ghost m = BatteryModel { f, lmin: lmin as nat, lmax: lmax as nat, left: left as nat, seed: *r };
    let ghost mut answers: Seq<Option<i64>> = Seq::empty();
    let ghost text = out@;
    let mut got: usize = 0;
    let mut left: usize = left;
    assert(text + m.records(answers, 0) =~= text);
    while got < n
        invariant_except_break
            m.state(answers.len()) == (left as nat, *r),
            got == n ==> *r == m.state(answers.len()).1,
        invariant
            can_be_asked(*ask),
            lmin <= lmax < usize::MAX,
            9 * lmax <= i64::MAX,
            m.f == f,
            m.lmin == lmin,
            m.lmax == lmax,
            m.is_answered(*ask, answers),
            got <= n,
            got == m.answered(answers, answers.len()),
            answers.len() > 0 && got == n ==> answers.last() is Some,
            out@ == text + m.records(answers, answers.len()),
        ensures
            if got == n { *r == m.state(answers.len()).1 } else { m.list(answers.len()) is None && *r == m.state(answers.len() + 1).1 },
        decreases n - got, left,
    {
        let ghost k = answers.len();
        proof {
            draws_are_used_up(f, lmin as nat, lmax as nat, left as nat, *r);
        }
        match draw_asked(f, lmin, lmax, &mut left, r) {
            Some((l, truth)) => {
                let q = list_question(f, l.as_slice());
                let ghost asked = q;
                let answer = ask(q);
                proof {
                    assert(call_ensures(*ask, (asked,), answer));
                    assert(m.list(k) == Some(l@));
                    assert(answers_to(*ask, question_text(f, l@), answer));
                    earlier_answers(m, answers, answer, Seq::empty(), k);
                    let was = answers;
                    answers = answers.push(answer);
                    assert forall|i: int| 0 <= i < answers.len() implies m.may_answer(
                        *ask,
                        i as nat,
                        #[trigger] answers[i],
                    ) by {
                        if i < k {
                            assert(answers[i] == was[i]);
                        }
                    }
                }
                if let Some(v) = answer {
                    let ghost before = out@;
                    push_record(out, f, l.as_slice(), v, truth);
                    got += 1;
                    assert(out@ =~= text + m.records(answers, answers.len()));
                }
            },
            None => {
                assert(m.list(k) is None);
                break;
            },
        }
    }
    assert(is_dump(*ask, m, n as nat, answers.len(), answers, got as nat, text, out@, *r));
    got
}

/// The records of a dump are those of the answers, of which `n` are numbers, unless the draws ran out.
pub open spec fn is_dump<F: Fn(String) -> Option<i64>>(
    ask: F,
    m: BatteryModel,
    n: nat,
    k: nat,
    answers: Seq<Option<i64>>,
    got: nat,
    before: Seq<char>,
    after: Seq<char>,
    seed: u64,
) -> bool {
    &&& k == answers.len()
    &&& m.is_answered(ask, answers)
    &&& got == m.answered(answers, k)
    &&& got <= n
    &&& if got == n {
        (k > 0 ==> answers.last() is Some) && seed == m.state(k).1
    } else {
        m.list(k) is None && seed == m.state(k + 1).1
    }
    &&& after == before + m.records(answers, k)
}

/// The state of the stream when `i` lists were drawn.
pub open spec fn list_seed(lmin: nat, lmax: nat, seed: u64, i: nat) -> u64
    decreases i,
{
    if i == 0 {
        seed
    } else {
        list_from(lmin, lmax, list_seed(lmin, lmax, seed, (i - 1) as nat)).1
    }
}

/// The list with the number `i` among those drawn.
pub open spec fn drawn_list(lmin: nat, lmax: nat, seed: u64, i: nat) -> Seq<i64> {
    list_from(lmin, lmax, list_seed(lmin, lmax, seed, i)).0
}

/// Lists with the model's answers.
pub open spec fn pairs_view(v: Seq<(Vec<i64>, i64)>) -> Seq<(Seq<i64>, i64)> {
    v.map_values(|p: (Vec<i64>, i64)| (p.0@, p.1))
}

/// What was observed with the first `n` answers: each list with its answer, where that is a number.
pub open spec fn list_observations(lmin: nat, lmax: nat, seed: u64, answers: Seq<Option<i64>>, n: nat) -> Seq<(Seq<i64>, i64)>
    decreases n,
{
    if n == 0 {
        Seq::empty()
    } else {
        let rest = list_observations(lmin, lmax, seed, answers, (n - 1) as nat);
        match answers[n - 1] {
            Some(v) => rest.push((drawn_list(lmin, lmax, seed, (n - 1) as nat), v)),
            None => rest,
        }
    }
}

/// Observations with `n` answers that are numbers, or with all the draws there were.
pub open spec fn is_observed<F: Fn(String) -> Option<i64>>(
    ask: F,
    f: ListFn,
    lmin: nat,
    lmax: nat,
    seed: u64,
    n: nat,
    left: nat,
    k: nat,
    answers: Seq<Option<i64>>,
    seen: Seq<(Seq<i64>, i64)>,
    after: u64,
) -> bool {
    &&& k == answers.len()
    &&& k <= left
    &&& forall|i: int|
        0 <= i < k ==> answers_to(ask, question_text(f, drawn_list(lmin, lmax, seed, i as nat)), #[trigger] answers[i])
    &&& seen == list_observations(lmin, lmax, seed, answers, k)
    &&& seen.len() <= n
    &&& seen.len() == n || k == left
    &&& seen.len() == n && k > 0 ==> answers.last() is Some
    &&& after == list_seed(lmin, lmax, seed, k)
}

proof fn earlier_list_observations(lmin: nat, lmax: nat, seed: u64, answers: Seq<Option<i64>>, more: Option<i64>, n: nat)
    requires
        n <= answers.len(),
    ensures
        list_observations(lmin, lmax, seed, answers.push(more), n) == list_observations(lmin, lmax, seed, answers, n),
    decreases n,
{
    if n > 0 {
        earlier_list_observations(lmin, lmax, seed, answers, more, (n - 1) as nat);
        assert(answers.push(more)[n - 1] == answers[n - 1]);
    }
}

/// Observes what the model says when it is asked for a function: lists are drawn, in at most `left` draws, until `n` of
/// its answers are numbers. Lists on which the function has no single-digit value are asked about too.
pub fn observe_lists<F: Fn(String) -> Option<i64>>(
    ask: &F,
    f: ListFn,
    n: usize,
    lmin: usize,
    lmax: usize,
    left: usize,
    r: &mut u64,
) -> (seen: Vec<(Vec<i64>, i64)>)
    requires
        can_be_asked(*ask),
        lmin <= lmax < usize::MAX,
        9 * lmax <= i64::MAX,
    ensures
        exists|answers: Seq<Option<i64>>|
            is_observed(
                *ask,
                f,
                lmin as nat,
                lmax as nat,
                *old(r),
                n as nat,
                left as nat,
                #[trigger] answers.len(),
                answers,
                pairs_view(seen@),
                *final(r),
            ),
        forall|i: int| 0 <= i < seen@.len() ==> digit_list((#[trigger] seen@[i]).0@),
{
    let ghost seed = *r;
    let ghost mut answers: Seq<Option<i64>> = Seq::empty();
    let mut seen: Vec<(Vec<i64>, i64)> = Vec::new();
    let mut tries: usize = 0;
    assert(pairs_view(seen@) =~= Seq::empty());
    while seen.len() < n && tries < left
        invariant
            can_be_asked(*ask),
            lmin <= lmax < usize::MAX,
            9 * lmax <= i64::MAX,
            tries <= left,
            tries == answers.len(),
            *r == list_seed(lmin as nat, lmax as nat, seed, tries as nat),
            forall|i: int|
                0 <= i < tries ==> answers_to(
                    *ask,
                    question_text(f, drawn_list(lmin as nat, lmax as nat, seed, i as nat)),
                    #[trigger] answers[i],
                ),
            pairs_view(seen@) == list_observations(lmin as nat, lmax as nat, seed, answers, tries as nat),
            pairs_view(seen@).len() == seen@.len(),
            seen@.len() <= n,
            seen@.len() == n && tries > 0 ==> answers.last() is Some,
            forall|i: int| 0 <= i < seen@.len() ==> digit_list((#[trigger] seen@[i]).0@),
        decreases left - tries,
    {
        let l = draw_list(lmin, lmax, r);
        let q = list_question(f, l.as_slice());
        let ghost asked = q;
        let answer = ask(q);
        proof {
            assert(call_ensures(*ask, (asked,), answer));
            assert(l@ == drawn_list(lmin as nat, lmax as nat, seed, tries as nat));
            assert(answers_to(*ask, question_text(f, l@), answer));
            earlier_list_observations(lmin as nat, lmax as nat, seed, answers, answer, tries as nat);
            let was = answers;
            answers = answers.push(answer);
            assert forall|i: int| 0 <= i < tries + 1 implies answers_to(
                *ask,
                question_text(f, drawn_list(lmin as nat, lmax as nat, seed, i as nat)),
                #[trigger] answers[i],
            ) by {
                if i < tries {
                    assert(answers[i] == was[i]);
                }
            }
        }
        tries += 1;
        if let Some(v) = answer {
            let ghost before = pairs_view(seen@);
            let ghost pair = (l@, v);
            seen.push((l, v));
            assert(pairs_view(seen@) =~= before.push(pair));
        }
    }
    assert(is_observed(
        *ask,
        f,
        lmin as nat,
        lmax as nat,
        seed,
        n as nat,
        left as nat,
        answers.len(),
        answers,
        pairs_view(seen@),
        *r,
    ));
    seen
}

} // verus!
