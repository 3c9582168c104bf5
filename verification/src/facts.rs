//! Emitted programs read back: the candidates and contributions of a program, single or step by step, and which
//! decisions they make up.
use vstd::prelude::*;
use crate::text::{i64_value, parse_i64, position, string_of, trim, white_prefix, white_suffix};
use crate::words::{fields, fields_of, find_char, has_prefix, lines, lines_of, piece, spelled, starts_with};

verus! {

/// A fact as it is read: a candidate, or a contribution of a block with the text of its weight. The token is
/// missing where it is no number, and `indexed` says whether the fact names its step.
pub enum Fact {
    Candidate(FactKey),
    Contrib(FactKey, String, String),
}

#[derive(Clone, Copy, PartialEq, Eq, Structural)]
pub struct FactKey {
    pub step: i64,
    pub token: Option<i64>,
    pub indexed: bool,
}

/// What a fact says: its key, and for a contribution the block and the weight.
pub struct FactModel {
    pub key: FactKey,
    pub weight: Option<(Seq<char>, Seq<char>)>,
}

pub open spec fn fact_model(f: Fact) -> FactModel {
    match f {
        Fact::Candidate(key) => FactModel { key, weight: None },
        Fact::Contrib(key, block, w) => FactModel { key, weight: Some((block@, w@)) },
    }
}

/// The arguments of a fact: what stands before the first closing bracket, taken apart at the commas and trimmed.
pub open spec fn arguments(rest: Seq<char>) -> Seq<Seq<char>> {
    let inner = match position(rest, ')') {
        Some(i) => rest.take(i),
        None => rest,
    };
    fields_of(inner, ',').map_values(|f: Seq<char>| trim(f))
}

/// The number of a step; what is no number is step zero.
pub open spec fn step_value(s: Seq<char>) -> i64 {
    match i64_value(s) {
        Some(v) => v,
        None => 0,
    }
}

/// A text without the quotes around it.
pub open spec fn quotes_before(s: Seq<char>) -> Seq<char>
    decreases s.len(),
{
    if s.len() > 0 && s[0] == '"' { quotes_before(s.skip(1)) } else { s }
}

pub open spec fn quotes_behind(s: Seq<char>) -> Seq<char>
    decreases s.len(),
{
    if s.len() > 0 && s.last() == '"' { quotes_behind(s.drop_last()) } else { s }
}

pub open spec fn unquoted(s: Seq<char>) -> Seq<char> {
    quotes_behind(quotes_before(s))
}

/// A candidate has a token, or a step and a token; further arguments are passed over.
pub open spec fn candidate_key(a: Seq<Seq<char>>) -> FactKey {
    if a.len() == 1 {
        FactKey { step: 0, token: i64_value(a[0]), indexed: false }
    } else {
        FactKey { step: step_value(a[0]), token: i64_value(a[1]), indexed: true }
    }
}

/// The fact of a line, if it is one.
pub open spec fn fact_of(line: Seq<char>) -> Option<FactModel> {
    let l = trim(line);
    if has_prefix(l, "candidate("@) {
        Some(FactModel { key: candidate_key(arguments(l.skip("candidate("@.len() as int))), weight: None })
    } else if has_prefix(l, "contrib("@) {
        let a = arguments(l.skip("contrib("@.len() as int));
        if a.len() == 3 {
            Some(
                FactModel {
                    key: FactKey { step: 0, token: i64_value(a[1]), indexed: false },
                    weight: Some((unquoted(a[0]), a[2])),
                },
            )
        } else if a.len() == 4 {
            Some(
                FactModel {
                    key: FactKey { step: step_value(a[0]), token: i64_value(a[2]), indexed: true },
                    weight: Some((unquoted(a[1]), a[3])),
                },
            )
        } else {
            None
        }
    } else {
        None
    }
}

fn trimmed(s: &[char]) -> (v: Vec<char>)
    ensures
        v@ == trim(s@),
{
    let from: usize = white_prefix(s);
    let tail = vstd::slice::slice_subrange(s, from, s.len());
    assert(tail@ =~= crate::text::trim_start(s@));
    let to: usize = white_suffix(tail);
    let v = piece(tail, 0, to);
    assert(v@ =~= tail@.take(to as int));
    v
}

fn read_arguments(rest: &[char]) -> (v: Vec<Vec<char>>)
    ensures
        spelled(v@) == arguments(rest@),
        v@.len() > 0,
{
    let end: usize = match find_char(rest, ')') {
        Some(i) => i,
        None => rest.len(),
    };
    let inner = piece(rest, 0, end);
    assert(inner@ =~= match position(rest@, ')') {
        Some(i) => rest@.take(i),
        None => rest@,
    });
    let raw = fields(inner.as_slice(), ',');
    let mut v: Vec<Vec<char>> = Vec::new();
    for i in 0..raw.len()
        invariant
            v@.len() == i,
            forall|k: int| 0 <= k < i ==> (#[trigger] v@[k])@ == trim(raw@[k]@),
    {
        v.push(trimmed(raw[i].as_slice()));
    }
    proof {
        let parts = fields_of(inner@, ',');
        assert(spelled(raw@) == parts);
        assert forall|k: int| 0 <= k < v@.len() implies spelled(v@)[k] == arguments(rest@)[k] by {
            assert(spelled(raw@)[k] == raw@[k]@);
            assert(v@[k]@ == trim(raw@[k]@));
        }
        assert(spelled(v@) =~= arguments(rest@));
    }
    v
}

fn number(s: &[char]) -> (r: Option<i64>)
    ensures
        r == i64_value(s@),
{
    parse_i64(string_of(s).as_str())
}

fn step_number(s: &[char]) -> (n: i64)
    ensures
        n == step_value(s@),
{
    match number(s) {
        Some(v) => v,
        None => 0,
    }
}

fn unquote(s: &[char]) -> (r: String)
    ensures
        r@ == unquoted(s@),
{
    let n: usize = s.len();
    let mut from: usize = 0;
    assert(s@.skip(0) =~= s@);
    while from < n && s[from] == '"'
        invariant
            n == s@.len(),
            from <= n,
            quotes_before(s@) == quotes_before(s@.skip(from as int)),
        decreases n - from,
    {
        assert(s@.skip(from as int).skip(1) =~= s@.skip(from + 1));
        from += 1;
    }
    let ghost t = s@.skip(from as int);
    assert(quotes_before(s@) == t);
    let mut to: usize = n;
    assert(s@.subrange(from as int, n as int) =~= t);
    while to > from && s[to - 1] == '"'
        invariant
            n == s@.len(),
            from <= to <= n,
            quotes_behind(t) == quotes_behind(s@.subrange(from as int, to as int)),
        decreases to - from,
    {
        assert(s@.subrange(from as int, to as int).drop_last() =~= s@.subrange(from as int, to - 1));
        to -= 1;
    }
    let v = piece(s, from, to);
    assert(quotes_behind(v@) == v@);
    string_of(v.as_slice())
}

/// Reads the fact of a line.
pub fn read_fact(line: &[char]) -> (r: Option<Fact>)
    ensures
        match r {
            Some(f) => fact_of(line@) == Some(fact_model(f)),
            None => fact_of(line@) is None,
        },
{
    let l = trimmed(line);
    proof {
        reveal_strlit("candidate(");
        reveal_strlit("contrib(");
    }
    if starts_with(l.as_slice(), "candidate(") {
        let rest = vstd::slice::slice_subrange(l.as_slice(), 10, l.len());
        assert(rest@ =~= l@.skip(10));
        let a = read_arguments(rest);
        let ghost args = arguments(rest@);
        assert(spelled(a@)[0] == a@[0]@);
        let key = if a.len() == 1 {
            FactKey { step: 0, token: number(a[0].as_slice()), indexed: false }
        } else {
            assert(spelled(a@)[1] == a@[1]@);
            FactKey { step: step_number(a[0].as_slice()), token: number(a[1].as_slice()), indexed: true }
        };
        Some(Fact::Candidate(key))
    } else if starts_with(l.as_slice(), "contrib(") {
        let rest = vstd::slice::slice_subrange(l.as_slice(), 8, l.len());
        assert(rest@ =~= l@.skip(8));
        let a = read_arguments(rest);
        assert(a@.len() == arguments(rest@).len());
        assert forall|k: int| 0 <= k < a@.len() implies (#[trigger] a@[k])@ == arguments(rest@)[k] by {
            assert(spelled(a@)[k] == a@[k]@);
        }
        if a.len() == 3 {
            let key = FactKey { step: 0, token: number(a[1].as_slice()), indexed: false };
            Some(Fact::Contrib(key, unquote(a[0].as_slice()), string_of(a[2].as_slice())))
        } else if a.len() == 4 {
            let key = FactKey { step: step_number(a[0].as_slice()), token: number(a[2].as_slice()), indexed: true };
            Some(Fact::Contrib(key, unquote(a[1].as_slice()), string_of(a[3].as_slice())))
        } else {
            None
        }
    } else {
        None
    }
}

/// The facts among the first `n` lines.
pub open spec fn facts_of(ls: Seq<Seq<char>>, n: nat) -> Seq<FactModel>
    decreases n,
{
    if n == 0 {
        Seq::empty()
    } else {
        let rest = facts_of(ls, (n - 1) as nat);
        match fact_of(ls[n - 1]) {
            Some(f) => rest.push(f),
            None => rest,
        }
    }
}

pub open spec fn fact_models(v: Seq<Fact>) -> Seq<FactModel> {
    v.map_values(|f: Fact| fact_model(f))
}

/// Reads the facts of a program.
pub fn read_facts(program: &str) -> (v: Vec<Fact>)
    ensures
        fact_models(v@) == facts_of(lines_of(program@), lines_of(program@).len()),
{
    let ls = lines(program);
    let ghost texts = spelled(ls@);
    let mut v: Vec<Fact> = Vec::new();
    assert(fact_models(v@) =~= Seq::empty());
    for i in 0..ls.len()
        invariant
            texts == spelled(ls@),
            fact_models(v@) == facts_of(texts, i as nat),
    {
        let ghost was = fact_models(v@);
        assert(texts[i as int] == ls@[i as int]@);
        if let Some(f) = read_fact(ls[i].as_slice()) {
            let ghost m = fact_model(f);
            v.push(f);
            assert(fact_models(v@) =~= was.push(m));
        }
    }
    v
}

/// The keys in the order in which they are first seen.
pub open spec fn first_seen(keys: Seq<(i64, i64)>) -> Seq<(i64, i64)>
    decreases keys.len(),
{
    if keys.len() == 0 {
        Seq::empty()
    } else {
        let rest = first_seen(keys.drop_last());
        if rest.contains(keys.last()) { rest } else { rest.push(keys.last()) }
    }
}

fn has_key(v: &[(i64, i64)], key: (i64, i64)) -> (r: bool)
    ensures
        r == v@.contains(key),
{
    for i in 0..v.len()
        invariant
            forall|k: int| 0 <= k < i ==> v@[k] != key,
    {
        if v[i].0 == key.0 && v[i].1 == key.1 {
            assert(v@[i as int] == key);
            return true;
        }
    }
    false
}

/// The decisions that are to be made: each pair of step and token once, in the order in which they come.
pub fn decision_keys(keys: &[(i64, i64)]) -> (v: Vec<(i64, i64)>)
    ensures
        v@ == first_seen(keys@),
{
    let mut v: Vec<(i64, i64)> = Vec::new();
    for i in 0..keys.len()
        invariant
            v@ == first_seen(keys@.take(i as int)),
    {
        assert(keys@.take(i + 1).drop_last() =~= keys@.take(i as int));
        if !has_key(v.as_slice(), keys[i]) {
            v.push(keys[i]);
        }
    }
    assert(keys@.take(keys.len() as int) =~= keys@);
    v
}

/// The tokens of a step, in order.
pub open spec fn tokens_of(order: Seq<(i64, i64)>, step: i64) -> Seq<i64>
    decreases order.len(),
{
    if order.len() == 0 {
        Seq::empty()
    } else {
        let rest = tokens_of(order.drop_last(), step);
        if order.last().0 == step { rest.push(order.last().1) } else { rest }
    }
}

pub fn step_tokens(order: &[(i64, i64)], step: i64) -> (v: Vec<i64>)
    ensures
        v@ == tokens_of(order@, step),
{
    let mut v: Vec<i64> = Vec::new();
    for i in 0..order.len()
        invariant
            v@ == tokens_of(order@.take(i as int), step),
    {
        assert(order@.take(i + 1).drop_last() =~= order@.take(i as int));
        if order[i].0 == step {
            v.push(order[i].1);
        }
    }
    assert(order@.take(order.len() as int) =~= order@);
    v
}

/// The steps that there are, in order and without repetition.
pub open spec fn steps_in(order: Seq<(i64, i64)>) -> Seq<i64> {
    crate::recursion_dl::sorted_distinct(order.map_values(|k: (i64, i64)| k.0))
}

pub fn trace_steps(order: &[(i64, i64)]) -> (v: Vec<i64>)
    ensures
        v@ == steps_in(order@),
{
    let mut s: Vec<i64> = Vec::new();
    for i in 0..order.len()
        invariant
            s@ == order@.map_values(|k: (i64, i64)| k.0).take(i as int),
    {
        s.push(order[i].0);
        assert(s@ =~= order@.map_values(|k: (i64, i64)| k.0).take(i + 1));
    }
    assert(s@ =~= order@.map_values(|k: (i64, i64)| k.0));
    crate::recursion_dl::distinct_literals(s.as_slice())
}

/// Each decision is made once: no key comes twice, and every key that is read is decided.
pub proof fn decisions_are_distinct(keys: Seq<(i64, i64)>)
    ensures
        first_seen(keys).no_duplicates(),
        forall|k: (i64, i64)| #[trigger] first_seen(keys).contains(k) == keys.contains(k),
    decreases keys.len(),
{
    if keys.len() > 0 {
        let init = keys.drop_last();
        let (rest, all) = (first_seen(init), first_seen(keys));
        decisions_are_distinct(init);
        assert forall|k: (i64, i64)| #[trigger] all.contains(k) == keys.contains(k) by {
            assert(rest.contains(k) == init.contains(k));
            if rest.contains(k) {
                let i = choose|i: int| 0 <= i < rest.len() && rest[i] == k;
                assert(all[i] == k);
            }
            if init.contains(k) {
                let i = choose|i: int| 0 <= i < init.len() && init[i] == k;
                assert(keys[i] == k);
            }
            if keys.contains(k) {
                let i = choose|i: int| 0 <= i < keys.len() && keys[i] == k;
                if i < init.len() {
                    assert(init[i] == k);
                } else if !rest.contains(k) {
                    assert(all[all.len() - 1] == k);
                }
            }
            if all.contains(k) && !rest.contains(k) {
                assert(keys[keys.len() - 1] == k);
            }
        }
    }
}

} // verus!
