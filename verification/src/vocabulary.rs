//! The labels of tokens, from a vocabulary that gives each token its number.
use crate::runs::{readable_token, shown};
use crate::text::{int_text, push_i64};
use std::collections::HashMap;
use vstd::prelude::*;

verus! {

broadcast use vstd::std_specs::hash::group_hash_axioms;

/// The vocabulary that a text is: a JSON object whose members are all 64-bit integers.
pub uninterp spec fn vocabulary(text: Seq<char>) -> Option<Map<Seq<char>, i64>>;

/// A text between quotation marks, with what cannot be printed escaped.
pub uninterp spec fn quoted(s: Seq<char>) -> Seq<char>;

/// The members as a map; of two with one name the later counts.
pub open spec fn entries(v: Seq<(String, i64)>) -> Map<Seq<char>, i64>
    decreases v.len(),
{
    if v.len() == 0 {
        Map::empty()
    } else {
        entries(v.drop_last()).insert(v.last().0@, v.last().1)
    }
}

/// No token stands twice.
pub open spec fn distinct_tokens(v: Seq<(String, i64)>) -> bool {
    forall|i: int, j: int| 0 <= i < j < v.len() ==> (#[trigger] v[i]).0@ != (#[trigger] v[j]).0@
}

/// Calls `serde_json::from_str` for a `HashMap<String, i64>`. Claimed is that the text alone decides whether it is such
/// an object and what its members are, and that each name comes once. The order of the members is left open: a hash map
/// hands them out in any.
#[verifier::external_body]
fn members(text: &str) -> (r: Option<Vec<(String, i64)>>)
    ensures
        match r {
            Some(v) => vocabulary(text@) == Some(entries(v@)) && distinct_tokens(v@),
            None => vocabulary(text@) is None,
        },
{
    let map: HashMap<String, i64> = serde_json::from_str(text).ok()?;
    Some(map.into_iter().collect())
}

/// Reads a vocabulary: its tokens, each once, with their numbers; none where the text is no vocabulary.
pub fn parse_vocabulary(text: &str) -> (r: Option<Vec<(String, i64)>>)
    ensures
        match r {
            Some(v) => vocabulary(text@) == Some(entries(v@)) && distinct_tokens(v@),
            None => vocabulary(text@) is None,
        },
{
    members(text)
}

/// Formats a text with `{:?}`, as the `Debug` of `str` does. Claimed is that the text alone decides the result.
#[verifier::external_body]
fn quote(s: &str) -> (q: String)
    ensures
        q@ == quoted(s@),
{
    format!("{:?}", s)
}

/// The tokens by their numbers; of two tokens with one number the later counts.
pub open spec fn by_number(v: Seq<(String, i64)>) -> Map<i64, Seq<char>>
    decreases v.len(),
{
    if v.len() == 0 {
        Map::empty()
    } else {
        by_number(v.drop_last()).insert(v.last().1, v.last().0@)
    }
}

/// The tokens of a vocabulary, found by their numbers.
pub struct Labels {
    tokens: HashMap<i64, String>,
}

impl View for Labels {
    type V = Map<i64, Seq<char>>;

    closed spec fn view(&self) -> Map<i64, Seq<char>> {
        self.tokens@.map_values(|s: String| s@)
    }
}

/// The label of a token: its text as it is shown, between quotation marks, and its number; the number alone where the
/// vocabulary has none.
pub open spec fn label_text(tokens: Map<i64, Seq<char>>, id: i64) -> Seq<char> {
    if tokens.contains_key(id) {
        quoted(shown(tokens[id])) + " ["@ + int_text(id as int) + "]"@
    } else {
        "["@ + int_text(id as int) + "]"@
    }
}

impl Labels {
    pub fn new(vocab: Vec<(String, i64)>) -> (l: Labels)
        ensures
            l@ == by_number(vocab@),
    {
        let ghost all = vocab@;
        let mut tokens: HashMap<i64, String> = HashMap::new();
        assert(tokens@.map_values(|s: String| s@) =~= by_number(all.take(0)));
        for e in it: vocab
            invariant
                it.seq() == all,
                tokens@.map_values(|s: String| s@) == by_number(all.take(it.index() as int)),
        {
            let ghost before = tokens@;
            assert(all.take(it.index() + 1).drop_last() =~= all.take(it.index() as int));
            let (token, id) = e;
            tokens.insert(id, token);
            assert(tokens@.map_values(|s: String| s@) =~= before.map_values(|s: String| s@).insert(id, token@));
        }
        assert(all.take(all.len() as int) =~= all);
        Labels { tokens }
    }

    /// The label of a token, ready to be printed.
    pub fn label(&self, id: i64) -> (s: String)
        ensures
            s@ == label_text(self@, id),
    {
        let mut s = match self.tokens.get(&id) {
            Some(token) => {
                let mut s = quote(readable_token(token.as_str()).as_str());
                s.append(" [");
                s
            },
            None => {
                let mut s = String::new();
                s.append("[");
                assert(s@ =~= "["@);
                s
            },
        };
        push_i64(&mut s, id);
        s.append("]");
        assert(s@ =~= label_text(self@, id));
        s
    }
}

/// Labels are read from a text: those of its vocabulary, in some order of the tokens, and none where it is no
/// vocabulary.
pub open spec fn are_labels_in(tokens: Map<i64, Seq<char>>, text: Seq<char>) -> bool {
    match vocabulary(text) {
        Some(m) => exists|v: Seq<(String, i64)>|
            #[trigger] by_number(v) == tokens && entries(v) == m && distinct_tokens(v),
        None => tokens == Map::<i64, Seq<char>>::empty(),
    }
}

/// Reads the labels of a vocabulary.
pub fn read_labels(text: &str) -> (l: Labels)
    ensures
        are_labels_in(l@, text@),
{
    match parse_vocabulary(text) {
        Some(v) => {
            let ghost all = v@;
            let l = Labels::new(v);
            assert(by_number(all) == l@);
            l
        },
        None => {
            let none: Vec<(String, i64)> = Vec::new();
            Labels::new(none)
        },
    }
}

proof fn numbers_are_held(v: Seq<(String, i64)>, id: i64)
    ensures
        by_number(v).contains_key(id) ==> exists|i: int|
            0 <= i < v.len() && (#[trigger] v[i]).1 == id && v[i].0@ == by_number(v)[id],
        forall|i: int| 0 <= i < v.len() ==> by_number(v).contains_key((#[trigger] v[i]).1),
    decreases v.len(),
{
    if v.len() > 0 {
        let head = v.drop_last();
        numbers_are_held(head, id);
        if by_number(v).contains_key(id) {
            if id == v.last().1 {
                assert(v[v.len() - 1].1 == id);
            } else {
                let i = choose|i: int|
                    0 <= i < head.len() && (#[trigger] head[i]).1 == id && head[i].0@ == by_number(head)[id];
                assert(v[i].1 == id);
            }
        }
        assert forall|i: int| 0 <= i < v.len() implies by_number(v).contains_key((#[trigger] v[i]).1) by {
            if i < head.len() {
                assert(head[i] == v[i]);
            }
        }
    }
}

proof fn members_are_entries(v: Seq<(String, i64)>, i: int)
    requires
        distinct_tokens(v),
        0 <= i < v.len(),
    ensures
        entries(v).contains_key(v[i].0@),
        entries(v)[v[i].0@] == v[i].1,
    decreases v.len(),
{
    if i < v.len() - 1 {
        let head = v.drop_last();
        assert(head[i] == v[i]);
        members_are_entries(head, i);
        assert(v[i].0@ != v[v.len() - 1].0@);
    }
}

proof fn entries_are_members(v: Seq<(String, i64)>, token: Seq<char>)
    requires
        entries(v).contains_key(token),
    ensures
        exists|i: int| 0 <= i < v.len() && (#[trigger] v[i]).0@ == token && v[i].1 == entries(v)[token],
    decreases v.len(),
{
    let head = v.drop_last();
    if token == v.last().0@ {
        assert(v[v.len() - 1].0@ == token);
    } else {
        entries_are_members(head, token);
        let i = choose|i: int| 0 <= i < head.len() && (#[trigger] head[i]).0@ == token && head[i].1 == entries(head)[token];
        assert(v[i].0@ == token);
    }
}

/// A number is labelled with a token that the vocabulary gives that number, and every number of the vocabulary is
/// labelled.
pub proof fn labels_invert_the_vocabulary(tokens: Map<i64, Seq<char>>, text: Seq<char>, id: i64, token: Seq<char>)
    requires
        are_labels_in(tokens, text),
    ensures
        tokens.contains_key(id) ==> (vocabulary(text) matches Some(m) && m.contains_key(tokens[id]) && m[tokens[id]]
            == id),
        vocabulary(text) matches Some(m) ==> m.contains_key(token) ==> tokens.contains_key(m[token]),
{
    if let Some(m) = vocabulary(text) {
        let v = choose|v: Seq<(String, i64)>|
            #[trigger] by_number(v) == tokens && entries(v) == m && distinct_tokens(v);
        numbers_are_held(v, id);
        if tokens.contains_key(id) {
            let i = choose|i: int| 0 <= i < v.len() && (#[trigger] v[i]).1 == id && v[i].0@ == by_number(v)[id];
            members_are_entries(v, i);
        }
        if m.contains_key(token) {
            entries_are_members(v, token);
        }
    }
}

} // verus!
