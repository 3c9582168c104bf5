//! The manifest of an ablation battery: which circuits are knocked out together, and on which token streams. It is a
//! JSON object with the members `ctx`, `max_pos`, `evals` and `specs`; a token stream is one with `holdout_ids` or `ids`.
use serde_json::Value;
use vstd::prelude::*;

verus! {

/// Why a text is no JSON value.
pub uninterp spec fn json_fault(text: Seq<char>) -> Option<Seq<char>>;

/// The member of a JSON object that is an unsigned integer.
pub uninterp spec fn number_at(text: Seq<char>, key: Seq<char>) -> Option<u64>;

/// The items of a member that is an array, each as a signed integer if it is one.
pub uninterp spec fn id_list(text: Seq<char>, key: Seq<char>) -> Option<Seq<Option<i64>>>;

/// The names in a member that is an object.
pub uninterp spec fn names_at(text: Seq<char>, key: Seq<char>) -> Option<Seq<Seq<char>>>;

/// The text under a name in a member.
pub uninterp spec fn text_at(text: Seq<char>, key: Seq<char>, name: Seq<char>) -> Option<Seq<char>>;

/// The items of an array under a name and a part of it in a member, each with its own items, as unsigned integers, if
/// it is an array.
pub uninterp spec fn lists_at(text: Seq<char>, key: Seq<char>, name: Seq<char>, part: Seq<char>) -> Option<
    Seq<Option<Seq<Option<u64>>>>,
>;

/// What the strings spell.
pub open spec fn spelled(v: Seq<String>) -> Seq<Seq<char>> {
    v.map_values(|s: String| s@)
}

/// What the lists hold.
pub open spec fn held(v: Seq<Option<Vec<Option<u64>>>>) -> Seq<Option<Seq<Option<u64>>>> {
    v.map_values(
        |x: Option<Vec<Option<u64>>>|
            match x {
                Some(w) => Some(w@),
                None => None,
            },
    )
}

/// Calls `serde_json::from_str` for a `Value`, and `to_string` on its error. Claimed is that the text alone decides
/// whether it is JSON and how the error reads.
#[verifier::external_body]
fn fault_of(text: &str) -> (r: Option<String>)
    ensures
        match r {
            Some(e) => json_fault(text@) == Some(e@),
            None => json_fault(text@) is None,
        },
{
    serde_json::from_str::<Value>(text).err().map(|e| e.to_string())
}

/// Calls `serde_json::from_str` and `Value::as_u64` on the member. Claimed is that text and key decide the number.
#[verifier::external_body]
fn member_number(text: &str, key: &str) -> (r: Option<u64>)
    ensures
        r == number_at(text@, key@),
{
    serde_json::from_str::<Value>(text).ok()?[key].as_u64()
}

/// Calls `serde_json::from_str`, `Value::as_array` on the member and `Value::as_i64` on its items. Claimed is that text
/// and key decide the items.
#[verifier::external_body]
fn member_ids(text: &str, key: &str) -> (r: Option<Vec<Option<i64>>>)
    ensures
        match r {
            Some(v) => id_list(text@, key@) == Some(v@),
            None => id_list(text@, key@) is None,
        },
{
    let v: Value = serde_json::from_str(text).ok()?;
    Some(v[key].as_array()?.iter().map(|x| x.as_i64()).collect())
}

/// Calls `serde_json::from_str` and `Value::as_object` on the member. Claimed is that text and key decide the names and
/// their order.
#[verifier::external_body]
fn member_names(text: &str, key: &str) -> (r: Option<Vec<String>>)
    ensures
        match r {
            Some(v) => names_at(text@, key@) == Some(spelled(v@)),
            None => names_at(text@, key@) is None,
        },
{
    let v: Value = serde_json::from_str(text).ok()?;
    Some(v[key].as_object()?.keys().cloned().collect())
}

/// Calls `serde_json::from_str` and `Value::as_str` under the name. Claimed is that text, key and name decide the text.
#[verifier::external_body]
fn member_text(text: &str, key: &str, name: &str) -> (r: Option<String>)
    ensures
        match r {
            Some(s) => text_at(text@, key@, name@) == Some(s@),
            None => text_at(text@, key@, name@) is None,
        },
{
    let v: Value = serde_json::from_str(text).ok()?;
    Some(v[key][name].as_str()?.to_string())
}

/// Calls `serde_json::from_str`, `Value::as_array` on the array and on its items, and `Value::as_u64` on theirs. Claimed
/// is that text, key, name and part decide the items.
#[verifier::external_body]
fn member_lists(text: &str, key: &str, name: &str, part: &str) -> (r: Option<Vec<Option<Vec<Option<u64>>>>>)
    ensures
        match r {
            Some(v) => lists_at(text@, key@, name@, part@) == Some(held(v@)),
            None => lists_at(text@, key@, name@, part@) is None,
        },
{
    let v: Value = serde_json::from_str(text).ok()?;
    let items = v[key][name][part].as_array()?.iter();
    Some(items.map(|p| p.as_array().map(|a| a.iter().map(|x| x.as_u64()).collect())).collect())
}

/// Tells why a text is no JSON value, if it is none.
pub fn why_no_json(text: &str) -> (r: Option<String>)
    ensures
        match r {
            Some(e) => json_fault(text@) == Some(e@),
            None => json_fault(text@) is None,
        },
{
    fault_of(text)
}

/// How many tokens a context has when the manifest does not say.
pub const WINDOW: usize = 64;

/// How many tokens a context has.
pub open spec fn window_of(ctx: Option<u64>) -> usize {
    match ctx {
        Some(n) => n as usize,
        None => WINDOW,
    }
}

/// Reads how many tokens a context has.
pub fn window(text: &str) -> (n: usize)
    ensures
        n == window_of(number_at(text@, "ctx"@)),
{
    match member_number(text, "ctx") {
        Some(n) => n as usize,
        None => WINDOW,
    }
}

/// How many positions are taken at most.
pub open spec fn limit_of(max_pos: Option<u64>) -> Option<usize> {
    match max_pos {
        Some(n) => Some(n as usize),
        None => None,
    }
}

/// Reads how many positions are taken at most.
pub fn position_limit(text: &str) -> (r: Option<usize>)
    ensures
        r == limit_of(number_at(text@, "max_pos"@)),
{
    match member_number(text, "max_pos") {
        Some(n) => Some(n as usize),
        None => None,
    }
}

/// The integers of a list.
pub open spec fn integers(v: Seq<Option<i64>>) -> Seq<i64>
    decreases v.len(),
{
    if v.len() == 0 {
        Seq::empty()
    } else {
        match v.last() {
            Some(n) => integers(v.drop_last()).push(n),
            None => integers(v.drop_last()),
        }
    }
}

/// The tokens of a stream: those that are held out if there is such a list, else the others; only integers are kept.
pub open spec fn kept_ids(holdout: Option<Seq<Option<i64>>>, ids: Option<Seq<Option<i64>>>) -> Seq<i64> {
    match holdout {
        Some(v) => integers(v),
        None => match ids {
            Some(v) => integers(v),
            None => Seq::empty(),
        },
    }
}

/// Keeps the integers of a list.
pub fn keep_integers(v: &[Option<i64>]) -> (r: Vec<i64>)
    ensures
        r@ == integers(v@),
{
    let mut r: Vec<i64> = Vec::new();
    assert(v@.take(0) =~= Seq::empty());
    for i in 0..v.len()
        invariant
            r@ == integers(v@.take(i as int)),
    {
        assert(v@.take(i + 1).drop_last() =~= v@.take(i as int));
        assert(v@.take(i + 1).last() == v@[i as int]);
        if let Some(n) = v[i] {
            r.push(n);
        }
    }
    assert(v@.take(v@.len() as int) =~= v@);
    r
}

/// Reads the tokens of a stream.
pub fn eval_ids(text: &str) -> (ids: Vec<i64>)
    ensures
        ids@ == kept_ids(id_list(text@, "holdout_ids"@), id_list(text@, "ids"@)),
{
    match member_ids(text, "holdout_ids") {
        Some(v) => keep_integers(v.as_slice()),
        None => match member_ids(text, "ids") {
            Some(v) => keep_integers(v.as_slice()),
            None => Vec::new(),
        },
    }
}

/// The positions that are predicted, from the first to the one behind the last: each has a whole window before it, and
/// there are no more than wanted. None where the stream is no longer than a window.
pub open spec fn positions_of(ids: nat, window: nat, max_pos: Option<usize>) -> Option<(usize, usize)> {
    if ids <= window {
        None
    } else {
        match max_pos {
            Some(m) => Some((window as usize, (if window + m < ids { (window + m) as nat } else { ids }) as usize)),
            None => Some((window as usize, ids as usize)),
        }
    }
}

/// Tells which positions of a stream are predicted.
pub fn eval_positions(ids: usize, window: usize, max_pos: Option<usize>) -> (r: Option<(usize, usize)>)
    ensures
        r == positions_of(ids as nat, window as nat, max_pos),
{
    if ids <= window {
        return None;
    }
    let last: usize = match max_pos {
        Some(m) => if m < ids - window { window + m } else { ids },
        None => ids,
    };
    Some((window, last))
}

/// Every position that is predicted has a token and a whole window before it, and no more are predicted than wanted.
pub proof fn positions_have_windows(ids: nat, window: nat, max_pos: Option<usize>)
    requires
        ids <= usize::MAX,
    ensures
        positions_of(ids, window, max_pos) matches Some((first, last)) ==> {
            &&& first == window
            &&& first <= last <= ids
            &&& max_pos matches Some(m) ==> last - first <= m
            &&& max_pos is None ==> last == ids
        },
{
}

/// A pair of a list: its first two items, if both are unsigned integers.
pub open spec fn pair_of(item: Option<Seq<Option<u64>>>) -> Option<(usize, usize)> {
    match item {
        Some(p) => if p.len() >= 2 {
            match (p[0], p[1]) {
                (Some(a), Some(b)) => Some((a as usize, b as usize)),
                _ => None,
            }
        } else {
            None
        },
        None => None,
    }
}

/// The pairs of a list; what is none is dropped.
pub open spec fn pairs_in(v: Seq<Option<Seq<Option<u64>>>>) -> Seq<(usize, usize)>
    decreases v.len(),
{
    if v.len() == 0 {
        Seq::empty()
    } else {
        match pair_of(v.last()) {
            Some(p) => pairs_in(v.drop_last()).push(p),
            None => pairs_in(v.drop_last()),
        }
    }
}

/// The pairs of a list, none where there is no list.
pub open spec fn kept_pairs(v: Option<Seq<Option<Seq<Option<u64>>>>>) -> Seq<(usize, usize)> {
    match v {
        Some(v) => pairs_in(v),
        None => Seq::empty(),
    }
}

fn read_pair(item: &Option<Vec<Option<u64>>>) -> (r: Option<(usize, usize)>)
    ensures
        r == pair_of(
            match *item {
                Some(w) => Some(w@),
                None => None,
            },
        ),
{
    match item {
        Some(p) => if p.len() >= 2 {
            match (p[0], p[1]) {
                (Some(a), Some(b)) => Some((a as usize, b as usize)),
                _ => None,
            }
        } else {
            None
        },
        None => None,
    }
}

/// Keeps the pairs of a list.
pub fn keep_pairs(v: &[Option<Vec<Option<u64>>>]) -> (r: Vec<(usize, usize)>)
    ensures
        r@ == pairs_in(held(v@)),
{
    let mut r: Vec<(usize, usize)> = Vec::new();
    let ghost all = held(v@);
    assert(all.take(0) =~= Seq::empty());
    for i in 0..v.len()
        invariant
            all == held(v@),
            r@ == pairs_in(all.take(i as int)),
    {
        assert(all.take(i + 1).drop_last() =~= all.take(i as int));
        assert(all.take(i + 1).last() == all[i as int]);
        if let Some(p) = read_pair(&v[i]) {
            r.push(p);
        }
    }
    assert(all.take(v@.len() as int) =~= all);
    r
}

fn pairs_under(text: &str, name: &str, part: &str) -> (r: Vec<(usize, usize)>)
    ensures
        r@ == kept_pairs(lists_at(text@, "specs"@, name@, part@)),
{
    match member_lists(text, "specs", name, part) {
        Some(v) => keep_pairs(v.as_slice()),
        None => Vec::new(),
    }
}

/// Circuits that are knocked out together, by layer and index, under a name.
pub struct Knockout {
    pub name: String,
    pub heads: Vec<(usize, usize)>,
    pub neurons: Vec<(usize, usize)>,
}

/// What the manifest gives under a name.
pub open spec fn is_knockout(k: Knockout, text: Seq<char>, name: Seq<char>) -> bool {
    &&& k.name@ == name
    &&& k.heads@ == kept_pairs(lists_at(text, "specs"@, name, "heads"@))
    &&& k.neurons@ == kept_pairs(lists_at(text, "specs"@, name, "neurons"@))
}

/// The names of a member, none where it is no object.
pub open spec fn names_or_none(names: Option<Seq<Seq<char>>>) -> Seq<Seq<char>> {
    match names {
        Some(v) => v,
        None => Seq::empty(),
    }
}

fn names(text: &str, key: &str) -> (v: Vec<String>)
    ensures
        spelled(v@) == names_or_none(names_at(text@, key@)),
{
    match member_names(text, key) {
        Some(v) => v,
        None => {
            let v: Vec<String> = Vec::new();
            assert(spelled(v@) =~= Seq::empty());
            v
        },
    }
}

fn same_text(s: &str) -> (r: String)
    ensures
        r@ == s@,
{
    let mut r = String::new();
    r.append(s);
    assert(r@ =~= s@);
    r
}

/// Reads what is knocked out, name by name.
pub fn knockouts(text: &str) -> (v: Vec<Knockout>)
    ensures
        v@.len() == names_or_none(names_at(text@, "specs"@)).len(),
        forall|i: int|
            0 <= i < v@.len() ==> is_knockout(
                #[trigger] v@[i],
                text@,
                names_or_none(names_at(text@, "specs"@))[i],
            ),
{
    let all = names(text, "specs");
    let mut v: Vec<Knockout> = Vec::new();
    for i in 0..all.len()
        invariant
            spelled(all@) == names_or_none(names_at(text@, "specs"@)),
            v@.len() == i,
            forall|k: int|
                0 <= k < i ==> is_knockout(#[trigger] v@[k], text@, names_or_none(names_at(text@, "specs"@))[k]),
    {
        let name = all[i].as_str();
        assert(spelled(all@)[i as int] == name@);
        v.push(
            Knockout {
                name: same_text(name),
                heads: pairs_under(text, name, "heads"),
                neurons: pairs_under(text, name, "neurons"),
            },
        );
    }
    v
}

/// The path of a stream, empty where the manifest gives no text.
pub open spec fn path_or_empty(path: Option<Seq<char>>) -> Seq<char> {
    match path {
        Some(p) => p,
        None => Seq::empty(),
    }
}

/// Reads the streams: their names and their paths.
pub fn eval_files(text: &str) -> (v: Vec<(String, String)>)
    ensures
        v@.len() == names_or_none(names_at(text@, "evals"@)).len(),
        forall|i: int|
            0 <= i < v@.len() ==> {
                let name = names_or_none(names_at(text@, "evals"@))[i];
                (#[trigger] v@[i]).0@ == name && v@[i].1@ == path_or_empty(text_at(text@, "evals"@, name))
            },
{
    let all = names(text, "evals");
    let mut v: Vec<(String, String)> = Vec::new();
    for i in 0..all.len()
        invariant
            spelled(all@) == names_or_none(names_at(text@, "evals"@)),
            v@.len() == i,
            forall|k: int|
                0 <= k < i ==> {
                    let name = names_or_none(names_at(text@, "evals"@))[k];
                    (#[trigger] v@[k]).0@ == name && v@[k].1@ == path_or_empty(text_at(text@, "evals"@, name))
                },
    {
        let name = all[i].as_str();
        assert(spelled(all@)[i as int] == name@);
        let path = match member_text(text, "evals", name) {
            Some(p) => p,
            None => {
                let none = String::new();
                assert(none@ =~= Seq::empty());
                none
            },
        };
        v.push((same_text(name), path));
    }
    v
}

} // verus!
