//! A captured store as it is written: one JSON object with its tables, the bounds of induction, and nothing of a grammar.
use crate::capture::Captured;
use crate::retrieval::{default_min_accept, default_min_induction};
use serde_json::Value;
use vstd::prelude::*;

verus! {

/// A table as plain values: keys with their successors.
pub type PlainTable = Seq<(Seq<char>, Seq<i64>)>;

/// The text of a JSON object with these members: objects of lists, lists, and numbers.
pub uninterp spec fn object_text(
    tables: Seq<(Seq<char>, Seq<(Seq<char>, Seq<i64>)>)>,
    lists: Seq<(Seq<char>, Seq<i64>)>,
    numbers: Seq<(Seq<char>, u64)>,
) -> Seq<char>;

/// What a table holds.
pub open spec fn plain(t: Seq<(String, Vec<i64>)>) -> PlainTable {
    t.map_values(|e: (String, Vec<i64>)| (e.0@, e.1@))
}

/// What named tables hold.
pub open spec fn plain_tables(t: Seq<(&str, &Vec<(String, Vec<i64>)>)>) -> Seq<(Seq<char>, PlainTable)> {
    t.map_values(|e: (&str, &Vec<(String, Vec<i64>)>)| (e.0@, plain(e.1@)))
}

/// What named lists hold.
pub open spec fn plain_lists(t: Seq<(&str, &Vec<i64>)>) -> PlainTable {
    t.map_values(|e: (&str, &Vec<i64>)| (e.0@, e.1@))
}

/// What named numbers are.
pub open spec fn plain_numbers(t: Seq<(&str, u64)>) -> Seq<(Seq<char>, u64)> {
    t.map_values(|e: (&str, u64)| (e.0@, e.1))
}

/// Builds a `serde_json::Map` of the members and calls `serde_json::to_string` on it. Claimed is that the members decide
/// the text.
#[verifier::external_body]
fn write_object(
    tables: &[(&str, &Vec<(String, Vec<i64>)>)],
    lists: &[(&str, &Vec<i64>)],
    numbers: &[(&str, u64)],
) -> (s: String)
    ensures
        s@ == object_text(plain_tables(tables@), plain_lists(lists@), plain_numbers(numbers@)),
{
    let list = |v: &Vec<i64>| Value::from(v.clone());
    let mut root = serde_json::Map::new();
    for (k, t) in tables {
        let members: serde_json::Map<String, Value> = t.iter().map(|(k, v)| (k.clone(), list(v))).collect();
        root.insert(k.to_string(), Value::Object(members));
    }
    root.extend(lists.iter().map(|(k, v)| (k.to_string(), list(v))));
    root.extend(numbers.iter().map(|(k, n)| (k.to_string(), Value::from(*n))));
    serde_json::to_string(&Value::Object(root)).expect("integers and strings can be written")
}

/// The text of a captured store.
pub open spec fn store_text(c: Captured) -> Seq<char> {
    object_text(
        seq![
            ("quad"@, plain(c.quad@)),
            ("tri"@, plain(c.tri@)),
            ("bi"@, plain(c.bi@)),
            ("skel"@, Seq::empty()),
        ],
        seq![("uni"@, c.uni@), ("closed_ids"@, Seq::empty())],
        seq![("min_induction_match"@, 3u64), ("min_induction_accept"@, 2u64)],
    )
}

/// Writes a captured store.
pub fn captured_text(c: &Captured) -> (s: String)
    ensures
        s@ == store_text(*c),
{
    let no_table: Vec<(String, Vec<i64>)> = Vec::new();
    let no_list: Vec<i64> = Vec::new();
    let tables: [(&str, &Vec<(String, Vec<i64>)>); 4] = [
        ("quad", &c.quad),
        ("tri", &c.tri),
        ("bi", &c.bi),
        ("skel", &no_table),
    ];
    let lists: [(&str, &Vec<i64>); 2] = [("uni", &c.uni), ("closed_ids", &no_list)];
    let numbers: [(&str, u64); 2] = [
        ("min_induction_match", default_min_induction() as u64),
        ("min_induction_accept", default_min_accept() as u64),
    ];
    assert(plain(no_table@) =~= Seq::empty());
    assert(no_list@ =~= Seq::empty());
    assert(plain_tables(tables@) =~= seq![
        ("quad"@, plain(c.quad@)),
        ("tri"@, plain(c.tri@)),
        ("bi"@, plain(c.bi@)),
        ("skel"@, Seq::empty()),
    ]);
    assert(plain_lists(lists@) =~= seq![("uni"@, c.uni@), ("closed_ids"@, Seq::empty())]);
    assert(plain_numbers(numbers@) =~= seq![("min_induction_match"@, 3u64), ("min_induction_accept"@, 2u64)]);
    write_object(&tables, &lists, &numbers)
}

} // verus!
