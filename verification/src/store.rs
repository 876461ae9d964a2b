//! The stored form of the usage table: a JSON object from identifier to
//! count, written and read by `serde_json`.

use crate::failure::Failure;
use crate::table::{
    distinct_names, entries_map, find_entry, lemma_entry_in_map, lemma_key_has_entry, Entry,
    UsageTable,
};
use std::collections::BTreeMap;
use std::collections::HashMap;
use vstd::prelude::*;

verus! {

#[verifier::external_type_specification]
#[verifier::external_body]
pub struct ExJsonError(serde_json::Error);

/// The table that `serde_json::from_str` reads from a text as a map from
/// string to `i32`, or `None` where it reads none.
pub uninterp spec fn parsed_table(text: Seq<char>) -> Option<Map<Seq<char>, int>>;

/// The text that `serde_json::to_string` writes for a `BTreeMap` from `&str`
/// to `i32` that holds this mapping.
pub uninterp spec fn document_of(table: Map<Seq<char>, int>) -> Seq<char>;

/// Reads a JSON text as entries.
///
/// Trusted: what `serde_json::from_str` returns for `HashMap<String, i32>`
/// depends on the text alone, and [`parsed_table`] is the name of the mapping
/// it holds, with `None` for an error. The keys of a `HashMap` differ from
/// each other, so no two of the entries made of it have one name. The order
/// of the entries is left open.
#[verifier::external_body]
fn json_from_str(text: &str) -> (r: Result<Vec<Entry>, serde_json::Error>)
    ensures
        match r {
            Ok(entries) => distinct_names(entries@) && parsed_table(text@) == Some(
                entries_map(entries@),
            ),
            Err(_) => parsed_table(text@) is None,
        },
{
    let map: HashMap<String, i32> = serde_json::from_str(text)?;
    Ok(map.into_iter().map(|(name, count)| Entry { name, count }).collect())
}

/// Writes entries as a JSON text.
///
/// Trusted: `serde_json::to_string` is handed a `BTreeMap` from name to
/// count, which it walks in the order of the keys, so that the text depends
/// on the mapping alone; [`document_of`] is its name. The call fails only for
/// a key that is no string or where a value refuses to be written, and a
/// string and an `i32` do neither.
#[verifier::external_body]
fn json_to_string(entries: &Vec<Entry>) -> (r: Result<String, serde_json::Error>)
    requires
        distinct_names(entries@),
    ensures
        r is Ok,
        r matches Ok(text) ==> text@ == document_of(entries_map(entries@)),
{
    let map: BTreeMap<&str, i32> = entries.iter().map(|e| (e.name.as_str(), e.count)).collect();
    serde_json::to_string(&map)
}

/// Whether every entry of `left` is in `right` with the same count.
fn entries_within(left: &Vec<Entry>, right: &Vec<Entry>) -> (r: bool)
    requires
        distinct_names(left@),
        distinct_names(right@),
    ensures
        r == entries_map(left@).submap_of(entries_map(right@)),
{
    let mut i: usize = 0;
    while i < left.len()
        invariant
            i <= left@.len(),
            distinct_names(left@),
            distinct_names(right@),
            forall|k: int|
                0 <= k < i ==> entries_map(right@).contains_key(#[trigger] left@[k].name@)
                    && entries_map(right@)[left@[k].name@] == left@[k].count,
        decreases left@.len() - i,
    {
        proof {
            lemma_entry_in_map(left@, i as int);
        }
        match find_entry(right, left[i].name.as_str()) {
            Some(j) => {
                proof {
                    lemma_entry_in_map(right@, j as int);
                }
                if right[j].count != left[i].count {
                    return false;
                }
            },
            None => {
                proof {
                    let name = left@[i as int].name@;
                    assert(entries_map(left@).dom().contains(name));
                    assert(!entries_map(right@).dom().contains(name));
                }
                return false;
            },
        }
        i = i + 1;
    }
    proof {
        assert forall|name: Seq<char>| #[trigger]
            entries_map(left@).dom().contains(name) implies entries_map(right@).dom().contains(name)
            && entries_map(left@)[name] == entries_map(right@)[name] by {
            let k = lemma_key_has_entry(left@, name);
        }
    }
    true
}

/// Whether two lists of entries stand for the same mapping.
fn same_mapping(left: &Vec<Entry>, right: &Vec<Entry>) -> (r: bool)
    requires
        distinct_names(left@),
        distinct_names(right@),
    ensures
        r == (entries_map(left@) == entries_map(right@)),
{
    let r = entries_within(left, right) && entries_within(right, left);
    proof {
        if r {
            assert(entries_map(left@) =~= entries_map(right@));
        }
    }
    r
}

/// What is loaded from a stored document: the empty table where nothing is
/// stored, the table that the document holds where it can be read, and
/// nothing where it cannot.
pub open spec fn loaded(stored: Option<Seq<char>>) -> Option<Map<Seq<char>, int>> {
    match stored {
        None => Some(Map::<Seq<char>, int>::empty()),
        Some(text) => parsed_table(text),
    }
}

/// The document that is stored for a table: its JSON text, given that the
/// text reads back as the same table.
pub open spec fn saved(table: Map<Seq<char>, int>) -> Option<Seq<char>> {
    if parsed_table(document_of(table)) == Some(table) {
        Some(document_of(table))
    } else {
        None
    }
}

/// The text of an optional string.
pub open spec fn stored_text(stored: Option<&str>) -> Option<Seq<char>> {
    match stored {
        None => None,
        Some(text) => Some(text@),
    }
}

/// Reads the usage table from what is stored, `None` standing for a store
/// that does not exist yet. A document that cannot be read is an error and
/// never an empty table.
pub fn load_map(stored: Option<&str>) -> (r: Result<UsageTable, Failure>)
    ensures
        match loaded(stored_text(stored)) {
            Some(table) => r matches Ok(prog_map) && prog_map@ == table,
            None => r == Err::<UsageTable, Failure>(Failure::Corruption),
        },
{
    match stored {
        None => Ok(UsageTable::new()),
        Some(text) => match json_from_str(text) {
            Ok(entries) => Ok(UsageTable::from_entries(entries)),
            Err(_) => Err(Failure::Corruption),
        },
    }
}

/// Settles whether a document may be stored for a table: only one that reads
/// back as that very table is handed on.
pub fn checked_document(prog_map: &UsageTable, document: String) -> (r: Result<String, Failure>)
    ensures
        match r {
            Ok(text) => text@ == document@ && parsed_table(document@) == Some(prog_map@),
            Err(failure) => failure == Failure::WriteFailure && parsed_table(document@) != Some(
                prog_map@,
            ),
        },
{
    match json_from_str(document.as_str()) {
        Ok(entries) => {
            if same_mapping(&entries, prog_map.entries()) {
                Ok(document)
            } else {
                Err(Failure::WriteFailure)
            }
        },
        Err(_) => Err(Failure::WriteFailure),
    }
}

/// The document to store for the table. It is an error if the text written
/// for the table does not read back as the same table, so that nothing is
/// stored that would not load.
pub fn save_map(prog_map: &UsageTable) -> (r: Result<String, Failure>)
    ensures
        match saved(prog_map@) {
            Some(document) => r matches Ok(text) && text@ == document,
            None => r == Err::<String, Failure>(Failure::WriteFailure),
        },
{
    match json_to_string(prog_map.entries()) {
        Ok(document) => checked_document(prog_map, document),
        Err(_) => Err(Failure::WriteFailure),
    }
}

/// Takes one identifier out of what is stored and gives the document to
/// store in its place. An identifier that is no key is no error.
pub fn delete(stored: Option<&str>, prog: &str) -> (r: Result<String, Failure>)
    ensures
        match loaded(stored_text(stored)) {
            None => r == Err::<String, Failure>(Failure::Corruption),
            Some(table) => match saved(table.remove(prog@)) {
                Some(document) => r matches Ok(text) && text@ == document,
                None => r == Err::<String, Failure>(Failure::WriteFailure),
            },
        },
{
    match load_map(stored) {
        Ok(mut prog_map) => {
            let _ = prog_map.remove(prog);
            save_map(&prog_map)
        },
        Err(failure) => Err(failure),
    }
}

/// What was stored for a table loads as that table again.
pub proof fn lemma_saved_loads_back(table: Map<Seq<char>, int>)
    ensures
        saved(table) matches Some(document) ==> loaded(Some(document)) == Some(table),
{
}

/// Taking out an identifier that is no key changes neither the table nor a
/// character of the document stored for it, and taking one out twice is
/// taking it out once.
pub proof fn lemma_remove_absent(table: Map<Seq<char>, int>, name: Seq<char>)
    ensures
        !table.contains_key(name) ==> table.remove(name) == table,
        !table.contains_key(name) ==> document_of(table.remove(name)) == document_of(table),
        !table.contains_key(name) ==> saved(table.remove(name)) == saved(table),
        table.remove(name).remove(name) == table.remove(name),
{
    if !table.contains_key(name) {
        assert(table.remove(name) =~= table);
    }
    assert(table.remove(name).remove(name) =~= table.remove(name));
}

} // verus!
