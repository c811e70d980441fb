//! Reading a table from its JSON text: an object that maps each context to
//! an object that maps each next character to its count.

use crate::error::TableError;
use crate::model::{entries_bag, Entry};
use crate::table::TransitionTable;
use std::collections::BTreeMap;
use vstd::prelude::*;

verus! {

/// Why `serde_json` refused a text.
#[verifier::external_type_specification]
#[verifier::external_body]
pub struct ExJsonError(serde_json::Error);

/// The rows that `serde_json` reads from `text` as a map from strings to
/// maps from characters to unsigned 64-bit counts, in ascending order of
/// their keys, or `None` where it refuses the text.
pub uninterp spec fn json_entries(text: Seq<char>) -> Option<Seq<Entry>>;

/// `serde_json::from_str` for a `BTreeMap` from `String` to `BTreeMap`
/// from `char` to `u64`, its rows handed out in the order of the map.
#[verifier::external_body]
pub(crate) fn parse_entries(text: &str) -> (r: Result<Vec<(String, Vec<(char, u64)>)>, serde_json::Error>)
    ensures
        r is Ok <==> json_entries(text@) is Some,
        r matches Ok(entries) ==> json_entries(text@) == Some(entries.deep_view()),
{
    let parsed: BTreeMap<String, BTreeMap<char, u64>> = serde_json::from_str(text)?;
    Ok(parsed.into_iter().map(|(context, nexts)| (context, nexts.into_iter().collect())).collect())
}

/// `serde_json`'s own description of why it refused a text.
#[verifier::external_body]
pub(crate) fn describe(error: &serde_json::Error) -> (reason: String) {
    error.to_string()
}

/// Reads a transition table from its JSON text.
///
/// The text is refused as malformed where `serde_json` does not read it
/// as an object of objects of unsigned counts keyed by single characters,
/// and where all its counts together do not fit in `u64`. Counts of zero
/// are read and count for nothing.
pub fn read_map_from_resource(map: &str) -> (r: Result<TransitionTable, TableError>)
    ensures
        match json_entries(map@) {
            Some(entries) => if entries_bag(entries).len() <= u64::MAX {
                r matches Ok(table) && table.bag() == entries_bag(entries)
            } else {
                r matches Err(TableError::Malformed(_))
            },
            None => r matches Err(TableError::Malformed(_)),
        },
{
    match parse_entries(map) {
        Ok(entries) => TransitionTable::from_entries(&entries),
        Err(error) => Err(TableError::Malformed(describe(&error))),
    }
}

} // verus!
