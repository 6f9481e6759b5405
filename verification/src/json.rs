//! The JSON text in which the store is kept on disk, written and read by
//! `serde_json`.
use vstd::prelude::*;
use crate::resp::Pair;
use crate::store::{insert_all, SEntry};

verus! {

/// `serde_json::Error`, the error that `serde_json` reports.
#[verifier::external_type_specification]
#[verifier::external_body]
pub struct ExJsonError(serde_json::Error);

/// The JSON text that `serde_json` writes for a list of entries written as
/// one JSON object: each key a member name, in the order of the list, each
/// list of elements an array of `[tag, [words...]]` arrays.
pub uninterp spec fn json_object_text(entries: Seq<SEntry>) -> Seq<u8>;

/// The entries that `serde_json` reads from JSON text as an object whose
/// members are keys holding lists of elements, in ascending key order, a
/// later member replacing an earlier one with the same name; `None` where
/// the text is not such an object.
pub uninterp spec fn json_object_entries(text: Seq<u8>) -> Option<Seq<SEntry>>;

/// Writes the entries as one JSON object through
/// `serde::Serializer::collect_map` on a `serde_json::Serializer` over a
/// byte vector. The contract claims that this succeeds (`serde_json` fails
/// only where a `Serialize` impl fails or a map key is not a string, and
/// writing to a byte vector does not fail; here the keys are strings and the
/// values strings in vectors and pairs), that the text is the one that
/// `json_object_text` names for these entries, and that `serde_json` reads
/// that text back as an object whose members, inserted in order, make the
/// same map as the entries inserted in order: strings are written with
/// escapes that its reader undoes, and pairs as two-element arrays that it
/// reads back as pairs.
#[verifier::external_body]
pub(crate) fn write_json_object(entries: &Vec<(String, Vec<Pair>)>) -> (res: Result<
    Vec<u8>,
    serde_json::Error,
>)
    ensures
        res is Ok,
        res matches Ok(text) ==> text@ == json_object_text(entries.deep_view()),
        res matches Ok(text) ==> (json_object_entries(text@) matches Some(es) && insert_all(
            Map::empty(),
            es,
        ) == insert_all(Map::empty(), entries.deep_view())),
{
    let mut out: Vec<u8> = Vec::new();
    let mut ser = serde_json::Serializer::new(&mut out);
    serde::Serializer::collect_map(&mut ser, entries.iter().map(|e| (&e.0, &e.1)))?;
    Ok(out)
}

/// Reads JSON text with `serde_json::from_slice` into a
/// `BTreeMap<String, Vec<(String, Vec<String>)>>` and hands out its entries
/// in the map's (ascending) order. The contract claims that a success gives
/// the entries that `json_object_entries` names for the text, and an error
/// comes exactly where that name is `None`.
#[verifier::external_body]
pub(crate) fn read_json_object(text: &Vec<u8>) -> (res: Result<
    Vec<(String, Vec<Pair>)>,
    serde_json::Error,
>)
    ensures
        match res {
            Ok(entries) => json_object_entries(text@) == Some(entries.deep_view()),
            Err(_) => json_object_entries(text@) is None,
        },
{
    let map: std::collections::BTreeMap<String, Vec<Pair>> = serde_json::from_slice(text)?;
    Ok(map.into_iter().collect())
}

} // verus!
