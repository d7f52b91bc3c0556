use vstd::prelude::*;

use crate::store::as_map;
use crate::store::distinct_keys;

verus! {

/// A pair of texts: a key and its value.
pub type TextPair = (Seq<char>, Seq<char>);

/// Pairs of strings seen as pairs of texts.
pub open spec fn text_pairs(v: Seq<(String, String)>) -> Seq<TextPair> {
    v.map_values(|p: (String, String)| (p.0@, p.1@))
}

/// The compact JSON text that serde_json writes for the map that the pairs
/// make (a later pair wins a shared key).
pub uninterp spec fn json_object_text(pairs: Seq<TextPair>) -> Seq<char>;

/// The pretty-printed JSON text that serde_json writes for the map that the
/// pairs make (a later pair wins a shared key).
pub uninterp spec fn json_object_pretty_text(pairs: Seq<TextPair>) -> Seq<char>;

/// What serde_json reads from a text as a map from strings to strings: its
/// pairs in ascending key order, or `None` when the text is not such a map.
pub uninterp spec fn json_object_read(text: Seq<char>) -> Option<Seq<TextPair>>;

/// Relies on `serde_json::to_string`: a map from strings to strings is
/// written as one compact JSON object, the same text for the same pairs;
/// with string keys and an in-memory buffer it does not fail.
#[verifier::external_body]
pub(crate) fn write_object(pairs: &Vec<(String, String)>) -> (r: Result<String, String>)
    ensures
        r is Ok,
        r matches Ok(t) ==> t@ == json_object_text(text_pairs(pairs@)),
{
    let map: std::collections::BTreeMap<String, String> = pairs.iter().cloned().collect();
    serde_json::to_string(&map).map_err(|e| e.to_string())
}

/// Relies on `serde_json::to_string_pretty`: as `to_string`, with the
/// object laid out over indented lines.
#[verifier::external_body]
pub(crate) fn write_object_pretty(pairs: &Vec<(String, String)>) -> (r: Result<String, String>)
    ensures
        r is Ok,
        r matches Ok(t) ==> t@ == json_object_pretty_text(text_pairs(pairs@)),
{
    let map: std::collections::BTreeMap<String, String> = pairs.iter().cloned().collect();
    serde_json::to_string_pretty(&map).map_err(|e| e.to_string())
}

/// Relies on `serde_json::from_str` into a map from strings to strings: the
/// result depends on the text alone, its keys are distinct, and the text
/// that `to_string` or `to_string_pretty` wrote for a map reads back as that
/// same map.
#[verifier::external_body]
pub(crate) fn read_object(text: &str) -> (r: Result<Vec<(String, String)>, String>)
    ensures
        r matches Ok(v) ==> json_object_read(text@) == Some(text_pairs(v@)),
        r is Err ==> json_object_read(text@) is None,
        r matches Ok(v) ==> distinct_keys(text_pairs(v@)),
        r matches Ok(v) ==> forall|e: Seq<TextPair>|
            #[trigger] json_object_text(e) == text@ && distinct_keys(e) ==> as_map(text_pairs(v@))
                == as_map(e),
        r matches Ok(v) ==> forall|e: Seq<TextPair>|
            #[trigger] json_object_pretty_text(e) == text@ && distinct_keys(e) ==> as_map(
                text_pairs(v@),
            ) == as_map(e),
        r is Err ==> forall|e: Seq<TextPair>|
            !(#[trigger] json_object_text(e) == text@ && distinct_keys(e)),
        r is Err ==> forall|e: Seq<TextPair>|
            !(#[trigger] json_object_pretty_text(e) == text@ && distinct_keys(e)),
{
    serde_json::from_str::<std::collections::BTreeMap<String, String>>(text).map(
        |m| m.into_iter().collect(),
    ).map_err(|e| e.to_string())
}

} // verus!
