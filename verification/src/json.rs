//! JSON text produced by `serde_json`.
use vstd::prelude::*;

use crate::entries::distinct_keys;

verus! {

/// The text that `serde_json::to_string` gives for a JSON object built, in
/// order, from `entries`: each key mapped to its array of rows of strings.
pub uninterp spec fn json_object_text(
    entries: Seq<(Seq<char>, Seq<Seq<Seq<char>>>)>,
) -> Seq<char>;

/// Builds a `serde_json::Map` from `entries` (keys are distinct, so each entry
/// becomes one member) and renders it with `serde_json::to_string`. The
/// contract names the rendered text; it is a function of the entries alone.
/// `serde_json` documents failure only for maps with non-string keys and for
/// `Serialize` impls that fail, neither of which occurs here, so the empty
/// fallback is never taken.
#[verifier::external_body]
pub(crate) fn to_json_object(entries: &Vec<(String, Vec<Vec<String>>)>) -> (text: String)
    requires
        distinct_keys(entries.deep_view()),
    ensures
        text@ == json_object_text(entries.deep_view()),
{
    let object: serde_json::Map<String, serde_json::Value> = entries
        .iter()
        .map(|(key, rows)| (key.clone(), serde_json::Value::from(rows.clone())))
        .collect();
    serde_json::to_string(&object).unwrap_or_default()
}

} // verus!
