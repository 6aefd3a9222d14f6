//! Reading a dictionary header's YAML with `serde_yaml`.
use vstd::prelude::*;

verus! {

/// What `serde_yaml` reads of the document `text` under the top-level key `key`:
/// `None` when `text` is not valid YAML; `Some(None)` when the document's value (its tags
/// looked through) is not a mapping that holds a sequence under `key`; `Some(Some(items))`
/// with one entry per item of that sequence, the item's string or `None` for an item that is
/// not a string.
pub uninterp spec fn yaml_sequence_at(text: Seq<char>, key: Seq<char>) -> Option<
    Option<Seq<Option<Seq<char>>>>,
>;

/// The texts of a list of optional strings.
pub open spec fn option_texts(v: Seq<Option<String>>) -> Seq<Option<Seq<char>>> {
    v.map_values(
        |x: Option<String>|
            match x {
                Some(s) => Some(s@),
                None => None,
            },
    )
}

/// Parses `text` with `serde_yaml::from_str::<serde_yaml::Value>` and reads, with
/// `Value::get`, `Value::as_sequence` and `Value::as_str` (which all look through tags), the
/// items of the sequence held under `key` in the top-level mapping. The contract claims that
/// the result is `yaml_sequence_at(text, key)`, item for item; of an error it claims nothing
/// but that the text did not parse: the message is `serde_yaml::Error`'s `Display`.
#[verifier::external_body]
pub(crate) fn yaml_sequence_items(text: &str, key: &str) -> (r: Result<
    Option<Vec<Option<String>>>,
    String,
>)
    ensures
        match r {
            Ok(Some(items)) => yaml_sequence_at(text@, key@) == Some(Some(option_texts(items@))),
            Ok(None) => yaml_sequence_at(text@, key@) == Some(None::<Seq<Option<Seq<char>>>>),
            Err(_) => yaml_sequence_at(text@, key@) is None,
        },
{
    match serde_yaml::from_str::<serde_yaml::Value>(text) {
        Ok(value) => Ok(
            value.get(key).and_then(serde_yaml::Value::as_sequence).map(
                |items| items.iter().map(|item| item.as_str().map(str::to_owned)).collect(),
            ),
        ),
        Err(error) => Err(error.to_string()),
    }
}

} // verus!
