//! The snapshot: the whole content of the store as one JSON text, an
//! object with one member for each key.

use crate::model::{distinct_keys, map_of, pairs_of};
use std::collections::BTreeMap;
use vstd::prelude::*;

verus! {

/// The JSON text of an object whose members are the keys of `content`, each
/// with its value as a string: what `serde_json::to_string_pretty` gives for
/// such an object, or the error it ends with.
pub uninterp spec fn json_of_content(content: Map<Seq<char>, Seq<char>>) -> Result<
    Seq<char>,
    serde_json::Error,
>;

/// The members of the JSON object that `text` holds, each name with its
/// string: what `serde_json::from_str` reads from `text` as a map from
/// strings to strings, pair by pair, or the error it ends with.
pub uninterp spec fn pairs_of_json(text: Seq<char>) -> Result<
    Seq<(Seq<char>, Seq<char>)>,
    serde_json::Error,
>;

/// What a snapshot text holds. The empty text holds nothing, as a store
/// does that has never been saved; any other text holds what its JSON
/// object holds.
pub open spec fn pairs_of_snapshot(text: Seq<char>) -> Result<
    Seq<(Seq<char>, Seq<char>)>,
    serde_json::Error,
> {
    if text.len() == 0 {
        Ok(Seq::empty())
    } else {
        pairs_of_json(text)
    }
}

/// `serde_json::to_string_pretty` on a map that holds the pairs of `data`.
/// The text depends on the content of that map alone: the members are
/// written in the order of their names.
#[verifier::external_body]
pub(crate) fn to_json(data: &Vec<(String, String)>) -> (json: Result<String, serde_json::Error>)
    requires
        distinct_keys(pairs_of(data@)),
    ensures
        match json {
            Ok(text) => json_of_content(map_of(pairs_of(data@))) == Ok::<
                Seq<char>,
                serde_json::Error,
            >(text@),
            Err(err) => json_of_content(map_of(pairs_of(data@))) == Err::<
                Seq<char>,
                serde_json::Error,
            >(err),
        },
{
    let object: BTreeMap<&str, &str> = data.iter().map(
        |pair| (pair.0.as_str(), pair.1.as_str()),
    ).collect();
    serde_json::to_string_pretty(&object)
}

/// `serde_json::from_str`, reading `text` as a map from strings to strings,
/// whose pairs come out in the order of their keys. The outcome depends on
/// the text alone.
#[verifier::external_body]
pub(crate) fn from_json(text: &str) -> (data: Result<Vec<(String, String)>, serde_json::Error>)
    ensures
        match data {
            Ok(pairs) => pairs_of_json(text@) == Ok::<
                Seq<(Seq<char>, Seq<char>)>,
                serde_json::Error,
            >(pairs_of(pairs@)),
            Err(err) => pairs_of_json(text@) == Err::<
                Seq<(Seq<char>, Seq<char>)>,
                serde_json::Error,
            >(err),
        },
{
    let object: BTreeMap<String, String> = serde_json::from_str(text)?;
    Ok(object.into_iter().collect())
}

} // verus!
