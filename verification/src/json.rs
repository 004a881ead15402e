//! JSON documents, read with `serde_json`.

use vstd::prelude::*;

verus! {

/// A parsed JSON document.
#[verifier::external_type_specification]
#[verifier::external_body]
pub struct ExJsonValue(serde_json::Value);

/// Why a text is no JSON document.
#[verifier::external_type_specification]
#[verifier::external_body]
pub struct ExJsonError(serde_json::Error);

/// What a JSON document holds, as far as it is read: nothing, texts, counts, the members of
/// objects and the elements of lists.
#[verifier::ext_equal]
pub enum JsonTree {
    Null,
    Text(Seq<char>),
    Count(u64),
    Object(Map<Seq<char>, JsonTree>),
    List(Seq<JsonTree>),
    Other,
}

/// What a parsed document holds.
pub uninterp spec fn tree(v: serde_json::Value) -> JsonTree;

/// What a text holds as a JSON document, if it is one.
pub uninterp spec fn json_text(text: Seq<char>) -> Option<JsonTree>;

/// Reads a JSON document. This is `serde_json::from_str` into a `serde_json::Value`: whether the
/// text is a document, and what the document holds, depends on the text alone. What the grammar
/// is, is not said here.
#[verifier::external_body]
pub(crate) fn read_json(text: &str) -> (r: Result<serde_json::Value, serde_json::Error>)
    ensures
        match r {
            Ok(v) => json_text(text@) == Some(tree(v)),
            Err(_) => json_text(text@) is None,
        },
{
    serde_json::from_str(text)
}

/// The member of an object under a key. This is `serde_json::Value::get` with a text as the index:
/// none where the document is no object, or has no such member.
#[verifier::external_body]
pub(crate) fn member<'a>(v: &'a serde_json::Value, key: &str) -> (r: Option<&'a serde_json::Value>)
    ensures
        match r {
            Some(m) => tree(*v) matches JsonTree::Object(all) && all.contains_key(key@)
                && all[key@] == tree(*m),
            None => tree(*v) matches JsonTree::Object(all) ==> !all.contains_key(key@),
        },
{
    v.get(key)
}

/// The text that a document is. This is `serde_json::Value::as_str`: none where it is something
/// else.
#[verifier::external_body]
pub(crate) fn as_text(v: &serde_json::Value) -> (r: Option<String>)
    ensures
        match r {
            Some(s) => tree(*v) == JsonTree::Text(s@),
            None => !(tree(*v) is Text),
        },
{
    v.as_str().map(str::to_owned)
}

/// The count that a document is. This is `serde_json::Value::as_u64`: none where it is something
/// else, a number that is negative, too large or not whole among it.
#[verifier::external_body]
pub(crate) fn as_count(v: &serde_json::Value) -> (r: Option<u64>)
    ensures
        match r {
            Some(n) => tree(*v) == JsonTree::Count(n),
            None => !(tree(*v) is Count),
        },
{
    v.as_u64()
}

/// Whether a document is null. This is `serde_json::Value::is_null`.
#[verifier::external_body]
pub(crate) fn is_null(v: &serde_json::Value) -> (r: bool)
    ensures
        r == (tree(*v) is Null),
{
    v.is_null()
}

/// What some documents hold.
pub open spec fn trees(list: Seq<serde_json::Value>) -> Seq<JsonTree> {
    list.map_values(|v: serde_json::Value| tree(v))
}

/// The elements of a list. This is `serde_json::Value::as_array`: none where the document is
/// something else.
#[verifier::external_body]
pub(crate) fn elements<'a>(v: &'a serde_json::Value) -> (r: Option<&'a Vec<serde_json::Value>>)
    ensures
        match r {
            Some(list) => tree(*v) == JsonTree::List(trees(list@)),
            None => !(tree(*v) is List),
        },
{
    v.as_array()
}

/// The member of a document under a key, if it is an object that has one.
pub open spec fn member_of(t: JsonTree, key: Seq<char>) -> Option<JsonTree> {
    match t {
        JsonTree::Object(all) => if all.contains_key(key) {
            Some(all[key])
        } else {
            None
        },
        _ => None,
    }
}

/// The text under a key, if there is one.
pub open spec fn text_under(t: JsonTree, key: Seq<char>) -> Option<Seq<char>> {
    match member_of(t, key) {
        Some(JsonTree::Text(s)) => Some(s),
        _ => None,
    }
}

/// The text under a key, if there is one.
pub(crate) fn text_at(v: &serde_json::Value, key: &str) -> (r: Option<String>)
    ensures
        match r {
            Some(s) => text_under(tree(*v), key@) == Some(s@),
            None => text_under(tree(*v), key@) is None,
        },
{
    match member(v, key) {
        Some(m) => as_text(m),
        None => None,
    }
}

} // verus!
