//! Reading job metadata, which is JSON text.
//!
//! `serde_json` parses the text; what it hands back is seen here as the nodes of a
//! document, each at the path of object keys that leads to it.

use vstd::prelude::*;

use crate::single::{narrow, narrowed, Single};

verus! {

/// A node of a document.
pub enum JsonNode {
    Null,
    Bool(bool),
    /// `unsigned` is the number where it is an integer that is not negative and fits 64
    /// bits; `double` is the pattern of the double-precision value.
    Number { unsigned: Option<u64>, double: u64 },
    Text(Seq<char>),
    Array,
    Object,
}

/// The nodes of a document by their paths of object keys. The node of the document
/// itself has the empty path.
pub type JsonDoc = Map<Seq<Seq<char>>, JsonNode>;

/// `serde_json::Value`, opaque: what it holds is `json_nodes`.
#[verifier::external_type_specification]
#[verifier::external_body]
pub struct ExValue(serde_json::Value);

/// The nodes that a parsed value holds.
pub uninterp spec fn json_nodes(value: serde_json::Value) -> Map<Seq<Seq<char>>, JsonNode>;

/// What parsing `text` gives.
pub uninterp spec fn json_parsed(text: Seq<char>) -> Option<Map<Seq<Seq<char>>, JsonNode>>;

/// The document under `key`, where `doc` is an object that has it.
pub open spec fn entry(doc: JsonDoc, key: Seq<char>) -> Option<JsonDoc> {
    if doc.dom().contains(seq![key]) {
        Some(
            Map::new(
                |path: Seq<Seq<char>>| doc.dom().contains(seq![key] + path),
                |path: Seq<Seq<char>>| doc[seq![key] + path],
            ),
        )
    } else {
        None
    }
}

/// The node of the document itself.
pub open spec fn root(doc: JsonDoc) -> JsonNode {
    doc[seq![]]
}

/// Calls `serde_json::from_str::<Value>`. The result depends on the text alone: a value
/// whose nodes are `json_parsed` of the text, or an error where that has none.
#[verifier::external_body]
fn json_from_str(text: &str) -> (r: Result<serde_json::Value, serde_json::Error>)
    ensures
        r is Ok <==> json_parsed(text@) is Some,
        r matches Ok(value) ==> json_parsed(text@) == Some(json_nodes(value)),
{
    serde_json::from_str::<serde_json::Value>(text)
}

/// `serde_json::Error`, opaque: only that there was one counts.
#[verifier::external_type_specification]
#[verifier::external_body]
pub struct ExError(serde_json::Error);

/// Calls `serde_json::Value::get` with a text key: the value under the key of an object,
/// nothing where the key is missing or the value is no object.
#[verifier::external_body]
fn json_get<'a>(value: &'a serde_json::Value, key: &str) -> (r: Option<&'a serde_json::Value>)
    ensures
        match r {
            Some(child) => entry(json_nodes(*value), key@) == Some(json_nodes(*child)),
            None => entry(json_nodes(*value), key@) is None,
        },
{
    value.get(key)
}

/// Calls `serde_json::Value::as_str`: the text of a text node.
#[verifier::external_body]
fn json_as_str<'a>(value: &'a serde_json::Value) -> (r: Option<&'a str>)
    ensures
        match root(json_nodes(*value)) {
            JsonNode::Text(text) => r matches Some(s) && s@ == text,
            _ => r is None,
        },
{
    value.as_str()
}

/// Calls `serde_json::Value::as_u64`: the number, where it is an integer that is not
/// negative and fits 64 bits.
#[verifier::external_body]
fn json_as_u64(value: &serde_json::Value) -> (r: Option<u64>)
    ensures
        r == (match root(json_nodes(*value)) {
            JsonNode::Number { unsigned, .. } => unsigned,
            _ => None,
        }),
{
    value.as_u64()
}

/// Calls `serde_json::Value::as_f64` and takes the pattern of the result: the
/// double-precision value of a number, which is always finite.
#[verifier::external_body]
fn json_as_double(value: &serde_json::Value) -> (r: Option<u64>)
    ensures
        match root(json_nodes(*value)) {
            JsonNode::Number { double, .. } => r == Some(double)
                && crate::single::is_finite_double(r->0),
            _ => r is None,
        },
{
    value.as_f64().map(|x| x.to_bits())
}

/// Calls `serde_json::Value::as_bool`: the value of a boolean node.
#[verifier::external_body]
fn json_as_bool(value: &serde_json::Value) -> (r: Option<bool>)
    ensures
        r == (match root(json_nodes(*value)) {
            JsonNode::Bool(b) => Some(b),
            _ => None,
        }),
{
    value.as_bool()
}

/// The document under `key`.
pub open spec fn at(doc: Option<JsonDoc>, key: Seq<char>) -> Option<JsonDoc> {
    match doc {
        Some(d) => entry(d, key),
        None => None,
    }
}

/// The unsigned integer that a document is.
pub open spec fn u64_of(doc: Option<JsonDoc>) -> Option<u64> {
    match doc {
        Some(d) => match root(d) {
            JsonNode::Number { unsigned, .. } => unsigned,
            _ => None,
        },
        None => None,
    }
}

/// The number that a document is, in single precision.
pub open spec fn single_of(doc: Option<JsonDoc>) -> Option<Single> {
    match doc {
        Some(d) => match root(d) {
            JsonNode::Number { double, .. } => Some(narrowed(double)),
            _ => None,
        },
        None => None,
    }
}

/// The text that a document is.
pub open spec fn text_of(doc: Option<JsonDoc>) -> Option<Seq<char>> {
    match doc {
        Some(d) => match root(d) {
            JsonNode::Text(text) => Some(text),
            _ => None,
        },
        None => None,
    }
}

/// The boolean that a document is.
pub open spec fn bool_of(doc: Option<JsonDoc>) -> Option<bool> {
    match doc {
        Some(d) => match root(d) {
            JsonNode::Bool(b) => Some(b),
            _ => None,
        },
        None => None,
    }
}

/// The text of an optional string.
pub open spec fn text_view(s: Option<&str>) -> Option<Seq<char>> {
    match s {
        Some(text) => Some(text@),
        None => None,
    }
}

/// The document of an optional value.
pub open spec fn nodes_of(value: Option<&serde_json::Value>) -> Option<JsonDoc> {
    match value {
        Some(v) => Some(json_nodes(*v)),
        None => None,
    }
}

/// Parses JSON text.
pub(crate) fn parse_json(text: &str) -> (r: Option<serde_json::Value>)
    ensures
        match r {
            Some(v) => json_parsed(text@) == Some(json_nodes(v)),
            None => json_parsed(text@) is None,
        },
{
    match json_from_str(text) {
        Ok(v) => Some(v),
        Err(_) => None,
    }
}

/// The value under `key`.
pub(crate) fn field<'a>(value: Option<&'a serde_json::Value>, key: &str) -> (r: Option<
    &'a serde_json::Value,
>)
    ensures
        nodes_of(r) == at(nodes_of(value), key@),
{
    match value {
        Some(v) => json_get(v, key),
        None => None,
    }
}

/// The unsigned integer that a value is.
pub(crate) fn field_u64(value: Option<&serde_json::Value>) -> (r: Option<u64>)
    ensures
        r == u64_of(nodes_of(value)),
{
    match value {
        Some(v) => json_as_u64(v),
        None => None,
    }
}

/// The number that a value is, in single precision.
pub(crate) fn field_single(value: Option<&serde_json::Value>) -> (r: Option<Single>)
    ensures
        r == single_of(nodes_of(value)),
{
    match value {
        Some(v) => match json_as_double(v) {
            Some(double) => Some(narrow(double)),
            None => None,
        },
        None => None,
    }
}

/// The text that a value is.
pub(crate) fn field_str<'a>(value: Option<&'a serde_json::Value>) -> (r: Option<&'a str>)
    ensures
        text_view(r) == text_of(nodes_of(value)),
{
    match value {
        Some(v) => json_as_str(v),
        None => None,
    }
}

/// The boolean that a value is.
pub(crate) fn field_bool(value: Option<&serde_json::Value>) -> (r: Option<bool>)
    ensures
        r == bool_of(nodes_of(value)),
{
    match value {
        Some(v) => json_as_bool(v),
        None => None,
    }
}

/// What is read under a key, and under a key within it, is the node at that path: a number as
/// its integer, where it is one, and as the nearest single; a text and a boolean as they are.
/// Nothing is read where there is no such path or the node is of another kind.
pub proof fn law_keys_lead_to_nodes(doc: JsonDoc, a: Seq<char>, b: Seq<char>)
    ensures
        ({
            let one = at(Some(doc), a);
            let two = at(one, b);
            &&& !doc.dom().contains(seq![a]) ==> reads(one, None)
            &&& doc.dom().contains(seq![a]) ==> reads(one, Some(doc[seq![a]]))
            &&& !doc.dom().contains(seq![a]) || !doc.dom().contains(seq![a, b]) ==> reads(two, None)
            &&& doc.dom().contains(seq![a]) && doc.dom().contains(seq![a, b]) ==> reads(
                two,
                Some(doc[seq![a, b]]),
            )
        }),
{
    assert(seq![a] + Seq::<Seq<char>>::empty() =~= seq![a]);
    assert(seq![b] + Seq::<Seq<char>>::empty() =~= seq![b]);
    assert(seq![a] + seq![b] =~= seq![a, b]);
}

/// A document is read as a node.
pub open spec fn reads(doc: Option<JsonDoc>, node: Option<JsonNode>) -> bool {
    &&& u64_of(doc) == match node {
        Some(JsonNode::Number { unsigned, double }) => unsigned,
        _ => None,
    }
    &&& single_of(doc) == match node {
        Some(JsonNode::Number { unsigned, double }) => Some(narrowed(double)),
        _ => None,
    }
    &&& text_of(doc) is Some <==> node is Some && node->0 is Text
    &&& text_of(doc) is Some ==> node == Some(JsonNode::Text(text_of(doc)->0))
    &&& bool_of(doc) is Some <==> node is Some && node->0 is Bool
    &&& bool_of(doc) is Some ==> node == Some(JsonNode::Bool(bool_of(doc)->0))
}

} // verus!
