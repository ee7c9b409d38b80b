//! JSON documents as plain values, and their text through `serde_json`.
use crate::error::GbfError;
use serde_json::Value;
use vstd::prelude::*;

verus! {

/// A JSON document. A number is held as it was written: without sign,
/// with sign, or as the bits of a double.
#[derive(Debug, PartialEq, Eq)]
pub enum JsonNode {
    Null,
    Bool(bool),
    Unsigned(u64),
    Signed(i64),
    Float(u64),
    Text(String),
    List(Vec<JsonNode>),
    Record(Vec<(String, JsonNode)>),
}

/// The mathematical content of a [`JsonNode`].
pub enum JsonView {
    Null,
    Bool(bool),
    Unsigned(u64),
    Signed(i64),
    Float(u64),
    Text(Seq<char>),
    List(Seq<JsonView>),
    Record(Seq<(Seq<char>, JsonView)>),
}

/// The views of a list of documents, in order.
pub open spec fn nodes_view(nodes: Seq<JsonNode>) -> Seq<JsonView>
    decreases nodes,
{
    if nodes.len() == 0 {
        Seq::empty()
    } else {
        nodes_view(nodes.drop_last()).push(nodes.last().view())
    }
}

/// The views of the members of a record, in order.
pub open spec fn members_view(members: Seq<(String, JsonNode)>) -> Seq<(Seq<char>, JsonView)>
    decreases members,
{
    if members.len() == 0 {
        Seq::empty()
    } else {
        members_view(members.drop_last()).push((members.last().0@, members.last().1.view()))
    }
}

impl View for JsonNode {
    type V = JsonView;

    open spec fn view(&self) -> JsonView
        decreases self,
    {
        match self {
            JsonNode::Null => JsonView::Null,
            JsonNode::Bool(b) => JsonView::Bool(*b),
            JsonNode::Unsigned(n) => JsonView::Unsigned(*n),
            JsonNode::Signed(n) => JsonView::Signed(*n),
            JsonNode::Float(n) => JsonView::Float(*n),
            JsonNode::Text(s) => JsonView::Text(s@),
            JsonNode::List(items) => JsonView::List(nodes_view(items@)),
            JsonNode::Record(members) => JsonView::Record(members_view(members@)),
        }
    }
}

/// The view of a list of documents holds the view of each, in place.
pub proof fn lemma_nodes_view(nodes: Seq<JsonNode>)
    ensures
        nodes_view(nodes).len() == nodes.len(),
        forall|i: int| 0 <= i < nodes.len() ==> (#[trigger] nodes_view(nodes)[i]) == nodes[i]@,
    decreases nodes.len(),
{
    if nodes.len() > 0 {
        lemma_nodes_view(nodes.drop_last());
        assert(nodes_view(nodes) == nodes_view(nodes.drop_last()).push(nodes.last().view()));
    } else {
        assert(nodes_view(nodes) == Seq::<JsonView>::empty());
    }
}

/// The view of the members of a record holds the view of each, in place.
pub proof fn lemma_members_view(members: Seq<(String, JsonNode)>)
    ensures
        members_view(members).len() == members.len(),
        forall|i: int|
            0 <= i < members.len() ==> (#[trigger] members_view(members)[i]) == (
                members[i].0@,
                members[i].1@,
            ),
    decreases members.len(),
{
    if members.len() > 0 {
        lemma_members_view(members.drop_last());
        assert(members_view(members) == members_view(members.drop_last()).push(
            (members.last().0@, members.last().1.view()),
        ));
    } else {
        assert(members_view(members) == Seq::<(Seq<char>, JsonView)>::empty());
    }
}

/// Whether no two members of a record have the same name.
pub open spec fn names_differ(members: Seq<(Seq<char>, JsonView)>) -> bool {
    forall|i: int, j: int|
        0 <= i < j < members.len() ==> (#[trigger] members[i]).0 != (#[trigger] members[j]).0
}

/// Whether a document holds no number with a sign or a fraction, and no
/// record with two members of one name.
pub open spec fn plain(doc: JsonView) -> bool
    decreases doc,
{
    match doc {
        JsonView::Signed(_) => false,
        JsonView::Float(_) => false,
        JsonView::List(items) => forall|i: int| 0 <= i < items.len() ==> plain(#[trigger] items[i]),
        JsonView::Record(members) => names_differ(members) && forall|i: int|
            0 <= i < members.len() ==> plain((#[trigger] members[i]).1),
        _ => true,
    }
}

/// `serde_json::Value`, carried through as it is.
#[verifier::external_type_specification]
#[verifier::external_body]
pub struct ExJsonValue(serde_json::Value);

/// The document that a `serde_json::Value` holds.
pub uninterp spec fn value_document(value: serde_json::Value) -> JsonView;

/// The document that `serde_json::from_str` reads from a text, or `None`
/// where the text is not one JSON document.
pub uninterp spec fn json_parsed(text: Seq<char>) -> Option<JsonView>;

/// The text that `serde_json::to_string` writes for a document.
pub uninterp spec fn json_compact(doc: JsonView) -> Seq<char>;

/// The text that `serde_json::to_string_pretty` writes for a document.
pub uninterp spec fn json_pretty(doc: JsonView) -> Seq<char>;

/// `serde_json::from_str` to a `Value`; the error is given as its text.
#[verifier::external_body]
fn parse_value(text: &str) -> (r: Result<Value, String>)
    ensures
        r is Ok <==> json_parsed(text@) is Some,
        r matches Ok(v) ==> json_parsed(text@) == Some(value_document(v)),
{
    serde_json::from_str::<Value>(text).map_err(|e| e.to_string())
}

/// Copies a `serde_json::Value` into a [`JsonNode`], variant by variant; a
/// number by `Number::as_u64`, else `as_i64`, else the bits of `as_f64`;
/// the members of a record in the order of the `serde_json::Map`, which
/// with the feature `preserve_order` is the order of the text.
#[verifier::external_body]
fn node_of_value(value: &Value) -> (node: JsonNode)
    ensures
        node@ == value_document(*value),
{
    match value {
        Value::Null => JsonNode::Null,
        Value::Bool(b) => JsonNode::Bool(*b),
        Value::Number(n) => n.as_u64().map(JsonNode::Unsigned).or(
            n.as_i64().map(JsonNode::Signed),
        ).unwrap_or(JsonNode::Float(n.as_f64().map(|x| x.to_bits()).unwrap_or(0))),
        Value::String(s) => JsonNode::Text(s.clone()),
        Value::Array(a) => JsonNode::List(a.iter().map(node_of_value).collect()),
        Value::Object(m) => JsonNode::Record(
            m.iter().map(|(k, v)| (k.clone(), node_of_value(v))).collect(),
        ),
    }
}

/// Copies a [`JsonNode`] without signed or fractional numbers, and without
/// two members of one name in a record, into a `serde_json::Value`, variant
/// by variant. The members of a record go into a `serde_json::Map`, which
/// keeps the order in which they come: `serde_json` is built with its
/// feature `preserve_order`.
#[verifier::external_body]
fn value_of_node(node: &JsonNode) -> (value: Value)
    requires
        plain(node@),
    ensures
        value_document(value) == node@,
{
    match node {
        JsonNode::Bool(b) => Value::Bool(*b),
        JsonNode::Unsigned(u) => Value::from(*u),
        JsonNode::Signed(i) => Value::from(*i),
        JsonNode::Text(s) => Value::String(s.clone()),
        JsonNode::List(a) => Value::Array(a.iter().map(value_of_node).collect()),
        JsonNode::Record(m) => Value::Object(
            m.iter().map(|(k, v)| (k.clone(), value_of_node(v))).collect(),
        ),
        _ => Value::Null,
    }
}

/// `serde_json::to_string` on a `Value`.
#[verifier::external_body]
fn compact_text(value: &Value) -> (text: String)
    ensures
        text@ == json_compact(value_document(*value)),
{
    serde_json::to_string(value).unwrap_or_default()
}

/// `serde_json::to_string_pretty` on a `Value`.
#[verifier::external_body]
fn pretty_text(value: &Value) -> (text: String)
    ensures
        text@ == json_pretty(value_document(*value)),
{
    serde_json::to_string_pretty(value).unwrap_or_default()
}

/// The text of a document: on one line, or laid out over lines.
pub open spec fn json_text(doc: JsonView, pretty: bool) -> Seq<char> {
    if pretty {
        json_pretty(doc)
    } else {
        json_compact(doc)
    }
}

/// Reads one JSON document from a text.
pub fn parse_json(text: &str) -> (r: Result<JsonNode, GbfError>)
    ensures
        match r {
            Ok(node) => json_parsed(text@) == Some(node@),
            Err(e) => json_parsed(text@) is None && e is Json,
        },
{
    match parse_value(text) {
        Ok(v) => Ok(node_of_value(&v)),
        Err(m) => Err(GbfError::Json(m)),
    }
}

/// Writes a document as text: on one line, or laid out over lines where
/// `pretty` is set. The document holds no signed or fractional number, and
/// no record with two members of one name.
pub fn render_json(node: &JsonNode, pretty: bool) -> (text: String)
    requires
        plain(node@),
    ensures
        text@ == json_text(node@, pretty),
{
    let v = value_of_node(node);
    if pretty {
        pretty_text(&v)
    } else {
        compact_text(&v)
    }
}

} // verus!
