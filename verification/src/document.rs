//! A TOML document as plain data, and the one place where TOML text is read.

use vstd::prelude::*;

verus! {

/// A node of a TOML document: a value with all that is nested in it. A float is held as the bit pattern of its
/// binary64 number; a table lists its entries in the order of their keys.
#[derive(Debug, PartialEq, Eq)]
pub enum Node {
    Text(String),
    Integer(i64),
    Float(u64),
    Boolean(bool),
    Datetime(String),
    Array(Vec<Node>),
    Table(Vec<(String, Node)>),
}

/// A value as the `toml` crate holds it. What it holds is read by `lift`
/// alone.
#[verifier::external_type_specification]
#[verifier::external_body]
pub struct ExTomlValue(toml::Value);

/// What `text` holds when it is read as a TOML document: its top-level table,
/// or nothing if `text` is not a TOML document.
pub uninterp spec fn toml_document(text: Seq<char>) -> Option<toml::Value>;

/// What a value of the `toml` crate holds, as a `Node`.
pub uninterp spec fn node_of(value: toml::Value) -> Node;

/// Reads `text` with `toml::Parser::parse`. The parser returns the top-level
/// table of a well-formed document and nothing otherwise; what it returns
/// depends on `text` alone.
#[verifier::external_body]
pub(crate) fn parse_toml(text: &str) -> (document: Option<toml::Value>)
    ensures
        document == toml_document(text@),
{
    toml::Parser::new(text).parse().map(toml::Value::Table)
}

/// Rewrites a value of the `toml` crate as a `Node`, one variant for one
/// variant: strings, integers, booleans and datetimes as they are, a float as
/// its bits, the items of an array in their order, and the entries of a table
/// in the order in which the table walks them, which is the order of their
/// keys.
#[verifier::external_body]
pub(crate) fn lift(value: &toml::Value) -> (node: Node)
    ensures
        node == node_of(*value),
{
    match value {
        toml::Value::String(s) => Node::Text(s.clone()),
        toml::Value::Integer(i) => Node::Integer(*i),
        toml::Value::Float(f) => Node::Float(f.to_bits()),
        toml::Value::Boolean(b) => Node::Boolean(*b),
        toml::Value::Datetime(s) => Node::Datetime(s.clone()),
        toml::Value::Array(items) => Node::Array(items.iter().map(lift).collect()),
        toml::Value::Table(t) => Node::Table(t.iter().map(|(k, v)| (k.clone(), lift(v))).collect()),
    }
}

} // verus!
