//! The boundary to the YAML reader and writer: text is read into a
//! [`ValueTree`], and a tree is written back as a YAML block.
use vstd::prelude::*;

use crate::values::{Tree, ValueTree, well_formed};

verus! {

#[verifier::external_type_specification]
#[verifier::external_body]
pub struct ExJsonValue(serde_json::Value);

#[verifier::external_type_specification]
#[verifier::external_body]
pub struct ExYamlValue(serde_yaml::Value);

/// What `serde_yaml::from_str` reads from a text as a `serde_json::Value`,
/// in the value model; `None` where the text is not one YAML document.
pub uninterp spec fn parsed_yaml(s: Seq<char>) -> Option<Tree>;

/// What `serde_yaml::from_str` reads from a rendered document as a
/// `serde_yaml::Value`, in the value model; `None` where the text is not one
/// YAML document.
pub uninterp spec fn parsed_document(s: Seq<char>) -> Option<Tree>;

/// What `serde_yaml::to_string` writes for a tree; `None` where it fails.
pub uninterp spec fn yaml_block(t: Tree) -> Option<Seq<char>>;

/// Relies on `serde_yaml::from_str::<serde_json::Value>`: the result depends on
/// the text alone, and the maps it builds (`serde_json::Map`, a `BTreeMap`
/// here) hold each key once.
#[verifier::external_body]
pub(crate) fn parse_yaml(text: &str) -> (r: Option<ValueTree>)
    ensures
        match r {
            Some(t) => parsed_yaml(text@) == Some(t@) && well_formed(t@),
            None => parsed_yaml(text@) is None,
        },
{
    serde_yaml::from_str::<serde_json::Value>(text).ok().map(|v| tree_from_json(&v))
}

/// Relies on `serde_yaml::from_str::<serde_yaml::Value>`, which rejects a
/// mapping with a repeated key; the result depends on the text alone. The
/// value is carried into the model by `json_from_yaml`, whose maps
/// (`serde_json::Map`, a `BTreeMap` here) hold each key once.
#[verifier::external_body]
pub(crate) fn parse_document(text: &str) -> (r: Option<ValueTree>)
    ensures
        match r {
            Some(t) => parsed_document(text@) == Some(t@) && well_formed(t@),
            None => parsed_document(text@) is None,
        },
{
    serde_yaml::from_str::<serde_yaml::Value>(text).ok().map(|v| tree_from_json(&json_from_yaml(&v)))
}

/// Relies on `serde_yaml::to_string` of a `serde_json::Value`: the result
/// depends on the tree alone.
#[verifier::external_body]
pub(crate) fn yaml_text(t: &ValueTree) -> (r: Option<String>)
    ensures
        match r {
            Some(s) => yaml_block(t@) == Some(s@),
            None => yaml_block(t@) is None,
        },
{
    serde_yaml::to_string(&json_from_tree(t)).ok()
}

/// Converts a `serde_json::Value` node for node; a number keeps its
/// `Display` text.
#[verifier::external_body]
fn tree_from_json(v: &serde_json::Value) -> ValueTree {
    match v {
        serde_json::Value::Null => ValueTree::Null,
        serde_json::Value::Bool(b) => ValueTree::Bool(*b),
        serde_json::Value::Number(n) => ValueTree::Number(n.to_string()),
        serde_json::Value::String(s) => ValueTree::Text(s.clone()),
        serde_json::Value::Array(a) => ValueTree::Sequence(a.iter().map(tree_from_json).collect()),
        serde_json::Value::Object(m) => ValueTree::Mapping(
            m.iter().map(|(k, x)| (k.clone(), tree_from_json(x))).collect(),
        ),
    }
}

/// Converts a `serde_yaml::Value` node for node. A tag is dropped, as
/// `serde_yaml`'s own accessors (`as_str`, `as_mapping`) look through it. A
/// plain string key keeps its text; any other key is written with
/// `serde_yaml::to_string`, whose text ends in a line feed. A number keeps its
/// `Display` text, and becomes null where `serde_json` cannot hold it.
#[verifier::external_body]
fn json_from_yaml(v: &serde_yaml::Value) -> serde_json::Value {
    match v {
        serde_yaml::Value::Null => serde_json::Value::Null,
        serde_yaml::Value::Bool(b) => serde_json::Value::Bool(*b),
        serde_yaml::Value::Number(n) => {
            n.to_string().parse().map(serde_json::Value::Number).unwrap_or(serde_json::Value::Null)
        },
        serde_yaml::Value::String(s) => serde_json::Value::String(s.clone()),
        serde_yaml::Value::Sequence(a) => serde_json::Value::Array(a.iter().map(json_from_yaml).collect()),
        serde_yaml::Value::Mapping(m) => serde_json::Value::Object(
            m.iter().map(|(k, x)| (key_text(k), json_from_yaml(x))).collect(),
        ),
        serde_yaml::Value::Tagged(t) => json_from_yaml(&t.value),
    }
}

/// The text of a mapping key: a plain string as it is, any other key as
/// `serde_yaml::to_string` writes it (empty where that fails).
#[verifier::external_body]
fn key_text(k: &serde_yaml::Value) -> String {
    match k {
        serde_yaml::Value::String(s) => s.clone(),
        other => serde_yaml::to_string(other).unwrap_or_default(),
    }
}

/// Converts a tree to a `serde_json::Value` node for node; a number is read
/// back with `serde_json::Number::from_str`, and kept as a string where that fails.
#[verifier::external_body]
fn json_from_tree(t: &ValueTree) -> serde_json::Value {
    match t {
        ValueTree::Null => serde_json::Value::Null,
        ValueTree::Bool(b) => serde_json::Value::Bool(*b),
        ValueTree::Number(n) => n.parse().map(serde_json::Value::Number).unwrap_or_else(
            |_| serde_json::Value::String(n.clone()),
        ),
        ValueTree::Text(s) => serde_json::Value::String(s.clone()),
        ValueTree::Sequence(a) => serde_json::Value::Array(a.iter().map(json_from_tree).collect()),
        ValueTree::Mapping(m) => serde_json::Value::Object(
            m.iter().map(|(k, x)| (k.clone(), json_from_tree(x))).collect(),
        ),
    }
}

} // verus!
