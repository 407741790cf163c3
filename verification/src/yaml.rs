//! YAML documents as plain values: the tree the frontmatter and the
//! coercion rules read, and the one call that builds it from text.

use vstd::prelude::*;

verus! {

/// The YAML library's value type, carried only inside the parse below.
#[verifier::external_type_specification]
#[verifier::external_body]
pub struct ExYamlDocumentValue(serde_yaml::Value);

/// A parsed YAML value.
#[derive(Debug)]
pub enum YamlValue {
    Null,
    Bool(bool),
    /// A number: its value when it is an integer that fits `i64`, and the
    /// text the YAML library displays it as.
    Number { integer: Option<i64>, text: String },
    String(String),
    Sequence(Vec<YamlValue>),
    /// Entries in document order.
    Mapping(Vec<(YamlValue, YamlValue)>),
    /// A value carrying an explicit `!tag`.
    Tagged(Box<YamlValue>),
}

/// What the YAML library makes of a document: its value, or the display
/// text of its error.
pub uninterp spec fn yaml_document(text: Seq<char>) -> Result<YamlValue, Seq<char>>;

/// One value of the YAML library's tree as a [`YamlValue`], variant for
/// variant; the number keeps `Number::as_i64` and its display text.
#[verifier::external_body]
fn yaml_value_of(value: &serde_yaml::Value) -> YamlValue {
    match value {
        serde_yaml::Value::Null => YamlValue::Null,
        serde_yaml::Value::Bool(flag) => YamlValue::Bool(*flag),
        serde_yaml::Value::Number(n) => YamlValue::Number { integer: n.as_i64(), text: n.to_string() },
        serde_yaml::Value::String(text) => YamlValue::String(text.clone()),
        serde_yaml::Value::Sequence(items) => YamlValue::Sequence(items.iter().map(yaml_value_of).collect()),
        serde_yaml::Value::Mapping(map) => YamlValue::Mapping(
            map.iter().map(|(k, v)| (yaml_value_of(k), yaml_value_of(v))).collect(),
        ),
        serde_yaml::Value::Tagged(tagged) => YamlValue::Tagged(Box::new(yaml_value_of(&tagged.value))),
    }
}

/// Parses `text` with `serde_yaml::from_str` into the library's value tree
/// and hands it back as a [`YamlValue`], or the error's display text. The
/// contract claims that the outcome depends on the text alone.
#[verifier::external_body]
pub(crate) fn parse_yaml(text: &str) -> (r: Result<YamlValue, String>)
    ensures
        match r {
            Ok(value) => yaml_document(text@) == Ok::<YamlValue, Seq<char>>(value),
            Err(error) => yaml_document(text@) == Err::<YamlValue, Seq<char>>(error@),
        },
{
    match serde_yaml::from_str::<serde_yaml::Value>(text) {
        Ok(value) => Ok(yaml_value_of(&value)),
        Err(error) => Err(error.to_string()),
    }
}

/// The value with its tags removed.
pub open spec fn untagged(value: YamlValue) -> YamlValue
    decreases value,
{
    match value {
        YamlValue::Tagged(inner) => untagged(*inner),
        _ => value,
    }
}

/// The value behind any tags.
pub fn untag(value: &YamlValue) -> (r: &YamlValue)
    ensures
        *r == untagged(*value),
        !(r is Tagged),
    decreases value,
{
    match value {
        YamlValue::Tagged(inner) => untag(inner),
        _ => value,
    }
}

/// The string a key names, behind any tags.
pub open spec fn key_string(key: YamlValue) -> Option<String> {
    match untagged(key) {
        YamlValue::String(text) => Some(text),
        _ => None,
    }
}

/// The string a key names, taken out of it.
pub fn into_key(key: YamlValue) -> (r: Option<String>)
    ensures
        r == key_string(key),
    decreases key,
{
    match key {
        YamlValue::String(text) => Some(text),
        YamlValue::Tagged(inner) => into_key(*inner),
        _ => None,
    }
}

/// The text of a string value (`Value::as_str`).
pub open spec fn yaml_text(value: YamlValue) -> Option<Seq<char>> {
    match untagged(value) {
        YamlValue::String(text) => Some(text@),
        _ => None,
    }
}

/// Whether the value is null (`Value::is_null`).
pub open spec fn yaml_is_null(value: YamlValue) -> bool {
    untagged(value) is Null
}

/// The name of a value's kind, as messages give it.
pub open spec fn kind_name(value: YamlValue) -> Seq<char> {
    match value {
        YamlValue::Null => "null"@,
        YamlValue::Bool(_) => "boolean"@,
        YamlValue::Number { .. } => "number"@,
        YamlValue::String(_) => "string"@,
        YamlValue::Sequence(_) => "sequence"@,
        YamlValue::Mapping(_) => "mapping"@,
        YamlValue::Tagged(_) => "tagged"@,
    }
}

/// The name of a value's kind.
pub fn yaml_kind_name(value: &YamlValue) -> (r: &'static str)
    ensures
        r@ == kind_name(*value),
{
    proof {
        reveal_strlit("null");
        reveal_strlit("boolean");
        reveal_strlit("number");
        reveal_strlit("string");
        reveal_strlit("sequence");
        reveal_strlit("mapping");
        reveal_strlit("tagged");
    }
    match value {
        YamlValue::Null => "null",
        YamlValue::Bool(_) => "boolean",
        YamlValue::Number { .. } => "number",
        YamlValue::String(_) => "string",
        YamlValue::Sequence(_) => "sequence",
        YamlValue::Mapping(_) => "mapping",
        YamlValue::Tagged(_) => "tagged",
    }
}

/// The text of a string value.
pub fn yaml_as_str(value: &YamlValue) -> (r: Option<&str>)
    ensures
        match r {
            Some(text) => yaml_text(*value) == Some(text@),
            None => yaml_text(*value) is None,
        },
{
    match untag(value) {
        YamlValue::String(text) => Some(text.as_str()),
        _ => None,
    }
}

/// Whether the value is null.
pub fn yaml_null(value: &YamlValue) -> (r: bool)
    ensures
        r == yaml_is_null(*value),
{
    match untag(value) {
        YamlValue::Null => true,
        _ => false,
    }
}

} // verus!
