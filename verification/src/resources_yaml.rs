//! Reading `resources.yaml`: each top-level key is a section, a list of
//! entries that carry an `id` and may carry a `name` (other attributes are
//! ignored); a section whose value is null is empty. The key `constants`
//! is reserved for named scalar constants, each declaring `type` and
//! `value` and nothing else, the value converted to its type here. An
//! empty document holds nothing.

use vstd::prelude::*;

use crate::coerce::{date_format, parse_date, parsed_date};
use crate::duration::{parse_duration, read_duration};
use crate::diagnostic::{diagnostic_views, Diagnostic, DiagnosticBody, DiagnosticBodyView, DiagnosticView, FileDiagnostic, FileDiagnosticKind};
use crate::model::{FieldValue, FieldValueView, Severity};
use crate::resources::{ResourceEntry, ResourceSection, Resources};
use crate::text::{concat, str_eq};
use crate::yaml::{
    parse_yaml, untag, untagged, yaml_as_str, yaml_document, yaml_is_null,
    yaml_null, yaml_text, YamlValue,
};

verus! {

// ── Errors ──────────────────────────────────────────────────────────

/// Why `resources.yaml` could not be read.
#[derive(Debug)]
pub enum ResourcesLoadError {
    ReadFailed(String),
    InvalidYaml(String),
    InvalidSection { section: String, detail: String },
    InvalidConstants { detail: String },
    UnsupportedConstantType { name: String, declared: String },
    InvalidConstantValue { name: String, reason: String },
}

pub enum ResourcesErrorView {
    ReadFailed(Seq<char>),
    InvalidYaml(Seq<char>),
    InvalidSection { section: Seq<char>, detail: Seq<char> },
    InvalidConstants { detail: Seq<char> },
    UnsupportedConstantType { name: Seq<char>, declared: Seq<char> },
    InvalidConstantValue { name: Seq<char>, reason: Seq<char> },
}

impl View for ResourcesLoadError {
    type V = ResourcesErrorView;

    open spec fn view(&self) -> ResourcesErrorView {
        match self {
            ResourcesLoadError::ReadFailed(detail) => ResourcesErrorView::ReadFailed(detail@),
            ResourcesLoadError::InvalidYaml(detail) => ResourcesErrorView::InvalidYaml(detail@),
            ResourcesLoadError::InvalidSection { section, detail } => ResourcesErrorView::InvalidSection {
                section: section@,
                detail: detail@,
            },
            ResourcesLoadError::InvalidConstants { detail } => ResourcesErrorView::InvalidConstants {
                detail: detail@,
            },
            ResourcesLoadError::UnsupportedConstantType { name, declared } =>
                ResourcesErrorView::UnsupportedConstantType { name: name@, declared: declared@ },
            ResourcesLoadError::InvalidConstantValue { name, reason } =>
                ResourcesErrorView::InvalidConstantValue { name: name@, reason: reason@ },
        }
    }
}

/// The scalar types a constant may declare.
pub open spec fn constant_types() -> Seq<char> {
    "string, integer, float, date, duration, boolean"@
}

/// An error's message.
pub open spec fn resources_error_text(error: ResourcesErrorView) -> Seq<char> {
    match error {
        ResourcesErrorView::ReadFailed(detail) => "failed to read resources file: "@ + detail,
        ResourcesErrorView::InvalidYaml(detail) => "invalid YAML in resources: "@ + detail,
        ResourcesErrorView::InvalidSection { section, detail } => "invalid resource section '"@
            + section + "': "@ + detail,
        ResourcesErrorView::InvalidConstants { detail } => "invalid constants section: "@ + detail,
        ResourcesErrorView::UnsupportedConstantType { name, declared } => "constant '"@ + name
            + "' has unsupported type '"@ + declared + "' (allowed: "@ + constant_types() + ")"@,
        ResourcesErrorView::InvalidConstantValue { name, reason } => "constant '"@ + name + "': "@
            + reason,
    }
}

impl ResourcesLoadError {
    /// The error's message.
    pub fn to_text(&self) -> (r: String)
        ensures
            r@ == resources_error_text(self@),
    {
        match self {
            ResourcesLoadError::ReadFailed(detail) => concat("failed to read resources file: ", detail.as_str()),
            ResourcesLoadError::InvalidYaml(detail) => concat("invalid YAML in resources: ", detail.as_str()),
            ResourcesLoadError::InvalidSection { section, detail } => {
                let head = concat("invalid resource section '", section.as_str());
                let middle = concat(head.as_str(), "': ");
                concat(middle.as_str(), detail.as_str())
            },
            ResourcesLoadError::InvalidConstants { detail } => concat("invalid constants section: ", detail.as_str()),
            ResourcesLoadError::UnsupportedConstantType { name, declared } => {
                let head = concat("constant '", name.as_str());
                let middle = concat(head.as_str(), "' has unsupported type '");
                let typed = concat(middle.as_str(), declared.as_str());
                let open = concat(typed.as_str(), "' (allowed: ");
                let listed = concat(open.as_str(), "string, integer, float, date, duration, boolean");
                concat(listed.as_str(), ")")
            },
            ResourcesLoadError::InvalidConstantValue { name, reason } => {
                let head = concat("constant '", name.as_str());
                let middle = concat(head.as_str(), "': ");
                concat(middle.as_str(), reason.as_str())
            },
        }
    }
}

// ── Structural messages ─────────────────────────────────────────────

/// How a value that has the wrong shape is described.
pub open spec fn unexpected(value: YamlValue) -> Seq<char> {
    match value {
        YamlValue::Null => "unit value"@,
        YamlValue::Bool(flag) => if flag {
            "boolean `true`"@
        } else {
            "boolean `false`"@
        },
        YamlValue::Number { integer: Some(_), text } => "integer `"@ + text@ + "`"@,
        YamlValue::Number { integer: None, text } => "floating point `"@ + text@ + "`"@,
        YamlValue::String(text) => "string \""@ + text@ + "\""@,
        YamlValue::Sequence(_) => "sequence"@,
        YamlValue::Mapping(_) => "map"@,
        YamlValue::Tagged(_) => "enum"@,
    }
}

/// The message for a value of the wrong shape.
pub open spec fn invalid_type(value: YamlValue, expected: Seq<char>) -> Seq<char> {
    "invalid type: "@ + unexpected(untagged(value)) + ", expected "@ + expected
}

fn unexpected_text(value: &YamlValue) -> (r: String)
    requires
        !(value is Tagged),
    ensures
        r@ == unexpected(*value),
{
    match value {
        YamlValue::Null => "unit value".to_owned(),
        YamlValue::Bool(flag) => if *flag {
            "boolean `true`".to_owned()
        } else {
            "boolean `false`".to_owned()
        },
        YamlValue::Number { integer, text } => {
            let head = match integer {
                Some(_) => concat("integer `", text.as_str()),
                None => concat("floating point `", text.as_str()),
            };
            concat(head.as_str(), "`")
        },
        YamlValue::String(text) => {
            let head = concat("string \"", text.as_str());
            concat(head.as_str(), "\"")
        },
        YamlValue::Sequence(_) => "sequence".to_owned(),
        YamlValue::Mapping(_) => "map".to_owned(),
        YamlValue::Tagged(_) => "enum".to_owned(),
    }
}

fn invalid_type_text(value: &YamlValue, expected: &str) -> (r: String)
    ensures
        r@ == invalid_type(*value, expected@),
{
    let described = unexpected_text(untag(value));
    let head = concat("invalid type: ", described.as_str());
    let middle = concat(head.as_str(), ", expected ");
    concat(middle.as_str(), expected)
}

// ── Sections ────────────────────────────────────────────────────────

/// An entry as read: its id and display name.
pub struct EntryView {
    pub id: Seq<char>,
    pub name: Option<Seq<char>>,
}

/// Whether a key is the string `name`.
pub open spec fn key_is(key: YamlValue, name: Seq<char>) -> bool {
    yaml_text(key) == Some(name)
}

/// The `id` and `name` an entry's mapping sets, reading its keys in order;
/// other keys are ignored.
pub open spec fn entry_fields(entries: Seq<(YamlValue, YamlValue)>) -> Result<(Option<Seq<char>>, Option<Seq<char>>), Seq<char>>
    decreases entries.len(),
{
    if entries.len() == 0 {
        Ok((None, None))
    } else {
        match entry_fields(entries.drop_last()) {
            Err(message) => Err(message),
            Ok((id, name)) => {
                let key = entries.last().0;
                let value = entries.last().1;
                if key_is(key, "id"@) {
                    match yaml_text(value) {
                        Some(text) => Ok((Some(text), name)),
                        None => Err(invalid_type(value, "a string"@)),
                    }
                } else if key_is(key, "name"@) {
                    if value is Null {
                        Ok((id, None))
                    } else {
                        match yaml_text(value) {
                            Some(text) => Ok((id, Some(text))),
                            None => Err(invalid_type(value, "a string"@)),
                        }
                    }
                } else {
                    Ok((id, name))
                }
            },
        }
    }
}

/// One entry of a section: a mapping with a string `id` and an optional
/// string `name`.
pub open spec fn entry_of(value: YamlValue) -> Result<EntryView, Seq<char>> {
    let fields = match untagged(value) {
        YamlValue::Mapping(entries) => entry_fields(entries@),
        YamlValue::Null => Ok((None, None)),
        _ => Err(invalid_type(value, "struct RawEntry"@)),
    };
    match fields {
        Err(message) => Err(message),
        Ok((Some(id), name)) => Ok(EntryView { id, name }),
        Ok((None, _)) => Err("missing field `id`"@),
    }
}

/// The entries of a section's items, or the first item's problem.
pub open spec fn entries_of(items: Seq<YamlValue>) -> Result<Seq<EntryView>, Seq<char>>
    decreases items.len(),
{
    if items.len() == 0 {
        Ok(Seq::empty())
    } else {
        match entries_of(items.drop_last()) {
            Err(message) => Err(message),
            Ok(done) => match entry_of(items.last()) {
                Ok(entry) => Ok(done.push(entry)),
                Err(message) => Err(message),
            },
        }
    }
}

/// A section: null is empty, a sequence lists entries.
pub open spec fn section_of(value: YamlValue) -> Result<Seq<EntryView>, Seq<char>> {
    if yaml_is_null(value) {
        Ok(Seq::empty())
    } else {
        match untagged(value) {
            YamlValue::Sequence(items) => entries_of(items@),
            _ => Err(invalid_type(value, "a sequence"@)),
        }
    }
}

pub open spec fn entry_view(entry: ResourceEntry) -> EntryView {
    EntryView { id: entry.id@, name: crate::diagnostic::optional_text(entry.name) }
}

pub open spec fn entry_views(entries: Seq<ResourceEntry>) -> Seq<EntryView> {
    entries.map_values(|entry: ResourceEntry| entry_view(entry))
}

fn read_entry(value: &YamlValue) -> (r: Result<ResourceEntry, String>)
    ensures
        match r {
            Ok(entry) => entry_of(*value) == Ok::<EntryView, Seq<char>>(entry_view(entry)),
            Err(message) => entry_of(*value) == Err::<EntryView, Seq<char>>(message@),
        },
{
    let inner = untag(value);
    let mut id: Option<String> = None;
    let mut name: Option<String> = None;
    match inner {
        YamlValue::Mapping(entries) => {
            let mut i: usize = 0;
            proof {
                reveal_strlit("id");
                reveal_strlit("name");
                assert(entries@.take(0) =~= Seq::<(YamlValue, YamlValue)>::empty());
            }
            while i < entries.len()
                invariant
                    i <= entries@.len(),
                    untagged(*value) == YamlValue::Mapping(*entries),
                    entry_fields(entries@.take(i as int)) == Ok::<(Option<Seq<char>>, Option<Seq<char>>), Seq<char>>(
                        (crate::diagnostic::optional_text(id), crate::diagnostic::optional_text(name)),
                    ),
                decreases entries@.len() - i,
            {
                proof {
                    assert(entries@.take(i + 1).drop_last() =~= entries@.take(i as int));
                    assert(entries@.take(i + 1).last() == entries@[i as int]);
                }
                let key = &entries[i].0;
                let item = &entries[i].1;
                let key_text = yaml_as_str(key);
                let is_id = match key_text {
                    Some(k) => str_eq(k, "id"),
                    None => false,
                };
                let is_name = match key_text {
                    Some(k) => str_eq(k, "name"),
                    None => false,
                };
                if is_id {
                    match yaml_as_str(item) {
                        Some(text) => {
                            id = Some(text.to_owned());
                        },
                        None => {
                            let message = invalid_type_text(item, "a string");
                            proof {
                                lemma_entry_fields_err(entries@.take(i + 1), entries@.skip(i + 1));
                                assert(entries@.take(i + 1) + entries@.skip(i + 1) =~= entries@);
                            }
                            return Err(message);
                        },
                    }
                } else if is_name {
                    match item {
                        YamlValue::Null => {
                            name = None;
                        },
                        _ => match yaml_as_str(item) {
                            Some(text) => {
                                name = Some(text.to_owned());
                            },
                            None => {
                                let message = invalid_type_text(item, "a string");
                                proof {
                                    lemma_entry_fields_err(entries@.take(i + 1), entries@.skip(i + 1));
                                    assert(entries@.take(i + 1) + entries@.skip(i + 1) =~= entries@);
                                }
                                return Err(message);
                            },
                        },
                    }
                }
                i = i + 1;
            }
            assert(entries@.take(entries@.len() as int) =~= entries@);
        },
        YamlValue::Null => {},
        _ => {
            return Err(invalid_type_text(value, "struct RawEntry"));
        },
    }
    match id {
        Some(id) => Ok(ResourceEntry { id, name }),
        None => {
            proof {
                reveal_strlit("missing field `id`");
            }
            Err("missing field `id`".to_owned())
        },
    }
}

proof fn lemma_entry_fields_err(prefix: Seq<(YamlValue, YamlValue)>, rest: Seq<(YamlValue, YamlValue)>)
    requires
        entry_fields(prefix) is Err,
    ensures
        entry_fields(prefix + rest) == entry_fields(prefix),
    decreases rest.len(),
{
    if rest.len() > 0 {
        lemma_entry_fields_err(prefix, rest.drop_last());
        assert((prefix + rest).drop_last() =~= prefix + rest.drop_last());
    }
}

proof fn lemma_entries_of_err(prefix: Seq<YamlValue>, rest: Seq<YamlValue>)
    requires
        entries_of(prefix) is Err,
    ensures
        entries_of(prefix + rest) == entries_of(prefix),
    decreases rest.len(),
{
    if rest.len() > 0 {
        lemma_entries_of_err(prefix, rest.drop_last());
        assert((prefix + rest).drop_last() =~= prefix + rest.drop_last());
    }
}

fn read_section(value: &YamlValue) -> (r: Result<Vec<ResourceEntry>, String>)
    ensures
        match r {
            Ok(entries) => section_of(*value) == Ok::<Seq<EntryView>, Seq<char>>(entry_views(entries@)),
            Err(message) => section_of(*value) == Err::<Seq<EntryView>, Seq<char>>(message@),
        },
{
    if yaml_null(value) {
        assert(entry_views(Seq::<ResourceEntry>::empty()) =~= Seq::<EntryView>::empty());
        return Ok(Vec::new());
    }
    let inner = untag(value);
    let items = match inner {
        YamlValue::Sequence(items) => items,
        _ => return Err(invalid_type_text(value, "a sequence")),
    };
    let mut out: Vec<ResourceEntry> = Vec::new();
    let mut i: usize = 0;
    assert(items@.take(0) =~= Seq::<YamlValue>::empty());
    assert(entry_views(out@) =~= Seq::<EntryView>::empty());
    while i < items.len()
        invariant
            i <= items@.len(),
            untagged(*value) == YamlValue::Sequence(*items),
            !yaml_is_null(*value),
            entries_of(items@.take(i as int)) == Ok::<Seq<EntryView>, Seq<char>>(entry_views(out@)),
        decreases items@.len() - i,
    {
        proof {
            assert(items@.take(i + 1).drop_last() =~= items@.take(i as int));
            assert(items@.take(i + 1).last() == items@[i as int]);
        }
        match read_entry(&items[i]) {
            Ok(entry) => {
                let ghost before = out@;
                out.push(entry);
                assert(entry_views(out@) =~= entry_views(before).push(entry_view(entry)));
            },
            Err(message) => {
                proof {
                    lemma_entries_of_err(items@.take(i + 1), items@.skip(i + 1));
                    assert(items@.take(i + 1) + items@.skip(i + 1) =~= items@);
                }
                return Err(message);
            },
        }
        i = i + 1;
    }
    assert(items@.take(items@.len() as int) =~= items@);
    Ok(out)
}

// ── Constants ───────────────────────────────────────────────────────

/// The `type` and `value` a constant's mapping sets, reading its keys in
/// order; any other key is refused.
pub open spec fn constant_fields(entries: Seq<(YamlValue, YamlValue)>) -> Result<(Option<Seq<char>>, Option<YamlValue>), Seq<char>>
    decreases entries.len(),
{
    if entries.len() == 0 {
        Ok((None, None))
    } else {
        match constant_fields(entries.drop_last()) {
            Err(message) => Err(message),
            Ok((declared, value)) => {
                let key = entries.last().0;
                let item = entries.last().1;
                if key_is(key, "type"@) {
                    match yaml_text(item) {
                        Some(text) => Ok((Some(text), value)),
                        None => Err(invalid_type(item, "a string"@)),
                    }
                } else if key_is(key, "value"@) {
                    Ok((declared, Some(item)))
                } else {
                    match yaml_text(key) {
                        Some(name) => Err("unknown field `"@ + name + "`, expected `type` or `value`"@),
                        None => Err(invalid_type(key, "field identifier"@)),
                    }
                }
            },
        }
    }
}

/// One constant's declaration: its type name and its value.
pub open spec fn constant_of(value: YamlValue) -> Result<(Seq<char>, YamlValue), Seq<char>> {
    let fields = match untagged(value) {
        YamlValue::Mapping(entries) => constant_fields(entries@),
        YamlValue::Null => Ok((None, None)),
        _ => Err(invalid_type(value, "struct RawConstant"@)),
    };
    match fields {
        Err(message) => Err(message),
        Ok((None, _)) => Err("missing field `type`"@),
        Ok((Some(_), None)) => Err("missing field `value`"@),
        Ok((Some(declared), Some(item))) => Ok((declared, item)),
    }
}

/// The declarations of a `constants` mapping, by name, in order.
pub open spec fn declarations(entries: Seq<(YamlValue, YamlValue)>) -> Result<Seq<(Seq<char>, Seq<char>, YamlValue)>, Seq<char>>
    decreases entries.len(),
{
    if entries.len() == 0 {
        Ok(Seq::empty())
    } else {
        match declarations(entries.drop_last()) {
            Err(message) => Err(message),
            Ok(done) => match yaml_text(entries.last().0) {
                None => Err(invalid_type(entries.last().0, "a string"@)),
                Some(name) => match constant_of(entries.last().1) {
                    Ok((declared, item)) => Ok(done.push((name, declared, item))),
                    Err(message) => Err(message),
                },
            },
        }
    }
}

/// The `constants` section's declarations: null declares none.
pub open spec fn constants_declared(value: YamlValue) -> Result<Seq<(Seq<char>, Seq<char>, YamlValue)>, Seq<char>> {
    if yaml_is_null(value) {
        Ok(Seq::empty())
    } else {
        match untagged(value) {
            YamlValue::Mapping(entries) => declarations(entries@),
            _ => Err(invalid_type(value, "a map"@)),
        }
    }
}

pub open spec fn bad_value(name: Seq<char>, reason: Seq<char>) -> ResourcesErrorView {
    ResourcesErrorView::InvalidConstantValue { name, reason }
}

/// A constant's value converted to the scalar type it declares.
pub open spec fn constant_value(name: Seq<char>, declared: Seq<char>, value: YamlValue) -> Result<FieldValueView, ResourcesErrorView> {
    if declared == "string"@ {
        match yaml_text(value) {
            Some(text) => Ok(FieldValueView::String(text)),
            None => Err(bad_value(name, "value must be a string"@)),
        }
    } else if declared == "integer"@ {
        match untagged(value) {
            YamlValue::Number { integer: Some(n), .. } => Ok(FieldValueView::Integer(n as int)),
            _ => Err(bad_value(name, "value must be an integer"@)),
        }
    } else if declared == "float"@ {
        match untagged(value) {
            YamlValue::Number { text, .. } => Ok(FieldValueView::Float(text@)),
            _ => Err(bad_value(name, "value must be a number"@)),
        }
    } else if declared == "boolean"@ {
        match untagged(value) {
            YamlValue::Bool(flag) => Ok(FieldValueView::Boolean(flag)),
            _ => Err(bad_value(name, "value must be a boolean"@)),
        }
    } else if declared == "date"@ {
        match yaml_text(value) {
            None => Err(bad_value(name, "value must be a YYYY-MM-DD string"@)),
            Some(text) => match parsed_date(text, date_format()) {
                Some(date) => Ok(FieldValueView::Date(date)),
                None => Err(bad_value(name, "'"@ + text + "' is not a valid YYYY-MM-DD date"@)),
            },
        }
    } else if declared == "duration"@ {
        match yaml_text(value) {
            None => Err(bad_value(name, "value must be a duration string (e.g. \"8h\")"@)),
            Some(text) => match read_duration(text) {
                Some(seconds) => Ok(FieldValueView::Duration(seconds)),
                None => Err(bad_value(name, "'"@ + text + "' is not a duration"@)),
            },
        }
    } else {
        Err(ResourcesErrorView::UnsupportedConstantType { name, declared })
    }
}

/// The declared constants' values, or the first one that does not convert.
pub open spec fn constant_values(declared: Seq<(Seq<char>, Seq<char>, YamlValue)>) -> Result<Seq<(Seq<char>, FieldValueView)>, ResourcesErrorView>
    decreases declared.len(),
{
    if declared.len() == 0 {
        Ok(Seq::empty())
    } else {
        match constant_values(declared.drop_last()) {
            Err(error) => Err(error),
            Ok(done) => {
                let (name, type_text, item) = declared.last();
                match constant_value(name, type_text, item) {
                    Ok(value) => Ok(done.push((name, value))),
                    Err(error) => Err(error),
                }
            },
        }
    }
}

proof fn lemma_constant_fields_err(prefix: Seq<(YamlValue, YamlValue)>, rest: Seq<(YamlValue, YamlValue)>)
    requires
        constant_fields(prefix) is Err,
    ensures
        constant_fields(prefix + rest) == constant_fields(prefix),
    decreases rest.len(),
{
    if rest.len() > 0 {
        lemma_constant_fields_err(prefix, rest.drop_last());
        assert((prefix + rest).drop_last() =~= prefix + rest.drop_last());
    }
}

proof fn lemma_declarations_err(prefix: Seq<(YamlValue, YamlValue)>, rest: Seq<(YamlValue, YamlValue)>)
    requires
        declarations(prefix) is Err,
    ensures
        declarations(prefix + rest) == declarations(prefix),
    decreases rest.len(),
{
    if rest.len() > 0 {
        lemma_declarations_err(prefix, rest.drop_last());
        assert((prefix + rest).drop_last() =~= prefix + rest.drop_last());
    }
}

proof fn lemma_constant_values_err(
    prefix: Seq<(Seq<char>, Seq<char>, YamlValue)>,
    rest: Seq<(Seq<char>, Seq<char>, YamlValue)>,
)
    requires
        constant_values(prefix) is Err,
    ensures
        constant_values(prefix + rest) == constant_values(prefix),
    decreases rest.len(),
{
    if rest.len() > 0 {
        lemma_constant_values_err(prefix, rest.drop_last());
        assert((prefix + rest).drop_last() =~= prefix + rest.drop_last());
    }
}

fn read_constant<'a>(value: &'a YamlValue) -> (r: Result<(String, &'a YamlValue), String>)
    ensures
        match r {
            Ok((declared, item)) => constant_of(*value) == Ok::<(Seq<char>, YamlValue), Seq<char>>((declared@, *item)),
            Err(message) => constant_of(*value) == Err::<(Seq<char>, YamlValue), Seq<char>>(message@),
        },
{
    let inner = untag(value);
    let mut declared: Option<String> = None;
    let mut item: Option<&'a YamlValue> = None;
    match inner {
        YamlValue::Mapping(entries) => {
            let mut i: usize = 0;
            proof {
                reveal_strlit("type");
                reveal_strlit("value");
                assert(entries@.take(0) =~= Seq::<(YamlValue, YamlValue)>::empty());
            }
            while i < entries.len()
                invariant
                    i <= entries@.len(),
                    untagged(*value) == YamlValue::Mapping(*entries),
                    constant_fields(entries@.take(i as int)) == Ok::<(Option<Seq<char>>, Option<YamlValue>), Seq<char>>(
                        (crate::diagnostic::optional_text(declared), match item {
                            Some(v) => Some(*v),
                            None => None,
                        }),
                    ),
                decreases entries@.len() - i,
            {
                proof {
                    assert(entries@.take(i + 1).drop_last() =~= entries@.take(i as int));
                    assert(entries@.take(i + 1).last() == entries@[i as int]);
                }
                let key = &entries[i].0;
                let entry_value = &entries[i].1;
                let key_text = yaml_as_str(key);
                let is_type = match key_text {
                    Some(k) => str_eq(k, "type"),
                    None => false,
                };
                let is_value = match key_text {
                    Some(k) => str_eq(k, "value"),
                    None => false,
                };
                if is_type {
                    match yaml_as_str(entry_value) {
                        Some(text) => {
                            declared = Some(text.to_owned());
                        },
                        None => {
                            let message = invalid_type_text(entry_value, "a string");
                            proof {
                                lemma_constant_fields_err(entries@.take(i + 1), entries@.skip(i + 1));
                                assert(entries@.take(i + 1) + entries@.skip(i + 1) =~= entries@);
                            }
                            return Err(message);
                        },
                    }
                } else if is_value {
                    item = Some(entry_value);
                } else {
                    let message = match key_text {
                        Some(k) => {
                            let head = concat("unknown field `", k);
                            concat(head.as_str(), "`, expected `type` or `value`")
                        },
                        None => invalid_type_text(key, "field identifier"),
                    };
                    proof {
                        lemma_constant_fields_err(entries@.take(i + 1), entries@.skip(i + 1));
                        assert(entries@.take(i + 1) + entries@.skip(i + 1) =~= entries@);
                    }
                    return Err(message);
                }
                i = i + 1;
            }
            assert(entries@.take(entries@.len() as int) =~= entries@);
        },
        YamlValue::Null => {},
        _ => {
            return Err(invalid_type_text(value, "struct RawConstant"));
        },
    }
    proof {
        reveal_strlit("missing field `type`");
        reveal_strlit("missing field `value`");
    }
    match declared {
        None => Err("missing field `type`".to_owned()),
        Some(declared) => match item {
            None => Err("missing field `value`".to_owned()),
            Some(item) => Ok((declared, item)),
        },
    }
}

fn bad_value_error(name: &str, reason: String) -> (r: ResourcesLoadError)
    ensures
        r@ == bad_value(name@, reason@),
{
    ResourcesLoadError::InvalidConstantValue { name: name.to_owned(), reason }
}

/// Convert a constant's value to the scalar type it declares.
pub fn coerce_constant(name: &str, declared: &str, value: &YamlValue) -> (r: Result<FieldValue, ResourcesLoadError>)
    ensures
        match r {
            Ok(converted) => constant_value(name@, declared@, *value) == Ok::<FieldValueView, ResourcesErrorView>(converted@),
            Err(error) => constant_value(name@, declared@, *value) == Err::<FieldValueView, ResourcesErrorView>(error@),
        },
{
    proof {
        reveal_strlit("string");
        reveal_strlit("integer");
        reveal_strlit("float");
        reveal_strlit("boolean");
        reveal_strlit("date");
        reveal_strlit("duration");
        reveal_strlit("%Y-%m-%d");
    }
    if str_eq(declared, "string") {
        match yaml_as_str(value) {
            Some(text) => Ok(FieldValue::String(text.to_owned())),
            None => Err(bad_value_error(name, "value must be a string".to_owned())),
        }
    } else if str_eq(declared, "integer") {
        match untag(value) {
            YamlValue::Number { integer: Some(n), .. } => Ok(FieldValue::Integer(*n)),
            _ => Err(bad_value_error(name, "value must be an integer".to_owned())),
        }
    } else if str_eq(declared, "float") {
        match untag(value) {
            YamlValue::Number { text, .. } => Ok(FieldValue::Float(text.clone())),
            _ => Err(bad_value_error(name, "value must be a number".to_owned())),
        }
    } else if str_eq(declared, "boolean") {
        match untag(value) {
            YamlValue::Bool(flag) => Ok(FieldValue::Boolean(*flag)),
            _ => Err(bad_value_error(name, "value must be a boolean".to_owned())),
        }
    } else if str_eq(declared, "date") {
        match yaml_as_str(value) {
            None => Err(bad_value_error(name, "value must be a YYYY-MM-DD string".to_owned())),
            Some(text) => match parse_date(text, "%Y-%m-%d") {
                Some(date) => Ok(FieldValue::Date(date)),
                None => {
                    let head = concat("'", text);
                    Err(bad_value_error(name, concat(head.as_str(), "' is not a valid YYYY-MM-DD date")))
                },
            },
        }
    } else if str_eq(declared, "duration") {
        match yaml_as_str(value) {
            None => Err(bad_value_error(name, "value must be a duration string (e.g. \"8h\")".to_owned())),
            Some(text) => match parse_duration(text) {
                Some(seconds) => Ok(FieldValue::Duration(seconds)),
                None => {
                    let head = concat("'", text);
                    Err(bad_value_error(name, concat(head.as_str(), "' is not a duration")))
                },
            },
        }
    } else {
        Err(ResourcesLoadError::UnsupportedConstantType { name: name.to_owned(), declared: declared.to_owned() })
    }
}

pub open spec fn constant_views(constants: Seq<(String, FieldValue)>) -> Seq<(Seq<char>, FieldValueView)> {
    constants.map_values(|c: (String, FieldValue)| (c.0@, c.1@))
}

pub open spec fn declaration_views<'a>(declared: Seq<(String, String, &'a YamlValue)>) -> Seq<(Seq<char>, Seq<char>, YamlValue)> {
    declared.map_values(|d: (String, String, &'a YamlValue)| (d.0@, d.1@, *d.2))
}

fn read_declarations<'a>(value: &'a YamlValue) -> (r: Result<Vec<(String, String, &'a YamlValue)>, String>)
    ensures
        match r {
            Ok(declared) => constants_declared(*value) == Ok::<Seq<(Seq<char>, Seq<char>, YamlValue)>, Seq<char>>(
                declaration_views(declared@),
            ),
            Err(message) => constants_declared(*value) == Err::<Seq<(Seq<char>, Seq<char>, YamlValue)>, Seq<char>>(message@),
        },
{
    if yaml_null(value) {
        let out: Vec<(String, String, &'a YamlValue)> = Vec::new();
        assert(declaration_views(out@) =~= Seq::<(Seq<char>, Seq<char>, YamlValue)>::empty());
        return Ok(out);
    }
    let inner = untag(value);
    let entries = match inner {
        YamlValue::Mapping(entries) => entries,
        _ => return Err(invalid_type_text(value, "a map")),
    };
    let mut out: Vec<(String, String, &'a YamlValue)> = Vec::new();
    let mut i: usize = 0;
    assert(entries@.take(0) =~= Seq::<(YamlValue, YamlValue)>::empty());
    assert(declaration_views(out@) =~= Seq::<(Seq<char>, Seq<char>, YamlValue)>::empty());
    while i < entries.len()
        invariant
            i <= entries@.len(),
            untagged(*value) == YamlValue::Mapping(*entries),
            !yaml_is_null(*value),
            declarations(entries@.take(i as int)) == Ok::<Seq<(Seq<char>, Seq<char>, YamlValue)>, Seq<char>>(
                declaration_views(out@),
            ),
        decreases entries@.len() - i,
    {
        proof {
            assert(entries@.take(i + 1).drop_last() =~= entries@.take(i as int));
            assert(entries@.take(i + 1).last() == entries@[i as int]);
        }
        let name = match yaml_as_str(&entries[i].0) {
            Some(name) => name,
            None => {
                let message = invalid_type_text(&entries[i].0, "a string");
                proof {
                    lemma_declarations_err(entries@.take(i + 1), entries@.skip(i + 1));
                    assert(entries@.take(i + 1) + entries@.skip(i + 1) =~= entries@);
                }
                return Err(message);
            },
        };
        match read_constant(&entries[i].1) {
            Ok((declared, item)) => {
                let ghost before = out@;
                out.push((name.to_owned(), declared, item));
                assert(declaration_views(out@) =~= declaration_views(before).push((name@, declared@, *item)));
            },
            Err(message) => {
                proof {
                    lemma_declarations_err(entries@.take(i + 1), entries@.skip(i + 1));
                    assert(entries@.take(i + 1) + entries@.skip(i + 1) =~= entries@);
                }
                return Err(message);
            },
        }
        i = i + 1;
    }
    assert(entries@.take(entries@.len() as int) =~= entries@);
    Ok(out)
}

fn read_constants(value: &YamlValue) -> (r: Result<Vec<(String, FieldValue)>, ResourcesLoadError>)
    ensures
        match constants_declared(*value) {
            Err(detail) => r matches Err(error) && error@ == ResourcesErrorView::InvalidConstants { detail },
            Ok(declared) => match r {
                Ok(constants) => constant_values(declared) == Ok::<Seq<(Seq<char>, FieldValueView)>, ResourcesErrorView>(
                    constant_views(constants@),
                ),
                Err(error) => constant_values(declared) == Err::<Seq<(Seq<char>, FieldValueView)>, ResourcesErrorView>(error@),
            },
        },
{
    let declared = match read_declarations(value) {
        Ok(declared) => declared,
        Err(detail) => return Err(ResourcesLoadError::InvalidConstants { detail }),
    };
    let ghost views = declaration_views(declared@);
    let mut out: Vec<(String, FieldValue)> = Vec::new();
    let mut i: usize = 0;
    assert(views.take(0) =~= Seq::<(Seq<char>, Seq<char>, YamlValue)>::empty());
    assert(constant_views(out@) =~= Seq::<(Seq<char>, FieldValueView)>::empty());
    while i < declared.len()
        invariant
            i <= declared@.len(),
            views == declaration_views(declared@),
            constants_declared(*value) == Ok::<Seq<(Seq<char>, Seq<char>, YamlValue)>, Seq<char>>(views),
            constant_values(views.take(i as int)) == Ok::<Seq<(Seq<char>, FieldValueView)>, ResourcesErrorView>(
                constant_views(out@),
            ),
        decreases declared@.len() - i,
    {
        proof {
            assert(views.take(i + 1).drop_last() =~= views.take(i as int));
            assert(views.take(i + 1).last() == views[i as int]);
        }
        let (name, declared_type, item) = (&declared[i].0, &declared[i].1, declared[i].2);
        match coerce_constant(name.as_str(), declared_type.as_str(), item) {
            Ok(converted) => {
                let ghost before = out@;
                out.push((name.clone(), converted));
                assert(constant_views(out@) =~= constant_views(before).push((name@, converted@)));
            },
            Err(error) => {
                proof {
                    lemma_constant_values_err(views.take(i + 1), views.skip(i + 1));
                    assert(views.take(i + 1) + views.skip(i + 1) =~= views);
                }
                return Err(error);
            },
        }
        i = i + 1;
    }
    assert(views.take(views.len() as int) =~= views);
    Ok(out)
}

// ── The document ────────────────────────────────────────────────────

/// What a resources document holds: its sections and its constants.
pub struct ResourcesView {
    pub sections: Seq<(Seq<char>, Seq<EntryView>)>,
    pub constants: Seq<(Seq<char>, FieldValueView)>,
}

pub open spec fn no_resources() -> ResourcesView {
    ResourcesView { sections: Seq::empty(), constants: Seq::empty() }
}

/// The first top-level key that is not a string.
pub open spec fn first_bad_key(entries: Seq<(YamlValue, YamlValue)>) -> Option<YamlValue>
    decreases entries.len(),
{
    if entries.len() == 0 {
        None
    } else {
        match first_bad_key(entries.drop_last()) {
            Some(key) => Some(key),
            None => if yaml_text(entries.last().0) is None {
                Some(entries.last().0)
            } else {
                None
            },
        }
    }
}

/// The top-level entries read in order: `constants` holds the constants,
/// every other key a section.
pub open spec fn document_fold(entries: Seq<(YamlValue, YamlValue)>) -> Result<ResourcesView, ResourcesErrorView>
    decreases entries.len(),
{
    if entries.len() == 0 {
        Ok(no_resources())
    } else {
        match document_fold(entries.drop_last()) {
            Err(error) => Err(error),
            Ok(done) => match yaml_text(entries.last().0) {
                None => Ok(done),
                Some(name) => if name == "constants"@ {
                    match constants_declared(entries.last().1) {
                        Err(detail) => Err(ResourcesErrorView::InvalidConstants { detail }),
                        Ok(declared) => match constant_values(declared) {
                            Err(error) => Err(error),
                            Ok(constants) => Ok(ResourcesView { sections: done.sections, constants }),
                        },
                    }
                } else {
                    match section_of(entries.last().1) {
                        Err(detail) => Err(ResourcesErrorView::InvalidSection { section: name, detail }),
                        Ok(section) => Ok(ResourcesView {
                            sections: done.sections.push((name, section)),
                            constants: done.constants,
                        }),
                    }
                },
            },
        }
    }
}

/// What a parsed resources document stands for: nothing for an empty
/// document; for a mapping with string keys, its sections and constants.
pub open spec fn resources_of(document: YamlValue) -> Result<ResourcesView, ResourcesErrorView> {
    if document is Null {
        Ok(no_resources())
    } else {
        match untagged(document) {
            YamlValue::Mapping(entries) => match first_bad_key(entries@) {
                Some(key) => Err(ResourcesErrorView::InvalidYaml(invalid_type(key, "a string"@))),
                None => document_fold(entries@),
            },
            YamlValue::Null => Ok(no_resources()),
            _ => Err(ResourcesErrorView::InvalidYaml(invalid_type(document, "a map"@))),
        }
    }
}

pub open spec fn section_views(sections: Seq<ResourceSection>) -> Seq<(Seq<char>, Seq<EntryView>)> {
    sections.map_values(|section: ResourceSection| (section.name@, entry_views(section.entries@)))
}

pub open spec fn resources_view(resources: Resources) -> ResourcesView {
    ResourcesView {
        sections: section_views(resources.sections@),
        constants: constant_views(resources.constants@),
    }
}

proof fn lemma_document_fold_err(prefix: Seq<(YamlValue, YamlValue)>, rest: Seq<(YamlValue, YamlValue)>)
    requires
        document_fold(prefix) is Err,
    ensures
        document_fold(prefix + rest) == document_fold(prefix),
    decreases rest.len(),
{
    if rest.len() > 0 {
        lemma_document_fold_err(prefix, rest.drop_last());
        assert((prefix + rest).drop_last() =~= prefix + rest.drop_last());
    }
}

proof fn lemma_first_bad_key_some(prefix: Seq<(YamlValue, YamlValue)>, rest: Seq<(YamlValue, YamlValue)>)
    requires
        first_bad_key(prefix) is Some,
    ensures
        first_bad_key(prefix + rest) == first_bad_key(prefix),
    decreases rest.len(),
{
    if rest.len() > 0 {
        lemma_first_bad_key_some(prefix, rest.drop_last());
        assert((prefix + rest).drop_last() =~= prefix + rest.drop_last());
    }
}

/// The resources a parsed `resources.yaml` document declares, or why it
/// declares none.
pub fn resources_from_document(document: &YamlValue) -> (r: Result<Resources, ResourcesLoadError>)
    ensures
        match r {
            Ok(resources) => resources_of(*document) == Ok::<ResourcesView, ResourcesErrorView>(
                resources_view(resources),
            ) && resources.document_loaded,
            Err(error) => resources_of(*document) == Err::<ResourcesView, ResourcesErrorView>(error@),
        },
{
    let empty = Resources { sections: Vec::new(), constants: Vec::new(), document_loaded: true };
    proof {
        assert(section_views(empty.sections@) =~= Seq::<(Seq<char>, Seq<EntryView>)>::empty());
        assert(constant_views(empty.constants@) =~= Seq::<(Seq<char>, FieldValueView)>::empty());
    }
    if let YamlValue::Null = document {
        return Ok(empty);
    }
    let inner = untag(document);
    let entries = match inner {
        YamlValue::Mapping(entries) => entries,
        YamlValue::Null => return Ok(empty),
        _ => return Err(ResourcesLoadError::InvalidYaml(invalid_type_text(document, "a map"))),
    };
    let mut k: usize = 0;
    assert(entries@.take(0) =~= Seq::<(YamlValue, YamlValue)>::empty());
    while k < entries.len()
        invariant
            k <= entries@.len(),
            untagged(*document) == YamlValue::Mapping(*entries),
            !(*document is Null),
            first_bad_key(entries@.take(k as int)) is None,
        decreases entries@.len() - k,
    {
        proof {
            assert(entries@.take(k + 1).drop_last() =~= entries@.take(k as int));
            assert(entries@.take(k + 1).last() == entries@[k as int]);
        }
        if yaml_as_str(&entries[k].0).is_none() {
            let message = invalid_type_text(&entries[k].0, "a string");
            proof {
                lemma_first_bad_key_some(entries@.take(k + 1), entries@.skip(k + 1));
                assert(entries@.take(k + 1) + entries@.skip(k + 1) =~= entries@);
            }
            return Err(ResourcesLoadError::InvalidYaml(message));
        }
        k = k + 1;
    }
    assert(entries@.take(entries@.len() as int) =~= entries@);
    let mut sections: Vec<ResourceSection> = Vec::new();
    let mut constants: Vec<(String, FieldValue)> = Vec::new();
    let mut i: usize = 0;
    proof {
        reveal_strlit("constants");
    }
    while i < entries.len()
        invariant
            i <= entries@.len(),
            untagged(*document) == YamlValue::Mapping(*entries),
            !(*document is Null),
            first_bad_key(entries@) is None,
            document_fold(entries@.take(i as int)) == Ok::<ResourcesView, ResourcesErrorView>(
                ResourcesView { sections: section_views(sections@), constants: constant_views(constants@) },
            ),
        decreases entries@.len() - i,
    {
        proof {
            assert(entries@.take(i + 1).drop_last() =~= entries@.take(i as int));
            assert(entries@.take(i + 1).last() == entries@[i as int]);
        }
        match yaml_as_str(&entries[i].0) {
            None => {},
            Some(name) => if str_eq(name, "constants") {
                match read_constants(&entries[i].1) {
                    Ok(values) => {
                        constants = values;
                    },
                    Err(error) => {
                        proof {
                            lemma_document_fold_err(entries@.take(i + 1), entries@.skip(i + 1));
                            assert(entries@.take(i + 1) + entries@.skip(i + 1) =~= entries@);
                        }
                        return Err(error);
                    },
                }
            } else {
                match read_section(&entries[i].1) {
                    Ok(section_entries) => {
                        let ghost before = sections@;
                        sections.push(ResourceSection { name: name.to_owned(), entries: section_entries });
                        assert(section_views(sections@) =~= section_views(before).push(
                            (name@, entry_views(section_entries@)),
                        ));
                    },
                    Err(detail) => {
                        proof {
                            lemma_document_fold_err(entries@.take(i + 1), entries@.skip(i + 1));
                            assert(entries@.take(i + 1) + entries@.skip(i + 1) =~= entries@);
                        }
                        return Err(ResourcesLoadError::InvalidSection { section: name.to_owned(), detail });
                    },
                }
            },
        }
        i = i + 1;
    }
    assert(entries@.take(entries@.len() as int) =~= entries@);
    Ok(Resources { sections, constants, document_loaded: true })
}

/// Parse `resources.yaml` from its text.
pub fn parse_resources(yaml: &str) -> (r: Result<Resources, ResourcesLoadError>)
    ensures
        match yaml_document(yaml@) {
            Err(detail) => r matches Err(error) && error@ == ResourcesErrorView::InvalidYaml(detail),
            Ok(document) => match r {
                Ok(resources) => resources_of(document) == Ok::<ResourcesView, ResourcesErrorView>(
                    resources_view(resources),
                ) && resources.document_loaded,
                Err(error) => resources_of(document) == Err::<ResourcesView, ResourcesErrorView>(error@),
            },
        },
{
    match parse_yaml(yaml) {
        Err(detail) => Err(ResourcesLoadError::InvalidYaml(detail)),
        Ok(document) => resources_from_document(&document),
    }
}

/// The detail a resources error is reported with: the underlying message
/// for a read or YAML failure, the full message otherwise.
pub open spec fn error_detail(error: ResourcesErrorView) -> Seq<char> {
    match error {
        ResourcesErrorView::ReadFailed(detail) => detail,
        ResourcesErrorView::InvalidYaml(detail) => detail,
        _ => resources_error_text(error),
    }
}

/// A resources error as the one finding it is reported as: an error on the
/// resources file.
pub fn parse_errors_to_diagnostics(error: ResourcesLoadError, resources_path: &str) -> (r: Vec<Diagnostic>)
    ensures
        diagnostic_views(r@) == seq![DiagnosticView {
            severity: Severity::Error,
            body: DiagnosticBodyView::ReadError { path: resources_path@, detail: error_detail(error@) },
        }],
{
    let detail = match &error {
        ResourcesLoadError::ReadFailed(detail) => detail.clone(),
        ResourcesLoadError::InvalidYaml(detail) => detail.clone(),
        other => other.to_text(),
    };
    let diagnostic = Diagnostic {
        severity: Severity::Error,
        body: DiagnosticBody::File(FileDiagnostic {
            path: resources_path.to_owned(),
            kind: FileDiagnosticKind::ReadError { detail },
        }),
    };
    let out = vec![diagnostic];
    assert(diagnostic_views(out@) =~= seq![diagnostic@]);
    out
}

} // verus!
