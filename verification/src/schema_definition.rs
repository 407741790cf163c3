//! The schema as a schema editor sees it: every field's full definition,
//! the YAML text of its fill-mechanism blocks, and the type system's own
//! tables (which aggregate functions reduce each type, which generators
//! may default it), with the content hash of the file they came from.
//!
//! The typed schema comes parsed; the blocks' text comes from a second,
//! generic parse of the same text, re-serialized block by block.

use vstd::prelude::*;
use vstd::string::StringSliceAdditionalSpecFns;

use crate::coerce::{bound_seconds, bound_value, coerce_value, coerced};
use crate::content_hash::{content_hash, hex_text, sha256};
use crate::diagnostic::{optional_text, FieldValueError};
use crate::model::{texts_of, FieldType, FieldValue};
use crate::schema::{
    config_type, AggregateFunction, DefaultValue, FieldDefinition, FieldTypeConfig, Generator, Schema,
};
use crate::schema_check::{allowed_aggregates, generator_fits};
use crate::schema_data::all_field_types;
use crate::text::{chars_of, decimal, decimal_text, is_whitespace, lemma_skip_ws_back_bounds, skip_ws_back, slice_chars, string_of, str_eq};
use crate::yaml::{parse_yaml, untag, untagged, yaml_document, YamlValue};

verus! {

// ── YAML text of a value ────────────────────────────────────────────

/// What the YAML library's serializer writes for a value (tags dropped).
pub uninterp spec fn yaml_serialization(value: YamlValue) -> Result<Seq<char>, Seq<char>>;

/// A value back in the YAML library's tree, variant for variant; a number
/// is read back from its display text, and tags are dropped.
#[verifier::external_body]
fn document_value_of(value: &YamlValue) -> serde_yaml::Value {
    match value {
        YamlValue::Null => serde_yaml::Value::Null,
        YamlValue::Bool(flag) => serde_yaml::Value::Bool(*flag),
        YamlValue::Number { text, .. } => match text.parse::<serde_yaml::Number>() {
            Ok(number) => serde_yaml::Value::Number(number),
            Err(_) => serde_yaml::Value::String(text.clone()),
        },
        YamlValue::String(text) => serde_yaml::Value::String(text.clone()),
        YamlValue::Sequence(items) => serde_yaml::Value::Sequence(items.iter().map(document_value_of).collect()),
        YamlValue::Mapping(entries) => serde_yaml::Value::Mapping(
            entries.iter().map(|(k, v)| (document_value_of(k), document_value_of(v))).collect(),
        ),
        YamlValue::Tagged(inner) => document_value_of(inner),
    }
}

/// Calls `serde_yaml::to_string` on the value; the contract names the text
/// or the error's display text.
#[verifier::external_body]
fn serialize_yaml(value: &YamlValue) -> (r: Result<String, String>)
    ensures
        match r {
            Ok(text) => yaml_serialization(*value) == Ok::<Seq<char>, Seq<char>>(text@),
            Err(error) => yaml_serialization(*value) == Err::<Seq<char>, Seq<char>>(error@),
        },
{
    serde_yaml::to_string(&document_value_of(value)).map_err(|error| error.to_string())
}

/// `str::trim_end`: trailing whitespace removed.
pub open spec fn trimmed_end(s: Seq<char>) -> Seq<char> {
    s.take(skip_ws_back(s, s.len() as int))
}

/// A value as YAML text without the trailing newline the serializer adds;
/// empty when it cannot be serialized.
pub open spec fn block_text_of(value: YamlValue) -> Seq<char> {
    match yaml_serialization(value) {
        Ok(text) => trimmed_end(text),
        Err(_) => Seq::empty(),
    }
}

fn yaml_text_of(value: &YamlValue) -> (r: String)
    ensures
        r@ == block_text_of(*value),
{
    match serialize_yaml(value) {
        Ok(text) => {
            let chars = chars_of(text.as_str());
            let mut end: usize = chars.len();
            while end > 0 && is_whitespace(chars[end - 1])
                invariant
                    end <= chars@.len(),
                    chars@ == text@,
                    skip_ws_back(chars@, end as int) == skip_ws_back(chars@, chars@.len() as int),
                decreases end,
            {
                end = end - 1;
            }
            proof {
                lemma_skip_ws_back_bounds(chars@, chars@.len() as int);
            }
            let piece = slice_chars(chars.as_slice(), 0, end);
            let kept = string_of(piece.as_slice());
            proof {
                assert(chars@.subrange(0, end as int) =~= chars@.take(end as int));
            }
            kept
        },
        Err(_) => String::new(),
    }
}

// ── Looking up a key ────────────────────────────────────────────────

pub open spec fn is_key(entry: (YamlValue, YamlValue), key: Seq<char>) -> bool {
    match entry.0 {
        YamlValue::String(text) => text@ == key,
        _ => false,
    }
}

/// Position of the first entry whose key is the string `key`.
pub open spec fn entry_index(entries: Seq<(YamlValue, YamlValue)>, key: Seq<char>) -> Option<int>
    decreases entries.len(),
{
    if entries.len() == 0 {
        None
    } else {
        match entry_index(entries.drop_last(), key) {
            Some(i) => Some(i),
            None => if is_key(entries.last(), key) {
                Some(entries.len() - 1)
            } else {
                None
            },
        }
    }
}

proof fn lemma_entry_index(entries: Seq<(YamlValue, YamlValue)>, key: Seq<char>)
    ensures
        entry_index(entries, key) matches Some(i) ==> 0 <= i < entries.len() && is_key(entries[i], key)
            && forall|k: int| 0 <= k < i ==> !is_key(#[trigger] entries[k], key),
        entry_index(entries, key) is None ==> forall|k: int| 0 <= k < entries.len() ==> !is_key(#[trigger] entries[k], key),
    decreases entries.len(),
{
    if entries.len() > 0 {
        let init = entries.drop_last();
        lemma_entry_index(init, key);
        assert forall|k: int| 0 <= k < init.len() implies init[k] == entries[k] by {}
    }
}

/// The value under the string key `key` of a mapping (behind any tags).
pub open spec fn entry_of(value: YamlValue, key: Seq<char>) -> Option<YamlValue> {
    match untagged(value) {
        YamlValue::Mapping(entries) => match entry_index(entries@, key) {
            Some(i) => Some(entries@[i].1),
            None => None,
        },
        _ => None,
    }
}

fn get_entry<'a>(value: &'a YamlValue, key: &str) -> (r: Option<&'a YamlValue>)
    ensures
        match r {
            Some(found) => entry_of(*value, key@) == Some(*found),
            None => entry_of(*value, key@) is None,
        },
{
    let inner = untag(value);
    match inner {
        YamlValue::Mapping(entries) => {
            proof {
                lemma_entry_index(entries@, key@);
                assert(untagged(*value) == YamlValue::Mapping(*entries));
            }
            let mut i: usize = 0;
            while i < entries.len()
                invariant
                    i <= entries@.len(),
                    untagged(*value) == YamlValue::Mapping(*entries),
                    forall|k: int| 0 <= k < i ==> !is_key(#[trigger] entries@[k], key@),
                decreases entries@.len() - i,
            {
                let matched = match &entries[i].0 {
                    YamlValue::String(text) => str_eq(text.as_str(), key),
                    _ => false,
                };
                assert(matched == is_key(entries@[i as int], key@));
                if matched {
                    proof {
                        lemma_entry_index(entries@, key@);
                        if let Some(j) = entry_index(entries@, key@) {
                            assert(j == i);
                        }
                    }
                    return Some(&entries[i].1);
                }
                i = i + 1;
            }
            None
        },
        _ => None,
    }
}

// ── Field definitions ───────────────────────────────────────────────

/// The type-specific part of a field definition.
#[derive(Debug, Clone)]
pub enum FieldShape {
    /// `date`, `color`, `boolean`, `list`.
    Scalar,
    /// `integer` and `float`: inclusive bounds, as written.
    Numeric { min: Option<String>, max: Option<String> },
    /// `duration`: inclusive bounds in seconds.
    Duration { min_seconds: Option<i64>, max_seconds: Option<i64> },
    /// `string`: an optional pattern.
    Text { pattern: Option<String> },
    /// `choice` and `multichoice`: the allowed values, in order.
    Values { values: Vec<String> },
    /// `link` and `links`: cycle policy and inverse name.
    Relation { allow_cycles: Option<bool>, inverse: Option<String> },
}

pub enum FieldShapeView {
    Scalar,
    Numeric { min: Option<Seq<char>>, max: Option<Seq<char>> },
    Duration { min_seconds: Option<int>, max_seconds: Option<int> },
    Text { pattern: Option<Seq<char>> },
    Values { values: Seq<Seq<char>> },
    Relation { allow_cycles: Option<bool>, inverse: Option<Seq<char>> },
}

pub open spec fn optional_int(n: Option<i64>) -> Option<int> {
    match n {
        Some(v) => Some(v as int),
        None => None,
    }
}

impl View for FieldShape {
    type V = FieldShapeView;

    open spec fn view(&self) -> FieldShapeView {
        match self {
            FieldShape::Scalar => FieldShapeView::Scalar,
            FieldShape::Numeric { min, max } => FieldShapeView::Numeric { min: optional_text(*min), max: optional_text(*max) },
            FieldShape::Duration { min_seconds, max_seconds } => FieldShapeView::Duration {
                min_seconds: optional_int(*min_seconds),
                max_seconds: optional_int(*max_seconds),
            },
            FieldShape::Text { pattern } => FieldShapeView::Text { pattern: optional_text(*pattern) },
            FieldShape::Values { values } => FieldShapeView::Values { values: texts_of(values@) },
            FieldShape::Relation { allow_cycles, inverse } => FieldShapeView::Relation {
                allow_cycles: *allow_cycles,
                inverse: optional_text(*inverse),
            },
        }
    }
}

/// The shape of a type configuration.
pub open spec fn shape_of(config: FieldTypeConfig) -> FieldShapeView {
    match config {
        FieldTypeConfig::String { pattern } => FieldShapeView::Text { pattern: optional_text(pattern) },
        FieldTypeConfig::Choice { values } => FieldShapeView::Values { values: texts_of(values@) },
        FieldTypeConfig::Multichoice { values } => FieldShapeView::Values { values: texts_of(values@) },
        FieldTypeConfig::Integer { min, max } => FieldShapeView::Numeric { min: optional_text(min), max: optional_text(max) },
        FieldTypeConfig::Float { min, max } => FieldShapeView::Numeric { min: optional_text(min), max: optional_text(max) },
        FieldTypeConfig::Duration { min, max } => FieldShapeView::Duration {
            min_seconds: bound_seconds(min),
            max_seconds: bound_seconds(max),
        },
        FieldTypeConfig::Date => FieldShapeView::Scalar,
        FieldTypeConfig::Color => FieldShapeView::Scalar,
        FieldTypeConfig::Boolean => FieldShapeView::Scalar,
        FieldTypeConfig::List => FieldShapeView::Scalar,
        FieldTypeConfig::Link { allow_cycles, inverse } => FieldShapeView::Relation {
            allow_cycles,
            inverse: optional_text(inverse),
        },
        FieldTypeConfig::Links { allow_cycles, inverse } => FieldShapeView::Relation {
            allow_cycles,
            inverse: optional_text(inverse),
        },
    }
}

impl FieldShape {
    /// The shape of a type configuration.
    pub fn from_config(config: &FieldTypeConfig) -> (r: FieldShape)
        ensures
            r@ == shape_of(*config),
    {
        match config {
            FieldTypeConfig::String { pattern } => FieldShape::Text { pattern: pattern.clone() },
            FieldTypeConfig::Choice { values } => FieldShape::Values { values: values.clone() },
            FieldTypeConfig::Multichoice { values } => FieldShape::Values { values: values.clone() },
            FieldTypeConfig::Integer { min, max } => FieldShape::Numeric { min: min.clone(), max: max.clone() },
            FieldTypeConfig::Float { min, max } => FieldShape::Numeric { min: min.clone(), max: max.clone() },
            FieldTypeConfig::Duration { min, max } => FieldShape::Duration {
                min_seconds: bound_value(min),
                max_seconds: bound_value(max),
            },
            FieldTypeConfig::Date => FieldShape::Scalar,
            FieldTypeConfig::Color => FieldShape::Scalar,
            FieldTypeConfig::Boolean => FieldShape::Scalar,
            FieldTypeConfig::List => FieldShape::Scalar,
            FieldTypeConfig::Link { allow_cycles, inverse } => FieldShape::Relation {
                allow_cycles: *allow_cycles,
                inverse: inverse.clone(),
            },
            FieldTypeConfig::Links { allow_cycles, inverse } => FieldShape::Relation {
                allow_cycles: *allow_cycles,
                inverse: inverse.clone(),
            },
        }
    }
}

/// A field's `default:`.
#[derive(Debug, Clone)]
pub enum DefaultData {
    /// A generator, applied when an item is created.
    Generator { generator: Generator },
    /// A literal, coerced through the field's own definition.
    Literal { value: FieldValue },
    /// A literal the field's coercion rejects: its YAML text and why.
    Invalid { text: String, error: FieldValueError },
}

/// `value` is how a literal default reads as YAML.
pub open spec fn literal_of(value: YamlValue, default: DefaultValue) -> bool {
    match default {
        DefaultValue::String(text) => value == YamlValue::String(text),
        DefaultValue::Integer(n) => value matches YamlValue::Number { integer, text } && integer == Some(n)
            && text@ == decimal(n as int),
        DefaultValue::Float(text) => value == YamlValue::Number { integer: None, text },
        DefaultValue::Bool(flag) => value == YamlValue::Bool(flag),
        DefaultValue::Generator(_) => false,
    }
}

/// `data` is the wire form of `definition`'s default: the generator, or
/// the literal as the field's coercion takes it, or its text and the
/// coercion's error.
pub open spec fn default_is(data: Option<DefaultData>, definition: FieldDefinition) -> bool {
    match definition.default {
        None => data is None,
        Some(DefaultValue::Generator(generator)) => data matches Some(DefaultData::Generator { generator: g })
            && g == generator,
        Some(default) => exists|literal: YamlValue|
            literal_of(literal, default) && match data {
                Some(DefaultData::Literal { value }) => coerced(literal, definition.type_config) == Ok::<
                    crate::model::FieldValueView,
                    crate::diagnostic::FieldValueErrorView,
                >(value@),
                Some(DefaultData::Invalid { text, error }) => coerced(literal, definition.type_config) == Err::<
                    crate::model::FieldValueView,
                    crate::diagnostic::FieldValueErrorView,
                >(error@) && text@ == block_text_of(literal),
                _ => false,
            },
    }
}

/// The wire form of a field's `default:`.
pub fn default_data(definition: &FieldDefinition) -> (r: Option<DefaultData>)
    ensures
        default_is(r, *definition),
{
    let literal = match &definition.default {
        None => return None,
        Some(DefaultValue::Generator(generator)) => return Some(DefaultData::Generator { generator: *generator }),
        Some(DefaultValue::String(text)) => YamlValue::String(text.clone()),
        Some(DefaultValue::Integer(n)) => YamlValue::Number { integer: Some(*n), text: decimal_text(*n) },
        Some(DefaultValue::Float(text)) => YamlValue::Number { integer: None, text: text.clone() },
        Some(DefaultValue::Bool(flag)) => YamlValue::Bool(*flag),
    };
    assert(literal_of(literal, definition.default->0));
    match coerce_value(&literal, &definition.type_config) {
        Ok(value) => Some(DefaultData::Literal { value }),
        Err(error) => Some(DefaultData::Invalid { text: yaml_text_of(&literal), error }),
    }
}

/// The fill-mechanism blocks of a field, each as YAML text.
#[derive(Debug, Clone)]
pub struct DerivedBlocks {
    pub compute: Option<String>,
    pub when: Option<String>,
    pub pull: Option<String>,
    pub aggregate: Option<String>,
}

/// The text of the block under `key` of a field's raw mapping.
pub open spec fn block_of(raw_field: Option<YamlValue>, key: Seq<char>) -> Option<Seq<char>> {
    match raw_field {
        Some(field) => match entry_of(field, key) {
            Some(block) => Some(block_text_of(block)),
            None => None,
        },
        None => None,
    }
}

fn block_text(raw_field: Option<&YamlValue>, key: &str) -> (r: Option<String>)
    ensures
        optional_text(r) == block_of(match raw_field {
            Some(f) => Some(*f),
            None => None,
        }, key@),
{
    match raw_field {
        Some(field) => match get_entry(field, key) {
            Some(block) => Some(yaml_text_of(block)),
            None => None,
        },
        None => None,
    }
}

/// One field as the schema editor sees it.
#[derive(Debug, Clone)]
pub struct FieldDefinitionData {
    pub name: String,
    pub field_type: FieldType,
    pub required: bool,
    pub description: Option<String>,
    pub default: Option<DefaultData>,
    pub resource: Option<String>,
    pub shape: FieldShape,
    pub derived: DerivedBlocks,
}

/// `data` is the field `name` with `definition`, its blocks' text taken
/// from `raw_field`, the field's mapping in the generic parse.
pub open spec fn field_data_is(
    data: FieldDefinitionData,
    name: Seq<char>,
    definition: FieldDefinition,
    raw_field: Option<YamlValue>,
) -> bool {
    &&& data.name@ == name
    &&& data.field_type == config_type(definition.type_config)
    &&& data.required == definition.required
    &&& optional_text(data.description) == optional_text(definition.description)
    &&& default_is(data.default, definition)
    &&& optional_text(data.resource) == optional_text(definition.resource)
    &&& data.shape@ == shape_of(definition.type_config)
    &&& optional_text(data.derived.compute) == block_of(raw_field, "compute"@)
    &&& optional_text(data.derived.when) == block_of(raw_field, "when"@)
    &&& optional_text(data.derived.pull) == block_of(raw_field, "pull"@)
    &&& optional_text(data.derived.aggregate) == block_of(raw_field, "aggregate"@)
}

impl FieldDefinitionData {
    /// Project one typed definition, taking the blocks' text from
    /// `raw_field`.
    pub fn from_definition(name: &str, definition: &FieldDefinition, raw_field: Option<&YamlValue>) -> (r: Self)
        ensures
            field_data_is(r, name@, *definition, match raw_field {
                Some(f) => Some(*f),
                None => None,
            }),
    {
        FieldDefinitionData {
            name: name.to_owned(),
            field_type: definition.field_type(),
            required: definition.required,
            description: definition.description.clone(),
            default: default_data(definition),
            resource: definition.resource.clone(),
            shape: FieldShape::from_config(&definition.type_config),
            derived: DerivedBlocks {
                compute: block_text(raw_field, "compute"),
                when: block_text(raw_field, "when"),
                pull: block_text(raw_field, "pull"),
                aggregate: block_text(raw_field, "aggregate"),
            },
        }
    }
}


// ── The type system's tables ────────────────────────────────────────

/// The aggregate functions defined for one type.
#[derive(Debug, Clone)]
pub struct FieldTypeAggregateFunctions {
    pub field_type: FieldType,
    pub functions: Vec<AggregateFunction>,
}

/// The generators that may default one type.
#[derive(Debug, Clone)]
pub struct FieldTypeGenerators {
    pub field_type: FieldType,
    pub generators: Vec<Generator>,
}

/// The functions reducing `field_type`: none when it cannot be aggregated.
pub open spec fn functions_for(field_type: FieldType) -> Seq<AggregateFunction> {
    match allowed_aggregates(field_type) {
        Some(functions) => functions,
        None => Seq::empty(),
    }
}

/// The generators among `generators` that fit `field_type`, in order.
pub open spec fn fitting(generators: Seq<Generator>, field_type: FieldType) -> Seq<Generator>
    decreases generators.len(),
{
    if generators.len() == 0 {
        Seq::empty()
    } else {
        fitting(generators.drop_last(), field_type) + if generator_fits(generators.last(), field_type) {
            seq![generators.last()]
        } else {
            Seq::empty()
        }
    }
}

pub open spec fn all_generators() -> Seq<Generator> {
    seq![Generator::Filename, Generator::FilenamePretty, Generator::Uuid, Generator::Today, Generator::MaxPlusOne]
}

fn field_types() -> (r: [FieldType; 12])
    ensures
        r@ == all_field_types(),
{
    let types = [
        FieldType::String,
        FieldType::Choice,
        FieldType::Multichoice,
        FieldType::Integer,
        FieldType::Float,
        FieldType::Date,
        FieldType::Duration,
        FieldType::Color,
        FieldType::Boolean,
        FieldType::List,
        FieldType::Link,
        FieldType::Links,
    ];
    assert(types@ =~= all_field_types());
    types
}

fn generators_for(field_type: FieldType) -> (r: Vec<Generator>)
    ensures
        r@ == fitting(all_generators(), field_type),
{
    let all = [Generator::Filename, Generator::FilenamePretty, Generator::Uuid, Generator::Today, Generator::MaxPlusOne];
    assert(all@ =~= all_generators());
    let mut out: Vec<Generator> = Vec::new();
    let mut i: usize = 0;
    while i < 5
        invariant
            i <= 5,
            all@ == all_generators(),
            out@ == fitting(all_generators().take(i as int), field_type),
        decreases 5 - i,
    {
        let generator = all[i];
        assert(all_generators().take(i + 1).drop_last() =~= all_generators().take(i as int));
        let fits = match generator {
            Generator::Filename => field_type == FieldType::String,
            Generator::FilenamePretty => field_type == FieldType::String,
            Generator::Uuid => field_type == FieldType::String,
            Generator::Today => field_type == FieldType::Date,
            Generator::MaxPlusOne => field_type == FieldType::Integer || field_type == FieldType::Float,
        };
        if fits {
            out.push(generator);
        }
        assert(out@ =~= fitting(all_generators().take(i + 1), field_type));
        i = i + 1;
    }
    assert(all_generators().take(5) =~= all_generators());
    out
}

fn tables() -> (r: (Vec<FieldTypeAggregateFunctions>, Vec<FieldTypeGenerators>))
    ensures
        r.0@.len() == all_field_types().len(),
        r.1@.len() == all_field_types().len(),
        forall|k: int| 0 <= k < r.0@.len() ==> (#[trigger] r.0@[k]).field_type == all_field_types()[k]
            && r.0@[k].functions@ == functions_for(all_field_types()[k]),
        forall|k: int| 0 <= k < r.1@.len() ==> (#[trigger] r.1@[k]).field_type == all_field_types()[k]
            && r.1@[k].generators@ == fitting(all_generators(), all_field_types()[k]),
{
    let types = field_types();
    let mut aggregates: Vec<FieldTypeAggregateFunctions> = Vec::new();
    let mut generators: Vec<FieldTypeGenerators> = Vec::new();
    let mut t: usize = 0;
    while t < 12
        invariant
            t <= 12,
            types@ == all_field_types(),
            aggregates@.len() == t,
            generators@.len() == t,
            forall|k: int| 0 <= k < t ==> (#[trigger] aggregates@[k]).field_type == all_field_types()[k]
                && aggregates@[k].functions@ == functions_for(all_field_types()[k]),
            forall|k: int| 0 <= k < t ==> (#[trigger] generators@[k]).field_type == all_field_types()[k]
                && generators@[k].generators@ == fitting(all_generators(), all_field_types()[k]),
        decreases 12 - t,
    {
        let field_type = types[t];
        let functions = match crate::schema_check::allowed_aggregates_exec(field_type) {
            Some(list) => list,
            None => Vec::new(),
        };
        aggregates.push(FieldTypeAggregateFunctions { field_type, functions });
        generators.push(FieldTypeGenerators { field_type, generators: generators_for(field_type) });
        t = t + 1;
    }
    (aggregates, generators)
}

// ── The payload ─────────────────────────────────────────────────────

/// Everything the schema editor needs.
#[derive(Debug, Clone)]
pub struct SchemaDefinitionData {
    /// Every field, in declaration order.
    pub fields: Vec<FieldDefinitionData>,
    /// Which aggregate functions reduce each type, one entry per type.
    pub aggregate_functions_by_type: Vec<FieldTypeAggregateFunctions>,
    /// Which generators may default each type, one entry per type.
    pub generators_by_type: Vec<FieldTypeGenerators>,
    /// Content hash of the text the payload was built from.
    pub hash: String,
}

/// The mapping of the field `name` in the generic parse of the file.
pub open spec fn raw_field_of(document: YamlValue, name: Seq<char>) -> Option<YamlValue> {
    match entry_of(document, "fields"@) {
        Some(fields) => entry_of(fields, name),
        None => None,
    }
}

/// Build the schema editor's payload for `schema`, parsed from `yaml`: the
/// fields with their blocks' text from a generic parse of the same text,
/// the tables, and the text's hash. Fails with the YAML library's message
/// when the text does not parse.
pub fn build(schema: &Schema, yaml: &str) -> (r: Result<SchemaDefinitionData, String>)
    ensures
        match r {
            Err(error) => yaml_document(yaml@) == Err::<YamlValue, Seq<char>>(error@),
            Ok(data) => match yaml_document(yaml@) {
                Ok(document) => {
                    &&& data.fields@.len() == schema.fields@.len()
                    &&& forall|k: int|
                        0 <= k < data.fields@.len() ==> field_data_is(
                            #[trigger] data.fields@[k],
                            schema.fields@[k].name@,
                            schema.fields@[k].definition,
                            raw_field_of(document, schema.fields@[k].name@),
                        )
                    &&& data.aggregate_functions_by_type@.len() == all_field_types().len()
                    &&& forall|k: int| 0 <= k < data.aggregate_functions_by_type@.len() ==> (
                        #[trigger] data.aggregate_functions_by_type@[k]).field_type == all_field_types()[k]
                        && data.aggregate_functions_by_type@[k].functions@ == functions_for(all_field_types()[k])
                    &&& data.generators_by_type@.len() == all_field_types().len()
                    &&& forall|k: int| 0 <= k < data.generators_by_type@.len() ==> (
                        #[trigger] data.generators_by_type@[k]).field_type == all_field_types()[k]
                        && data.generators_by_type@[k].generators@ == fitting(all_generators(), all_field_types()[k])
                    &&& data.hash@ == hex_text(sha256(yaml.spec_bytes()))
                },
                Err(_) => false,
            },
        },
{
    let document = match parse_yaml(yaml) {
        Ok(document) => document,
        Err(error) => return Err(error),
    };
    let raw_fields = get_entry(&document, "fields");
    let mut fields: Vec<FieldDefinitionData> = Vec::new();
    let mut k: usize = 0;
    while k < schema.fields.len()
        invariant
            k <= schema.fields@.len(),
            yaml_document(yaml@) == Ok::<YamlValue, Seq<char>>(document),
            match raw_fields {
                Some(f) => entry_of(document, "fields"@) == Some(*f),
                None => entry_of(document, "fields"@) is None,
            },
            fields@.len() == k,
            forall|j: int|
                0 <= j < k ==> field_data_is(
                    #[trigger] fields@[j],
                    schema.fields@[j].name@,
                    schema.fields@[j].definition,
                    raw_field_of(document, schema.fields@[j].name@),
                ),
        decreases schema.fields@.len() - k,
    {
        let field = &schema.fields[k];
        let raw_field = match raw_fields {
            Some(all) => get_entry(all, field.name.as_str()),
            None => None,
        };
        let data = FieldDefinitionData::from_definition(field.name.as_str(), &field.definition, raw_field);
        fields.push(data);
        k = k + 1;
    }
    let (aggregate_functions_by_type, generators_by_type) = tables();
    Ok(SchemaDefinitionData { fields, aggregate_functions_by_type, generators_by_type, hash: content_hash(yaml) })
}

} // verus!
