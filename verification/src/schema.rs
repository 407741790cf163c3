//! The schema model: field definitions with their type-specific
//! configuration, aggregates, defaults, and the inverse-relation table.

use vstd::prelude::*;

use crate::model::FieldType;
use crate::text::str_eq;

verus! {

// ── Aggregates and defaults ─────────────────────────────────────────

/// How an aggregate field reduces its children's values.
#[derive(Debug, Clone, Copy, PartialEq, Eq, Structural)]
pub enum AggregateFunction {
    Sum,
    Min,
    Max,
    Average,
    Median,
    Count,
    All,
    Any,
    NoneOf,
}

/// How an aggregate function is written in `schema.yaml`.
pub open spec fn aggregate_text(function: AggregateFunction) -> Seq<char> {
    match function {
        AggregateFunction::Sum => seq!['s', 'u', 'm'],
        AggregateFunction::Min => seq!['m', 'i', 'n'],
        AggregateFunction::Max => seq!['m', 'a', 'x'],
        AggregateFunction::Average => seq!['a', 'v', 'e', 'r', 'a', 'g', 'e'],
        AggregateFunction::Median => seq!['m', 'e', 'd', 'i', 'a', 'n'],
        AggregateFunction::Count => seq!['c', 'o', 'u', 'n', 't'],
        AggregateFunction::All => seq!['a', 'l', 'l'],
        AggregateFunction::Any => seq!['a', 'n', 'y'],
        AggregateFunction::NoneOf => seq!['n', 'o', 'n', 'e'],
    }
}

impl AggregateFunction {
    /// How the function is written in `schema.yaml`.
    pub fn name(self) -> (r: &'static str)
        ensures
            r@ == aggregate_text(self),
    {
        proof {
            reveal_strlit("sum");
            reveal_strlit("min");
            reveal_strlit("max");
            reveal_strlit("average");
            reveal_strlit("median");
            reveal_strlit("count");
            reveal_strlit("all");
            reveal_strlit("any");
            reveal_strlit("none");
        }
        match self {
            AggregateFunction::Sum => "sum",
            AggregateFunction::Min => "min",
            AggregateFunction::Max => "max",
            AggregateFunction::Average => "average",
            AggregateFunction::Median => "median",
            AggregateFunction::Count => "count",
            AggregateFunction::All => "all",
            AggregateFunction::Any => "any",
            AggregateFunction::NoneOf => "none",
        }
    }
}

/// A field's `aggregate:` block.
#[derive(Debug, Clone)]
pub struct AggregateConfig {
    pub function: AggregateFunction,
    /// The link field walked upward; `parent` when unset.
    pub over: Option<String>,
    /// Report tree leaves that no value covers.
    pub error_on_missing: bool,
}

/// A generator token a default can name.
#[derive(Debug, Clone, Copy, PartialEq, Eq, Structural)]
pub enum Generator {
    Filename,
    FilenamePretty,
    Uuid,
    Today,
    MaxPlusOne,
}

/// How a generator is written in `schema.yaml`.
pub open spec fn generator_text(generator: Generator) -> Seq<char> {
    match generator {
        Generator::Filename => seq!['$', 'f', 'i', 'l', 'e', 'n', 'a', 'm', 'e'],
        Generator::FilenamePretty => seq![
            '$', 'f', 'i', 'l', 'e', 'n', 'a', 'm', 'e', '_', 'p', 'r', 'e', 't', 't', 'y'
        ],
        Generator::Uuid => seq!['$', 'u', 'u', 'i', 'd'],
        Generator::Today => seq!['$', 't', 'o', 'd', 'a', 'y'],
        Generator::MaxPlusOne => seq![
            '$', 'm', 'a', 'x', '_', 'p', 'l', 'u', 's', '_', 'o', 'n', 'e'
        ],
    }
}

impl Generator {
    /// How the generator is written in `schema.yaml`.
    pub fn token(self) -> (r: &'static str)
        ensures
            r@ == generator_text(self),
    {
        proof {
            reveal_strlit("$filename");
            reveal_strlit("$filename_pretty");
            reveal_strlit("$uuid");
            reveal_strlit("$today");
            reveal_strlit("$max_plus_one");
        }
        match self {
            Generator::Filename => "$filename",
            Generator::FilenamePretty => "$filename_pretty",
            Generator::Uuid => "$uuid",
            Generator::Today => "$today",
            Generator::MaxPlusOne => "$max_plus_one",
        }
    }

    /// The generator a token names, if any.
    pub fn from_token(token: &str) -> (r: Option<Generator>)
        ensures
            match r {
                Some(generator) => generator_text(generator) == token@,
                None => forall|generator: Generator| generator_text(generator) != token@,
            },
    {
        let all = [
            Generator::Filename,
            Generator::FilenamePretty,
            Generator::Uuid,
            Generator::Today,
            Generator::MaxPlusOne,
        ];
        let mut i: usize = 0;
        while i < 5
            invariant
                i <= 5,
                all@ == seq![
                    Generator::Filename,
                    Generator::FilenamePretty,
                    Generator::Uuid,
                    Generator::Today,
                    Generator::MaxPlusOne,
                ],
                forall|k: int| 0 <= k < i ==> generator_text(all@[k]) != token@,
            decreases 5 - i,
        {
            if crate::text::str_eq(all[i].token(), token) {
                return Some(all[i]);
            }
            i = i + 1;
        }
        assert forall|generator: Generator| generator_text(generator) != token@ by {
            match generator {
                Generator::Filename => assert(all@[0] == generator),
                Generator::FilenamePretty => assert(all@[1] == generator),
                Generator::Uuid => assert(all@[2] == generator),
                Generator::Today => assert(all@[3] == generator),
                Generator::MaxPlusOne => assert(all@[4] == generator),
            }
        }
        None
    }
}

/// A field's `default:` value.
#[derive(Debug, Clone)]
pub enum DefaultValue {
    String(String),
    Integer(i64),
    /// A floating-point default, as the decimal text it was written as.
    Float(String),
    Bool(bool),
    Generator(Generator),
}

// ── Field definitions ───────────────────────────────────────────────

/// The type-specific part of a field definition.
#[derive(Debug, Clone)]
pub enum FieldTypeConfig {
    String { pattern: Option<String> },
    Choice { values: Vec<String> },
    Multichoice { values: Vec<String> },
    /// Bounds are kept as the decimal text they were written as.
    Integer { min: Option<String>, max: Option<String> },
    Float { min: Option<String>, max: Option<String> },
    Date,
    Duration { min: Option<String>, max: Option<String> },
    Color,
    Boolean,
    List,
    Link { allow_cycles: Option<bool>, inverse: Option<String> },
    Links { allow_cycles: Option<bool>, inverse: Option<String> },
}

/// The declared type of a configuration.
pub open spec fn config_type(config: FieldTypeConfig) -> FieldType {
    match config {
        FieldTypeConfig::String { .. } => FieldType::String,
        FieldTypeConfig::Choice { .. } => FieldType::Choice,
        FieldTypeConfig::Multichoice { .. } => FieldType::Multichoice,
        FieldTypeConfig::Integer { .. } => FieldType::Integer,
        FieldTypeConfig::Float { .. } => FieldType::Float,
        FieldTypeConfig::Date => FieldType::Date,
        FieldTypeConfig::Duration { .. } => FieldType::Duration,
        FieldTypeConfig::Color => FieldType::Color,
        FieldTypeConfig::Boolean => FieldType::Boolean,
        FieldTypeConfig::List => FieldType::List,
        FieldTypeConfig::Link { .. } => FieldType::Link,
        FieldTypeConfig::Links { .. } => FieldType::Links,
    }
}

/// The inverse relation a link configuration declares.
pub open spec fn config_inverse(config: FieldTypeConfig) -> Option<Seq<char>> {
    match config {
        FieldTypeConfig::Link { inverse: Some(name), .. } => Some(name@),
        FieldTypeConfig::Links { inverse: Some(name), .. } => Some(name@),
        _ => None,
    }
}

/// A validated field definition.
#[derive(Debug, Clone)]
pub struct FieldDefinition {
    pub type_config: FieldTypeConfig,
    pub description: Option<String>,
    pub required: bool,
    pub default: Option<DefaultValue>,
    /// The `resources.yaml` section whose entries the field's values name.
    pub resource: Option<String>,
    pub aggregate: Option<AggregateConfig>,
}

impl FieldDefinition {
    /// A definition with only its type configuration set.
    pub fn new(type_config: FieldTypeConfig) -> (r: Self)
        ensures
            r.type_config == type_config,
            !r.required,
            r.description is None,
            r.default is None,
            r.resource is None,
            r.aggregate is None,
    {
        FieldDefinition {
            type_config,
            description: None,
            required: false,
            default: None,
            resource: None,
            aggregate: None,
        }
    }

    /// The field's declared type.
    pub fn field_type(&self) -> (r: FieldType)
        ensures
            r == config_type(self.type_config),
    {
        match &self.type_config {
            FieldTypeConfig::String { .. } => FieldType::String,
            FieldTypeConfig::Choice { .. } => FieldType::Choice,
            FieldTypeConfig::Multichoice { .. } => FieldType::Multichoice,
            FieldTypeConfig::Integer { .. } => FieldType::Integer,
            FieldTypeConfig::Float { .. } => FieldType::Float,
            FieldTypeConfig::Date => FieldType::Date,
            FieldTypeConfig::Duration { .. } => FieldType::Duration,
            FieldTypeConfig::Color => FieldType::Color,
            FieldTypeConfig::Boolean => FieldType::Boolean,
            FieldTypeConfig::List => FieldType::List,
            FieldTypeConfig::Link { .. } => FieldType::Link,
            FieldTypeConfig::Links { .. } => FieldType::Links,
        }
    }

    /// The inverse relation name a link/links field declares.
    pub fn inverse(&self) -> (r: Option<&str>)
        ensures
            match r {
                Some(name) => config_inverse(self.type_config) == Some(name@),
                None => config_inverse(self.type_config) is None,
            },
    {
        match &self.type_config {
            FieldTypeConfig::Link { inverse: Some(name), .. } => Some(name.as_str()),
            FieldTypeConfig::Links { inverse: Some(name), .. } => Some(name.as_str()),
            _ => None,
        }
    }
}

/// One named field of a schema.
#[derive(Debug, Clone)]
pub struct NamedField {
    pub name: String,
    pub definition: FieldDefinition,
}

/// Index of the first field named `name`.
pub open spec fn field_index(fields: Seq<NamedField>, name: Seq<char>) -> Option<int>
    decreases fields.len(),
{
    if fields.len() == 0 {
        None
    } else {
        match field_index(fields.drop_last(), name) {
            Some(i) => Some(i),
            None => if fields.last().name@ == name {
                Some(fields.len() - 1)
            } else {
                None
            },
        }
    }
}

pub proof fn lemma_field_index(fields: Seq<NamedField>, name: Seq<char>)
    ensures
        field_index(fields, name) matches Some(i) ==> 0 <= i < fields.len() && fields[i].name@
            == name && forall|k: int| 0 <= k < i ==> fields[k].name@ != name,
        field_index(fields, name) is None ==> forall|k: int|
            0 <= k < fields.len() ==> fields[k].name@ != name,
    decreases fields.len(),
{
    if fields.len() > 0 {
        let init = fields.drop_last();
        lemma_field_index(init, name);
        assert forall|k: int| 0 <= k < init.len() implies init[k] == fields[k] by {}
    }
}

/// The definition of the field named `name`.
pub open spec fn definition_of(fields: Seq<NamedField>, name: Seq<char>) -> Option<FieldDefinition> {
    match field_index(fields, name) {
        Some(i) => Some(fields[i].definition),
        None => None,
    }
}

/// The field whose definition declares `inverse`, the last one when several do.
pub open spec fn inverse_owner(fields: Seq<NamedField>, inverse: Seq<char>) -> Option<Seq<char>>
    decreases fields.len(),
{
    if fields.len() == 0 {
        None
    } else if config_inverse(fields.last().definition.type_config) == Some(inverse) {
        Some(fields.last().name@)
    } else {
        inverse_owner(fields.drop_last(), inverse)
    }
}

/// A project's schema: its fields in declaration order.
#[derive(Debug, Clone)]
pub struct Schema {
    pub fields: Vec<NamedField>,
}

impl Schema {
    /// The definition of the field named `name`.
    pub fn field(&self, name: &str) -> (r: Option<&FieldDefinition>)
        ensures
            match r {
                Some(definition) => definition_of(self.fields@, name@) == Some(*definition),
                None => definition_of(self.fields@, name@) is None,
            },
    {
        let mut i: usize = 0;
        while i < self.fields.len()
            invariant
                i <= self.fields@.len(),
                forall|k: int| 0 <= k < i ==> self.fields@[k].name@ != name@,
            decreases self.fields@.len() - i,
        {
            if str_eq(self.fields[i].name.as_str(), name) {
                proof {
                    lemma_field_index(self.fields@, name@);
                    if let Some(j) = field_index(self.fields@, name@) {
                        assert(j == i);
                    }
                }
                return Some(&self.fields[i].definition);
            }
            i = i + 1;
        }
        proof {
            lemma_field_index(self.fields@, name@);
        }
        None
    }

    /// The forward link field whose inverse is named `name`.
    pub fn inverse_of(&self, name: &str) -> (r: Option<&str>)
        ensures
            match r {
                Some(owner) => inverse_owner(self.fields@, name@) == Some(owner@),
                None => inverse_owner(self.fields@, name@) is None,
            },
    {
        let mut n: usize = self.fields.len();
        assert(self.fields@.take(n as int) =~= self.fields@);
        while n > 0
            invariant
                n <= self.fields@.len(),
                inverse_owner(self.fields@.take(n as int), name@) == inverse_owner(self.fields@, name@),
            decreases n,
        {
            let field = &self.fields[n - 1];
            proof {
                assert(self.fields@.take(n as int).drop_last() =~= self.fields@.take(n - 1));
                assert(self.fields@.take(n as int).last() == self.fields@[n - 1]);
            }
            if let Some(inverse) = field.definition.inverse() {
                if str_eq(inverse, name) {
                    return Some(field.name.as_str());
                }
            }
            n = n - 1;
        }
        None
    }
}

} // verus!
