//! Semantic checks on a schema as written in `schema.yaml`: which
//! properties each field type admits, which defaults and aggregate
//! functions fit a type, and how inverse relation names may be chosen.
//! Every problem is collected; none stops the check.

use vstd::prelude::*;

use crate::model::{type_text, FieldType};
use crate::schema::{
    aggregate_text, generator_text, AggregateConfig, AggregateFunction, DefaultValue,
    FieldDefinition, FieldTypeConfig, Generator, NamedField, Schema,
};
use crate::text::{concat, contains_text, join, join_strings, str_eq};

verus! {

// ── Raw definitions ─────────────────────────────────────────────────

/// A field definition as written: every type-specific property is
/// optional and flat, and the checks decide which ones the type admits.
#[derive(Debug, Clone)]
pub struct RawFieldDefinition {
    pub field_type: FieldType,
    pub description: Option<String>,
    pub required: bool,
    pub default: Option<DefaultValue>,
    pub values: Option<Vec<String>>,
    pub pattern: Option<String>,
    /// Bounds, as the decimal text they were written as.
    pub min: Option<String>,
    pub max: Option<String>,
    pub allow_cycles: Option<bool>,
    pub resource: Option<String>,
    pub aggregate: Option<AggregateConfig>,
    pub inverse: Option<String>,
}

/// One entry of the `fields:` map, in declaration order.
#[derive(Debug, Clone)]
pub struct RawField {
    pub name: String,
    pub definition: RawFieldDefinition,
}

/// A single semantic validation error.
#[derive(Debug, Clone)]
pub struct SchemaValidationError {
    /// Where the error occurred, e.g. `field 'priority'`.
    pub context: String,
    /// What went wrong.
    pub message: String,
}

impl SchemaValidationError {
    /// The error's display form, `context: message`.
    pub fn to_text(&self) -> (r: String)
        ensures
            r@ == self.context@ + ": "@ + self.message@,
    {
        let head = concat(self.context.as_str(), ": ");
        concat(head.as_str(), self.message.as_str())
    }
}

/// Errors as (context, message) pairs.
pub open spec fn error_views(errors: Seq<SchemaValidationError>) -> Seq<(Seq<char>, Seq<char>)> {
    errors.map_values(|e: SchemaValidationError| (e.context@, e.message@))
}

/// The context of an error about the field `name`.
pub open spec fn field_context(name: Seq<char>) -> Seq<char> {
    "field '"@ + name + "'"@
}

/// One error about the field `name`.
pub open spec fn field_error(name: Seq<char>, message: Seq<char>) -> Seq<(Seq<char>, Seq<char>)> {
    seq![(field_context(name), message)]
}

pub open spec fn no_errors() -> Seq<(Seq<char>, Seq<char>)> {
    Seq::empty()
}

fn push_field_error(errors: &mut Vec<SchemaValidationError>, name: &str, message: String)
    ensures
        error_views(final(errors)@) == error_views(old(errors)@) + field_error(name@, message@),
{
    let head = concat("field '", name);
    let context = concat(head.as_str(), "'");
    errors.push(SchemaValidationError { context, message });
    proof {
        assert(error_views(errors@) =~= error_views(old(errors)@) + field_error(name@, message@));
    }
}

// ── Names ───────────────────────────────────────────────────────────

pub open spec fn is_lower(c: char) -> bool {
    'a' <= c && c <= 'z'
}

pub open spec fn is_digit(c: char) -> bool {
    '0' <= c && c <= '9'
}

/// Field names: lowercase letters, digits and underscores, starting with a
/// letter or an underscore.
pub open spec fn spec_is_valid_field_name(name: Seq<char>) -> bool {
    &&& name.len() > 0
    &&& (is_lower(name[0]) || name[0] == '_')
    &&& forall|i: int| 0 <= i < name.len() ==> is_lower(#[trigger] name[i]) || is_digit(name[i]) || name[i] == '_'
}

/// Whether `name` is a valid field name.
pub fn is_valid_field_name(name: &str) -> (r: bool)
    ensures
        r == spec_is_valid_field_name(name@),
{
    let chars = crate::text::chars_of(name);
    let n = chars.len();
    if n == 0 {
        return false;
    }
    let first = chars[0];
    if !(('a' <= first && first <= 'z') || first == '_') {
        return false;
    }
    let mut i: usize = 0;
    while i < n
        invariant
            n == name@.len(),
            chars@ == name@,
            i <= n,
            forall|k: int| 0 <= k < i ==> is_lower(#[trigger] name@[k]) || is_digit(name@[k]) || name@[k] == '_',
        decreases n - i,
    {
        let c = chars[i];
        if !(('a' <= c && c <= 'z') || ('0' <= c && c <= '9') || c == '_') {
            return false;
        }
        i = i + 1;
    }
    true
}

// ── Type-specific properties ────────────────────────────────────────

/// The type-specific properties of a raw definition, in the order the
/// checks visit them.
#[derive(Debug, Clone, Copy, PartialEq, Eq, Structural)]
pub enum Property {
    Values,
    Pattern,
    Min,
    Max,
    AllowCycles,
    Resource,
    Aggregate,
    Inverse,
}

pub open spec fn property_text(property: Property) -> Seq<char> {
    match property {
        Property::Values => "values"@,
        Property::Pattern => "pattern"@,
        Property::Min => "min"@,
        Property::Max => "max"@,
        Property::AllowCycles => "allow_cycles"@,
        Property::Resource => "resource"@,
        Property::Aggregate => "aggregate"@,
        Property::Inverse => "inverse"@,
    }
}

fn property_name(property: Property) -> (r: &'static str)
    ensures
        r@ == property_text(property),
{
    match property {
        Property::Values => "values",
        Property::Pattern => "pattern",
        Property::Min => "min",
        Property::Max => "max",
        Property::AllowCycles => "allow_cycles",
        Property::Resource => "resource",
        Property::Aggregate => "aggregate",
        Property::Inverse => "inverse",
    }
}

pub open spec fn is_numeric(field_type: FieldType) -> bool {
    field_type == FieldType::Integer || field_type == FieldType::Float || field_type
        == FieldType::Duration
}

pub open spec fn is_choice(field_type: FieldType) -> bool {
    field_type == FieldType::Choice || field_type == FieldType::Multichoice
}

pub open spec fn is_link(field_type: FieldType) -> bool {
    field_type == FieldType::Link || field_type == FieldType::Links
}

/// Whether a field of type `field_type` may set `property`.
pub open spec fn admits(field_type: FieldType, property: Property) -> bool {
    match property {
        Property::Values => is_choice(field_type),
        Property::Pattern => field_type == FieldType::String,
        Property::Min => is_numeric(field_type),
        Property::Max => is_numeric(field_type),
        Property::AllowCycles => is_link(field_type),
        Property::Resource => field_type == FieldType::String || field_type == FieldType::List,
        Property::Aggregate => is_numeric(field_type) || field_type == FieldType::Date
            || field_type == FieldType::Boolean,
        Property::Inverse => is_link(field_type),
    }
}

fn admits_exec(field_type: FieldType, property: Property) -> (r: bool)
    ensures
        r == admits(field_type, property),
{
    let numeric = field_type == FieldType::Integer || field_type == FieldType::Float
        || field_type == FieldType::Duration;
    let link = field_type == FieldType::Link || field_type == FieldType::Links;
    match property {
        Property::Values => field_type == FieldType::Choice || field_type == FieldType::Multichoice,
        Property::Pattern => field_type == FieldType::String,
        Property::Min => numeric,
        Property::Max => numeric,
        Property::AllowCycles => link,
        Property::Resource => field_type == FieldType::String || field_type == FieldType::List,
        Property::Aggregate => numeric || field_type == FieldType::Date || field_type
            == FieldType::Boolean,
        Property::Inverse => link,
    }
}

/// Whether the definition sets `property`.
pub open spec fn is_set(field: RawFieldDefinition, property: Property) -> bool {
    match property {
        Property::Values => field.values is Some,
        Property::Pattern => field.pattern is Some,
        Property::Min => field.min is Some,
        Property::Max => field.max is Some,
        Property::AllowCycles => field.allow_cycles is Some,
        Property::Resource => field.resource is Some,
        Property::Aggregate => field.aggregate is Some,
        Property::Inverse => field.inverse is Some,
    }
}

fn is_set_exec(field: &RawFieldDefinition, property: Property) -> (r: bool)
    ensures
        r == is_set(*field, property),
{
    match property {
        Property::Values => field.values.is_some(),
        Property::Pattern => field.pattern.is_some(),
        Property::Min => field.min.is_some(),
        Property::Max => field.max.is_some(),
        Property::AllowCycles => field.allow_cycles.is_some(),
        Property::Resource => field.resource.is_some(),
        Property::Aggregate => field.aggregate.is_some(),
        Property::Inverse => field.inverse.is_some(),
    }
}

/// The error for `property` set on a type that does not admit it.
pub open spec fn property_errors(name: Seq<char>, field: RawFieldDefinition, property: Property) -> Seq<(Seq<char>, Seq<char>)> {
    if !admits(field.field_type, property) && is_set(field, property) {
        field_error(
            name,
            "'"@ + property_text(property) + "' is not valid for type '"@ + type_text(field.field_type)
                + "'"@,
        )
    } else {
        no_errors()
    }
}

/// Choice types must list their values, and not an empty list.
pub open spec fn values_errors(name: Seq<char>, field: RawFieldDefinition) -> Seq<(Seq<char>, Seq<char>)> {
    if is_choice(field.field_type) {
        match field.values {
            None => field_error(
                name,
                "'values' is required for type '"@ + type_text(field.field_type) + "'"@,
            ),
            Some(values) => if values@.len() == 0 {
                field_error(name, "'values' must not be empty"@)
            } else {
                no_errors()
            },
        }
    } else {
        no_errors()
    }
}

/// Every property the type does not admit is reported, in a fixed order.
pub open spec fn type_property_errors(name: Seq<char>, field: RawFieldDefinition) -> Seq<(Seq<char>, Seq<char>)> {
    values_errors(name, field)
        + property_errors(name, field, Property::Values)
        + property_errors(name, field, Property::Pattern)
        + property_errors(name, field, Property::Min)
        + property_errors(name, field, Property::Max)
        + property_errors(name, field, Property::AllowCycles)
        + property_errors(name, field, Property::Resource)
        + property_errors(name, field, Property::Aggregate)
        + property_errors(name, field, Property::Inverse)
}

fn reject_property(
    name: &str,
    field: &RawFieldDefinition,
    property: Property,
    errors: &mut Vec<SchemaValidationError>,
)
    ensures
        error_views(final(errors)@) == error_views(old(errors)@) + property_errors(
            name@,
            *field,
            property,
        ),
{
    if !admits_exec(field.field_type, property) && is_set_exec(field, property) {
        let head = concat("'", property_name(property));
        let middle = concat(head.as_str(), "' is not valid for type '");
        let typed = concat(middle.as_str(), field.field_type.name());
        push_field_error(errors, name, concat(typed.as_str(), "'"));
    } else {
        assert(error_views(errors@) =~= error_views(old(errors)@) + no_errors());
    }
}

/// Check that only properties valid for the field's type are set.
fn validate_type_specific_properties(
    name: &str,
    field: &RawFieldDefinition,
    errors: &mut Vec<SchemaValidationError>,
)
    ensures
        error_views(final(errors)@) == error_views(old(errors)@) + type_property_errors(
            name@,
            *field,
        ),
{
    let ghost start = error_views(errors@);
    let field_type = field.field_type;
    if field_type == FieldType::Choice || field_type == FieldType::Multichoice {
        match &field.values {
            None => {
                let head = concat("'values' is required for type '", field_type.name());
                push_field_error(errors, name, concat(head.as_str(), "'"));
            },
            Some(values) => {
                if values.len() == 0 {
                    push_field_error(errors, name, "'values' must not be empty".to_owned());
                }
            },
        }
    }
    assert(error_views(errors@) =~= start + values_errors(name@, *field));
    let ghost acc = values_errors(name@, *field);
    reject_property(name, field, Property::Values, errors);
    proof {
        let next = acc + property_errors(name@, *field, Property::Values);
        assert(error_views(errors@) =~= start + next);
        acc = next;
    }
    reject_property(name, field, Property::Pattern, errors);
    proof {
        let next = acc + property_errors(name@, *field, Property::Pattern);
        assert(error_views(errors@) =~= start + next);
        acc = next;
    }
    reject_property(name, field, Property::Min, errors);
    proof {
        let next = acc + property_errors(name@, *field, Property::Min);
        assert(error_views(errors@) =~= start + next);
        acc = next;
    }
    reject_property(name, field, Property::Max, errors);
    proof {
        let next = acc + property_errors(name@, *field, Property::Max);
        assert(error_views(errors@) =~= start + next);
        acc = next;
    }
    reject_property(name, field, Property::AllowCycles, errors);
    proof {
        let next = acc + property_errors(name@, *field, Property::AllowCycles);
        assert(error_views(errors@) =~= start + next);
        acc = next;
    }
    reject_property(name, field, Property::Resource, errors);
    proof {
        let next = acc + property_errors(name@, *field, Property::Resource);
        assert(error_views(errors@) =~= start + next);
        acc = next;
    }
    reject_property(name, field, Property::Aggregate, errors);
    proof {
        let next = acc + property_errors(name@, *field, Property::Aggregate);
        assert(error_views(errors@) =~= start + next);
        acc = next;
    }
    reject_property(name, field, Property::Inverse, errors);
    proof {
        let next = acc + property_errors(name@, *field, Property::Inverse);
        assert(error_views(errors@) =~= start + next);
        acc = next;
    }
    assert(error_views(errors@) =~= start + type_property_errors(name@, *field));
}

// ── Aggregates ──────────────────────────────────────────────────────

/// The aggregate functions a type admits; `None` for types whose
/// `aggregate` property is already refused as a property.
pub open spec fn allowed_aggregates(field_type: FieldType) -> Option<Seq<AggregateFunction>> {
    if is_numeric(field_type) {
        Some(
            seq![
                AggregateFunction::Sum,
                AggregateFunction::Min,
                AggregateFunction::Max,
                AggregateFunction::Average,
                AggregateFunction::Median,
                AggregateFunction::Count,
            ],
        )
    } else if field_type == FieldType::Date {
        Some(seq![AggregateFunction::Min, AggregateFunction::Max])
    } else if field_type == FieldType::Boolean {
        Some(seq![AggregateFunction::All, AggregateFunction::Any, AggregateFunction::NoneOf])
    } else {
        None
    }
}

pub open spec fn aggregate_names(functions: Seq<AggregateFunction>) -> Seq<Seq<char>> {
    functions.map_values(|function: AggregateFunction| aggregate_text(function))
}

/// An aggregate function the field's type does not admit.
pub open spec fn aggregate_errors(name: Seq<char>, field: RawFieldDefinition) -> Seq<(Seq<char>, Seq<char>)> {
    match field.aggregate {
        None => no_errors(),
        Some(config) => match allowed_aggregates(field.field_type) {
            None => no_errors(),
            Some(allowed) => if allowed.contains(config.function) {
                no_errors()
            } else {
                field_error(
                    name,
                    "aggregate function '"@ + aggregate_text(config.function)
                        + "' is not valid for type '"@ + type_text(field.field_type)
                        + "' (allowed: "@ + join(aggregate_names(allowed), ", "@) + ")"@,
                )
            },
        },
    }
}

pub(crate) fn allowed_aggregates_exec(field_type: FieldType) -> (r: Option<Vec<AggregateFunction>>)
    ensures
        match r {
            Some(list) => allowed_aggregates(field_type) == Some(list@),
            None => allowed_aggregates(field_type) is None,
        },
{
    if field_type == FieldType::Integer || field_type == FieldType::Float || field_type
        == FieldType::Duration {
        let list = vec![
            AggregateFunction::Sum,
            AggregateFunction::Min,
            AggregateFunction::Max,
            AggregateFunction::Average,
            AggregateFunction::Median,
            AggregateFunction::Count,
        ];
        assert(list@ =~= allowed_aggregates(field_type).unwrap());
        Some(list)
    } else if field_type == FieldType::Date {
        let list = vec![AggregateFunction::Min, AggregateFunction::Max];
        assert(list@ =~= allowed_aggregates(field_type).unwrap());
        Some(list)
    } else if field_type == FieldType::Boolean {
        let list = vec![AggregateFunction::All, AggregateFunction::Any, AggregateFunction::NoneOf];
        assert(list@ =~= allowed_aggregates(field_type).unwrap());
        Some(list)
    } else {
        None
    }
}

/// Check that the aggregate function is compatible with the field type.
fn validate_aggregate_compatibility(
    name: &str,
    field: &RawFieldDefinition,
    errors: &mut Vec<SchemaValidationError>,
)
    ensures
        error_views(final(errors)@) == error_views(old(errors)@) + aggregate_errors(name@, *field),
{
    let config = match &field.aggregate {
        Some(config) => config,
        None => {
            assert(error_views(errors@) =~= error_views(old(errors)@) + no_errors());
            return;
        },
    };
    let allowed = match allowed_aggregates_exec(field.field_type) {
        Some(allowed) => allowed,
        None => {
            assert(error_views(errors@) =~= error_views(old(errors)@) + no_errors());
            return;
        },
    };
    let mut found = false;
    let mut names: Vec<String> = Vec::new();
    let mut i: usize = 0;
    while i < allowed.len()
        invariant
            i <= allowed@.len(),
            found <==> allowed@.take(i as int).contains(config.function),
            names@.map_values(|p: String| p@) == aggregate_names(allowed@.take(i as int)),
        decreases allowed@.len() - i,
    {
        let function = allowed[i];
        if function == config.function {
            found = true;
        }
        let ghost before = names@;
        let text = function.name().to_owned();
        assert(text@ == aggregate_text(function));
        names.push(text);
        assert(names@ =~= before.push(text));
        proof {
            let taken = allowed@.take(i + 1);
            assert(taken =~= allowed@.take(i as int).push(function));
            assert(names@.map_values(|p: String| p@) =~= before.map_values(|p: String| p@).push(text@));
            assert(aggregate_names(taken) =~= aggregate_names(allowed@.take(i as int)).push(
                aggregate_text(function),
            ));
            if found {
                if function == config.function {
                    assert(taken[i as int] == config.function);
                } else {
                    let k = choose|k: int| 0 <= k < i && allowed@.take(i as int)[k] == config.function;
                    assert(taken[k] == config.function);
                }
            } else {
                assert forall|k: int| 0 <= k < taken.len() implies taken[k] != config.function by {
                    if k < i {
                        assert(allowed@.take(i as int)[k] == taken[k]);
                    }
                }
            }
        }
        i = i + 1;
    }
    assert(allowed@.take(allowed@.len() as int) =~= allowed@);
    if found {
        assert(error_views(errors@) =~= error_views(old(errors)@) + no_errors());
        return;
    }
    let listed = join_strings(names.as_slice(), ", ");
    let head = concat("aggregate function '", config.function.name());
    let middle = concat(head.as_str(), "' is not valid for type '");
    let typed = concat(middle.as_str(), field.field_type.name());
    let opened = concat(typed.as_str(), "' (allowed: ");
    let listed_in = concat(opened.as_str(), listed.as_str());
    push_field_error(errors, name, concat(listed_in.as_str(), ")"));
}

// ── Defaults ────────────────────────────────────────────────────────

/// Whether a generator may fill a field of type `field_type`.
pub open spec fn generator_fits(generator: Generator, field_type: FieldType) -> bool {
    match generator {
        Generator::Filename => field_type == FieldType::String,
        Generator::FilenamePretty => field_type == FieldType::String,
        Generator::Uuid => field_type == FieldType::String,
        Generator::Today => field_type == FieldType::Date,
        Generator::MaxPlusOne => field_type == FieldType::Integer || field_type == FieldType::Float,
    }
}

/// A default that does not fit the field's type, or a choice default that
/// is not among the listed values.
pub open spec fn default_errors(name: Seq<char>, field: RawFieldDefinition) -> Seq<(Seq<char>, Seq<char>)> {
    let field_type = field.field_type;
    match field.default {
        None => no_errors(),
        Some(DefaultValue::Generator(generator)) => if generator_fits(generator, field_type) {
            no_errors()
        } else {
            field_error(
                name,
                "generator '"@ + generator_text(generator) + "' is not compatible with type '"@
                    + type_text(field_type) + "'"@,
            )
        },
        Some(DefaultValue::String(text)) => if field_type == FieldType::String || field_type
            == FieldType::Date {
            no_errors()
        } else if is_choice(field_type) {
            match field.values {
                Some(values) => if values@.map_values(|v: String| v@).contains(text@) {
                    no_errors()
                } else {
                    field_error(name, "default '"@ + text@ + "' is not in the allowed values"@)
                },
                None => no_errors(),
            }
        } else {
            field_error(name, incompatible_message("string"@, field_type))
        },
        Some(DefaultValue::Integer(_)) => if field_type == FieldType::Integer {
            no_errors()
        } else {
            field_error(name, incompatible_message("integer"@, field_type))
        },
        Some(DefaultValue::Float(_)) => if field_type == FieldType::Integer || field_type
            == FieldType::Float {
            no_errors()
        } else {
            field_error(name, incompatible_message("float"@, field_type))
        },
        Some(DefaultValue::Bool(_)) => if field_type == FieldType::Boolean {
            no_errors()
        } else {
            field_error(name, incompatible_message("boolean"@, field_type))
        },
    }
}

/// The message for a default of kind `kind` on a type it does not fit.
pub open spec fn incompatible_message(kind: Seq<char>, field_type: FieldType) -> Seq<char> {
    kind + " default is not compatible with type '"@ + type_text(field_type) + "'"@
}

fn incompatible(errors: &mut Vec<SchemaValidationError>, name: &str, kind: &str, field_type: FieldType)
    ensures
        error_views(final(errors)@) == error_views(old(errors)@) + field_error(
            name@,
            incompatible_message(kind@, field_type),
        ),
{
    let head = concat(kind, " default is not compatible with type '");
    let typed = concat(head.as_str(), field_type.name());
    push_field_error(errors, name, concat(typed.as_str(), "'"));
}

/// Check that the default value is compatible with the field type.
fn validate_default_compatibility(
    name: &str,
    field: &RawFieldDefinition,
    errors: &mut Vec<SchemaValidationError>,
)
    ensures
        error_views(final(errors)@) == error_views(old(errors)@) + default_errors(name@, *field),
{
    let field_type = field.field_type;
    match &field.default {
        None => {
            assert(error_views(errors@) =~= error_views(old(errors)@) + no_errors());
        },
        Some(DefaultValue::Generator(generator)) => {
            let fits = match generator {
                Generator::Filename | Generator::FilenamePretty | Generator::Uuid => field_type
                    == FieldType::String,
                Generator::Today => field_type == FieldType::Date,
                Generator::MaxPlusOne => field_type == FieldType::Integer || field_type
                    == FieldType::Float,
            };
            if fits {
                assert(error_views(errors@) =~= error_views(old(errors)@) + no_errors());
            } else {
                let head = concat("generator '", generator.token());
                let middle = concat(head.as_str(), "' is not compatible with type '");
                let typed = concat(middle.as_str(), field_type.name());
                push_field_error(errors, name, concat(typed.as_str(), "'"));
            }
        },
        Some(DefaultValue::String(text)) => {
            if field_type == FieldType::String || field_type == FieldType::Date {
                assert(error_views(errors@) =~= error_views(old(errors)@) + no_errors());
            } else if field_type == FieldType::Choice || field_type == FieldType::Multichoice {
                match &field.values {
                    Some(values) => {
                        if contains_text(values, text.as_str()) {
                            assert(error_views(errors@) =~= error_views(old(errors)@) + no_errors());
                        } else {
                            let head = concat("default '", text.as_str());
                            push_field_error(
                                errors,
                                name,
                                concat(head.as_str(), "' is not in the allowed values"),
                            );
                        }
                    },
                    None => {
                        assert(error_views(errors@) =~= error_views(old(errors)@) + no_errors());
                    },
                }
            } else {
                incompatible(errors, name, "string", field_type);
            }
        },
        Some(DefaultValue::Integer(_)) => {
            if field_type == FieldType::Integer {
                assert(error_views(errors@) =~= error_views(old(errors)@) + no_errors());
            } else {
                incompatible(errors, name, "integer", field_type);
            }
        },
        Some(DefaultValue::Float(_)) => {
            if field_type == FieldType::Integer || field_type == FieldType::Float {
                assert(error_views(errors@) =~= error_views(old(errors)@) + no_errors());
            } else {
                incompatible(errors, name, "float", field_type);
            }
        },
        Some(DefaultValue::Bool(_)) => {
            if field_type == FieldType::Boolean {
                assert(error_views(errors@) =~= error_views(old(errors)@) + no_errors());
            } else {
                incompatible(errors, name, "boolean", field_type);
            }
        },
    }
}

// ── Inverse relation names ──────────────────────────────────────────

/// Whether the definition declares `inverse` on a link or links field.
pub open spec fn declares_inverse(field: RawField, inverse: Seq<char>) -> bool {
    &&& is_link(field.definition.field_type)
    &&& field.definition.inverse matches Some(name)
    &&& name@ == inverse
}

/// The first field before position `n` that declares `inverse`: the one
/// that claimed the name.
pub open spec fn first_claim(fields: Seq<RawField>, n: int, inverse: Seq<char>) -> Option<int>
    decreases n,
{
    if n <= 0 {
        None
    } else {
        match first_claim(fields, n - 1, inverse) {
            Some(j) => Some(j),
            None => if declares_inverse(fields[n - 1], inverse) {
                Some(n - 1)
            } else {
                None
            },
        }
    }
}

pub proof fn lemma_first_claim(fields: Seq<RawField>, n: int, inverse: Seq<char>)
    requires
        0 <= n <= fields.len(),
    ensures
        first_claim(fields, n, inverse) matches Some(j) ==> 0 <= j < n && declares_inverse(
            fields[j],
            inverse,
        ) && forall|k: int| 0 <= k < j ==> !declares_inverse(#[trigger] fields[k], inverse),
        first_claim(fields, n, inverse) is None ==> forall|k: int|
            0 <= k < n ==> !declares_inverse(#[trigger] fields[k], inverse),
    decreases n,
{
    if n > 0 {
        lemma_first_claim(fields, n - 1, inverse);
    }
}

/// Whether some field is named `name`.
pub open spec fn has_field_named(fields: Seq<RawField>, name: Seq<char>) -> bool {
    exists|k: int| 0 <= k < fields.len() && (#[trigger] fields[k]).name@ == name
}

/// The problems of the `inverse` property of the field at `index`.
pub open spec fn inverse_errors(fields: Seq<RawField>, index: int) -> Seq<(Seq<char>, Seq<char>)> {
    let field = fields[index];
    let name = field.name@;
    match field.definition.inverse {
        None => no_errors(),
        Some(inverse) => if !is_link(field.definition.field_type) {
            field_error(name, "'inverse' is only valid for link and links types"@)
        } else {
            (if spec_is_valid_field_name(inverse@) {
                no_errors()
            } else {
                field_error(
                    name,
                    "inverse name '"@ + inverse@
                        + "' must be lowercase letters, digits, and underscores"@,
                )
            }) + (if has_field_named(fields, inverse@) {
                field_error(
                    name,
                    "inverse name '"@ + inverse@ + "' conflicts with a defined field name"@,
                )
            } else {
                no_errors()
            }) + match first_claim(fields, index, inverse@) {
                Some(other) => field_error(
                    name,
                    "inverse name '"@ + inverse@ + "' is already used by field '"@
                        + fields[other].name@ + "'"@,
                ),
                None => no_errors(),
            }
        },
    }
}

/// Validate the `inverse` property of the field at `index`.
fn validate_inverse_property(
    fields: &Vec<RawField>,
    index: usize,
    errors: &mut Vec<SchemaValidationError>,
)
    requires
        index < fields@.len(),
    ensures
        error_views(final(errors)@) == error_views(old(errors)@) + inverse_errors(
            fields@,
            index as int,
        ),
{
    let ghost start = error_views(errors@);
    let field = &fields[index];
    let name = field.name.as_str();
    let inverse = match &field.definition.inverse {
        Some(inverse) => inverse.as_str(),
        None => {
            assert(error_views(errors@) =~= start + no_errors());
            return;
        },
    };
    let field_type = field.definition.field_type;
    if field_type != FieldType::Link && field_type != FieldType::Links {
        push_field_error(errors, name, "'inverse' is only valid for link and links types".to_owned());
        return;
    }
    let ghost part1 = if spec_is_valid_field_name(inverse@) {
        no_errors()
    } else {
        field_error(
            name@,
            "inverse name '"@ + inverse@ + "' must be lowercase letters, digits, and underscores"@,
        )
    };
    if !is_valid_field_name(inverse) {
        let head = concat("inverse name '", inverse);
        push_field_error(
            errors,
            name,
            concat(head.as_str(), "' must be lowercase letters, digits, and underscores"),
        );
    }
    assert(error_views(errors@) =~= start + part1);
    // The inverse must not collide with a field name.
    let mut conflict = false;
    let mut k: usize = 0;
    while k < fields.len()
        invariant
            k <= fields@.len(),
            conflict <==> exists|j: int| 0 <= j < k && (#[trigger] fields@[j]).name@ == inverse@,
        decreases fields@.len() - k,
    {
        if str_eq(fields[k].name.as_str(), inverse) {
            assert(fields@[k as int].name@ == inverse@);
            conflict = true;
        }
        k = k + 1;
    }
    let ghost part2 = if has_field_named(fields@, inverse@) {
        field_error(name@, "inverse name '"@ + inverse@ + "' conflicts with a defined field name"@)
    } else {
        no_errors()
    };
    if conflict {
        let head = concat("inverse name '", inverse);
        push_field_error(errors, name, concat(head.as_str(), "' conflicts with a defined field name"));
    }
    assert(error_views(errors@) =~= start + (part1 + part2));
    // The name must not be claimed by an earlier field.
    let mut claimed: Option<usize> = None;
    let mut j: usize = 0;
    while j < index
        invariant
            j <= index < fields@.len(),
            match claimed {
                Some(c) => c < j && first_claim(fields@, j as int, inverse@) == Some(c as int),
                None => first_claim(fields@, j as int, inverse@) is None,
            },
        decreases index - j,
    {
        if claimed.is_none() {
            let other = &fields[j];
            let other_type = other.definition.field_type;
            if other_type == FieldType::Link || other_type == FieldType::Links {
                if let Some(other_inverse) = &other.definition.inverse {
                    if str_eq(other_inverse.as_str(), inverse) {
                        claimed = Some(j);
                    }
                }
            }
        }
        j = j + 1;
    }
    let ghost part3 = match first_claim(fields@, index as int, inverse@) {
        Some(other) => field_error(
            name@,
            "inverse name '"@ + inverse@ + "' is already used by field '"@ + fields@[other].name@
                + "'"@,
        ),
        None => no_errors(),
    };
    if let Some(other) = claimed {
        let head = concat("inverse name '", inverse);
        let middle = concat(head.as_str(), "' is already used by field '");
        let named = concat(middle.as_str(), fields[other].name.as_str());
        push_field_error(errors, name, concat(named.as_str(), "'"));
    }
    assert(error_views(errors@) =~= start + (part1 + part2 + part3));
}

// ── Whole field list ────────────────────────────────────────────────

/// The problems of the field at `index`, in the order they are checked.
pub open spec fn field_errors(fields: Seq<RawField>, index: int) -> Seq<(Seq<char>, Seq<char>)> {
    let field = fields[index];
    let name = field.name@;
    (if spec_is_valid_field_name(name) {
        no_errors()
    } else {
        field_error(
            name,
            "field name must be lowercase letters, digits, and underscores, starting with a letter or underscore"@,
        )
    }) + type_property_errors(name, field.definition) + aggregate_errors(name, field.definition)
        + default_errors(name, field.definition) + inverse_errors(fields, index)
}

/// The problems of the first `n` fields, field by field.
pub open spec fn fields_errors(fields: Seq<RawField>, n: int) -> Seq<(Seq<char>, Seq<char>)>
    decreases n,
{
    if n <= 0 {
        no_errors()
    } else {
        fields_errors(fields, n - 1) + field_errors(fields, n - 1)
    }
}

/// All problems of a field list.
pub open spec fn schema_errors(fields: Seq<RawField>) -> Seq<(Seq<char>, Seq<char>)> {
    fields_errors(fields, fields.len() as int)
}

fn validate_field(fields: &Vec<RawField>, index: usize, errors: &mut Vec<SchemaValidationError>)
    requires
        index < fields@.len(),
    ensures
        error_views(final(errors)@) == error_views(old(errors)@) + field_errors(
            fields@,
            index as int,
        ),
{
    let ghost start = error_views(errors@);
    let field = &fields[index];
    let name = field.name.as_str();
    if !is_valid_field_name(name) {
        push_field_error(
            errors,
            name,
            "field name must be lowercase letters, digits, and underscores, starting with a letter or underscore".to_owned(),
        );
    }
    let ghost e0 = error_views(errors@);
    validate_type_specific_properties(name, &field.definition, errors);
    let ghost e1 = error_views(errors@);
    validate_aggregate_compatibility(name, &field.definition, errors);
    let ghost e2 = error_views(errors@);
    validate_default_compatibility(name, &field.definition, errors);
    let ghost e3 = error_views(errors@);
    validate_inverse_property(fields, index, errors);
    proof {
        let head = if spec_is_valid_field_name(name@) {
            no_errors()
        } else {
            field_error(
                name@,
                "field name must be lowercase letters, digits, and underscores, starting with a letter or underscore"@,
            )
        };
        assert(e0 =~= start + head);
        let a = head + type_property_errors(name@, field.definition);
        assert(e1 =~= start + a);
        let b = a + aggregate_errors(name@, field.definition);
        assert(e2 =~= start + b);
        let c = b + default_errors(name@, field.definition);
        assert(e3 =~= start + c);
        assert(error_views(errors@) =~= start + (c + inverse_errors(fields@, index as int)));
    }
}

/// Check every raw field definition: names, type-specific properties,
/// aggregates, defaults and inverse names.
pub fn validate_fields(fields: &Vec<RawField>) -> (r: Vec<SchemaValidationError>)
    ensures
        error_views(r@) == schema_errors(fields@),
{
    let mut errors: Vec<SchemaValidationError> = Vec::new();
    let mut i: usize = 0;
    while i < fields.len()
        invariant
            i <= fields@.len(),
            error_views(errors@) == fields_errors(fields@, i as int),
        decreases fields@.len() - i,
    {
        validate_field(fields, i, &mut errors);
        i = i + 1;
    }
    errors
}

// ── Conversion ──────────────────────────────────────────────────────

/// The values a raw definition lists; none when it lists none.
pub open spec fn listed_values(raw: RawFieldDefinition) -> Seq<String> {
    match raw.values {
        Some(values) => values@,
        None => Seq::empty(),
    }
}

/// Whether `config` is the typed configuration `raw` stands for: its
/// variant is the declared type, carrying the properties that type admits.
pub open spec fn config_of(raw: RawFieldDefinition, config: FieldTypeConfig) -> bool {
    match config {
        FieldTypeConfig::String { pattern } => raw.field_type == FieldType::String && pattern
            == raw.pattern,
        FieldTypeConfig::Choice { values } => raw.field_type == FieldType::Choice && values@
            == listed_values(raw),
        FieldTypeConfig::Multichoice { values } => raw.field_type == FieldType::Multichoice
            && values@ == listed_values(raw),
        FieldTypeConfig::Integer { min, max } => raw.field_type == FieldType::Integer && min
            == raw.min && max == raw.max,
        FieldTypeConfig::Float { min, max } => raw.field_type == FieldType::Float && min == raw.min
            && max == raw.max,
        FieldTypeConfig::Date => raw.field_type == FieldType::Date,
        FieldTypeConfig::Duration { min, max } => raw.field_type == FieldType::Duration && min
            == raw.min && max == raw.max,
        FieldTypeConfig::Color => raw.field_type == FieldType::Color,
        FieldTypeConfig::Boolean => raw.field_type == FieldType::Boolean,
        FieldTypeConfig::List => raw.field_type == FieldType::List,
        FieldTypeConfig::Link { allow_cycles, inverse } => raw.field_type == FieldType::Link
            && allow_cycles == raw.allow_cycles && inverse == raw.inverse,
        FieldTypeConfig::Links { allow_cycles, inverse } => raw.field_type == FieldType::Links
            && allow_cycles == raw.allow_cycles && inverse == raw.inverse,
    }
}

/// Whether `definition` is the typed definition `raw` stands for.
pub open spec fn converted(raw: RawFieldDefinition, definition: FieldDefinition) -> bool {
    &&& config_of(raw, definition.type_config)
    &&& definition.description == raw.description
    &&& definition.required == raw.required
    &&& definition.default == raw.default
    &&& definition.resource == raw.resource
    &&& definition.aggregate == raw.aggregate
}

/// Convert a raw (flat) definition into a typed one. Properties the type
/// does not admit are dropped; a choice type without values gets none.
pub fn convert_field(raw: RawFieldDefinition) -> (r: FieldDefinition)
    ensures
        converted(raw, r),
{
    let type_config = match raw.field_type {
        FieldType::String => FieldTypeConfig::String { pattern: raw.pattern },
        FieldType::Choice => FieldTypeConfig::Choice {
            values: match raw.values {
                Some(values) => values,
                None => Vec::new(),
            },
        },
        FieldType::Multichoice => FieldTypeConfig::Multichoice {
            values: match raw.values {
                Some(values) => values,
                None => Vec::new(),
            },
        },
        FieldType::Integer => FieldTypeConfig::Integer { min: raw.min, max: raw.max },
        FieldType::Float => FieldTypeConfig::Float { min: raw.min, max: raw.max },
        FieldType::Date => FieldTypeConfig::Date,
        FieldType::Duration => FieldTypeConfig::Duration { min: raw.min, max: raw.max },
        FieldType::Color => FieldTypeConfig::Color,
        FieldType::Boolean => FieldTypeConfig::Boolean,
        FieldType::List => FieldTypeConfig::List,
        FieldType::Link => FieldTypeConfig::Link {
            allow_cycles: raw.allow_cycles,
            inverse: raw.inverse,
        },
        FieldType::Links => FieldTypeConfig::Links {
            allow_cycles: raw.allow_cycles,
            inverse: raw.inverse,
        },
    };
    FieldDefinition {
        type_config,
        description: raw.description,
        required: raw.required,
        default: raw.default,
        resource: raw.resource,
        aggregate: raw.aggregate,
    }
}

/// Whether `schema_fields` is the converted form of `fields`, field by field.
pub open spec fn converted_fields(fields: Seq<RawField>, schema_fields: Seq<NamedField>) -> bool {
    &&& schema_fields.len() == fields.len()
    &&& forall|k: int|
        0 <= k < fields.len() ==> (#[trigger] schema_fields[k]).name@ == fields[k].name@
            && converted(fields[k].definition, schema_fields[k].definition)
}

/// Check a schema's raw field list and, when nothing is wrong, convert it.
/// All problems are reported at once.
pub fn schema_from_raw(fields: Vec<RawField>) -> (r: Result<Schema, Vec<SchemaValidationError>>)
    ensures
        match r {
            Ok(schema) => schema_errors(fields@).len() == 0 && converted_fields(fields@, schema.fields@),
            Err(errors) => schema_errors(fields@).len() > 0 && error_views(errors@) == schema_errors(fields@),
        },
{
    let errors = validate_fields(&fields);
    if errors.len() > 0 {
        return Err(errors);
    }
    let ghost raw = fields@;
    let mut converted_list: Vec<NamedField> = Vec::new();
    let mut rest = fields;
    assert(rest@ =~= raw.subrange(0, raw.len() as int));
    while rest.len() > 0
        invariant
            rest@.len() + converted_list@.len() == raw.len(),
            rest@ == raw.subrange(converted_list@.len() as int, raw.len() as int),
            converted_fields(raw.take(converted_list@.len() as int), converted_list@),
        decreases rest@.len(),
    {
        let ghost n = converted_list@.len() as int;
        let field = rest.remove(0);
        assert(field == raw[n]);
        converted_list.push(NamedField { name: field.name, definition: convert_field(field.definition) });
        proof {
            assert(rest@ =~= raw.subrange(n + 1, raw.len() as int));
            assert(raw.take(n + 1) =~= raw.take(n).push(raw[n]));
            assert(converted_fields(raw.take(n + 1), converted_list@));
        }
    }
    assert(raw.take(raw.len() as int) =~= raw);
    Ok(Schema { fields: converted_list })
}

/// The display form of a validation failure: one `  - context: message`
/// line per error.
pub open spec fn validation_text(errors: Seq<(Seq<char>, Seq<char>)>) -> Seq<char> {
    join(
        errors.map_values(|e: (Seq<char>, Seq<char>)| "  - "@ + e.0 + ": "@ + e.1),
        "\n"@,
    )
}

/// Format all validation errors, one per line.
pub fn format_validation_errors(errors: &[SchemaValidationError]) -> (r: String)
    ensures
        r@ == validation_text(error_views(errors@)),
{
    let mut lines: Vec<String> = Vec::new();
    let mut i: usize = 0;
    while i < errors.len()
        invariant
            i <= errors@.len(),
            lines@.map_values(|p: String| p@) == error_views(errors@).take(i as int).map_values(
                |e: (Seq<char>, Seq<char>)| "  - "@ + e.0 + ": "@ + e.1,
            ),
        decreases errors@.len() - i,
    {
        let line = concat("  - ", errors[i].to_text().as_str());
        let ghost before = lines@;
        lines.push(line);
        proof {
            let f = |e: (Seq<char>, Seq<char>)| "  - "@ + e.0 + ": "@ + e.1;
            let taken = error_views(errors@).take(i + 1);
            assert(taken =~= error_views(errors@).take(i as int).push(error_views(errors@)[i as int]));
            assert(lines@ =~= before.push(line));
            assert(lines@.map_values(|p: String| p@) =~= before.map_values(|p: String| p@).push(line@));
            assert(taken.map_values(f) =~= error_views(errors@).take(i as int).map_values(f).push(
                f(error_views(errors@)[i as int]),
            ));
            assert(line@ =~= f(error_views(errors@)[i as int]));
        }
        i = i + 1;
    }
    assert(error_views(errors@).take(errors@.len() as int) =~= error_views(errors@));
    join_strings(lines.as_slice(), "\n")
}

// ── Laws ────────────────────────────────────────────────────────────

proof fn lemma_no_errors_each(fields: Seq<RawField>, n: int, k: int)
    requires
        0 <= k < n,
        fields_errors(fields, n).len() == 0,
    ensures
        field_errors(fields, k).len() == 0,
    decreases n,
{
    if k < n - 1 {
        lemma_no_errors_each(fields, n - 1, k);
    }
}

/// A field list the check accepts is well formed: every field name has the
/// required form, every property set is one the field's type admits, and
/// every inverse name sits on a link or links field, has the form of a
/// field name, names no field, and is declared by that field alone.
pub proof fn law_accepted_fields_are_well_formed(fields: Seq<RawField>, k: int)
    requires
        schema_errors(fields).len() == 0,
        0 <= k < fields.len(),
    ensures
        spec_is_valid_field_name(fields[k].name@),
        forall|p: Property| is_set(fields[k].definition, p) ==> admits(fields[k].definition.field_type, p),
        fields[k].definition.inverse matches Some(inverse) ==> {
            &&& is_link(fields[k].definition.field_type)
            &&& spec_is_valid_field_name(inverse@)
            &&& !has_field_named(fields, inverse@)
            &&& forall|j: int| 0 <= j < fields.len() && j != k ==> !declares_inverse(#[trigger] fields[j], inverse@)
        },
{
    lemma_no_errors_each(fields, fields.len() as int, k);
    let field = fields[k];
    let name = field.name@;
    assert forall|p: Property| is_set(field.definition, p) implies admits(field.definition.field_type, p) by {
        assert(property_errors(name, field.definition, p).len() == 0);
    }
    if let Some(inverse) = field.definition.inverse {
        lemma_first_claim(fields, k, inverse@);
        assert forall|j: int| 0 <= j < fields.len() && j != k implies !declares_inverse(#[trigger] fields[j], inverse@) by {
            if j > k && declares_inverse(fields[j], inverse@) {
                lemma_no_errors_each(fields, fields.len() as int, j);
                lemma_first_claim(fields, j, inverse@);
                assert(declares_inverse(fields[k], inverse@));
            }
        }
    }
}


} // verus!
