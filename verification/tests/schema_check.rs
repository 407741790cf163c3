use workdown_core::model::FieldType;
use workdown_core::schema::{
    AggregateConfig, AggregateFunction, DefaultValue, FieldTypeConfig, Generator,
};
use workdown_core::schema_check::{
    format_validation_errors, is_valid_field_name, schema_from_raw, validate_fields, RawField,
    RawFieldDefinition, SchemaValidationError,
};

/// A definition of the given type with nothing else set.
fn raw(field_type: FieldType) -> RawFieldDefinition {
    RawFieldDefinition {
        field_type,
        description: None,
        required: false,
        default: None,
        values: None,
        pattern: None,
        min: None,
        max: None,
        allow_cycles: None,
        resource: None,
        aggregate: None,
        inverse: None,
    }
}

fn field(name: &str, definition: RawFieldDefinition) -> RawField {
    RawField {
        name: name.to_owned(),
        definition,
    }
}

fn errors_of(fields: Vec<RawField>) -> Vec<SchemaValidationError> {
    match schema_from_raw(fields) {
        Ok(_) => panic!("expected validation errors"),
        Err(errors) => errors,
    }
}

fn sum_aggregate() -> AggregateConfig {
    AggregateConfig {
        function: AggregateFunction::Sum,
        over: None,
        error_on_missing: false,
    }
}

#[test]
fn parse_minimal_schema() {
    let schema = schema_from_raw(vec![field("title", raw(FieldType::String))]).unwrap();
    assert_eq!(schema.fields.len(), 1);
}

#[test]
fn field_order_preserved() {
    let schema = schema_from_raw(vec![
        field("zebra", raw(FieldType::String)),
        field("alpha", raw(FieldType::String)),
        field("middle", raw(FieldType::String)),
    ])
    .unwrap();
    let names: Vec<&str> = schema.fields.iter().map(|f| f.name.as_str()).collect();
    assert_eq!(names, vec!["zebra", "alpha", "middle"]);
}

#[test]
fn default_values_parsed() {
    let mut id = raw(FieldType::String);
    id.default = Some(DefaultValue::Generator(Generator::Filename));
    let mut created = raw(FieldType::Date);
    created.default = Some(DefaultValue::Generator(Generator::Today));
    let mut count = raw(FieldType::Integer);
    count.default = Some(DefaultValue::Integer(42));
    let mut status = raw(FieldType::Choice);
    status.values = Some(vec!["open".into(), "closed".into()]);
    status.default = Some(DefaultValue::String("open".into()));
    let schema = schema_from_raw(vec![
        field("id", id),
        field("created", created),
        field("count", count),
        field("status", status),
    ])
    .unwrap();
    assert!(matches!(
        schema.fields[0].definition.default,
        Some(DefaultValue::Generator(Generator::Filename))
    ));
    assert!(matches!(
        schema.fields[1].definition.default,
        Some(DefaultValue::Generator(Generator::Today))
    ));
    assert!(matches!(
        schema.fields[2].definition.default,
        Some(DefaultValue::Integer(42))
    ));
    assert!(matches!(
        &schema.fields[3].definition.default,
        Some(DefaultValue::String(text)) if text == "open"
    ));
    match &schema.fields[3].definition.type_config {
        FieldTypeConfig::Choice { values } => assert_eq!(values, &["open", "closed"]),
        other => panic!("expected Choice, got: {other:?}"),
    }
}

#[test]
fn choice_without_values() {
    let errors = errors_of(vec![field("status", raw(FieldType::Choice))]);
    assert!(errors
        .iter()
        .any(|e| e.message.contains("'values' is required")));
}

#[test]
fn min_on_string_rejected() {
    let mut name = raw(FieldType::String);
    name.min = Some("5".into());
    let errors = errors_of(vec![field("name", name)]);
    assert!(errors
        .iter()
        .any(|e| e.message.contains("'min' is not valid")));
}

#[test]
fn aggregate_on_link_rejected() {
    let mut parent = raw(FieldType::Link);
    parent.aggregate = Some(sum_aggregate());
    let errors = errors_of(vec![field("parent", parent)]);
    assert!(errors
        .iter()
        .any(|e| e.message.contains("'aggregate' is not valid")));
}

#[test]
fn invalid_aggregate_function_for_type() {
    let mut done = raw(FieldType::Boolean);
    done.aggregate = Some(sum_aggregate());
    let errors = errors_of(vec![field("done", done)]);
    assert!(errors
        .iter()
        .any(|e| e.message.contains("aggregate function 'sum' is not valid")));
}

#[test]
fn invalid_field_name() {
    let errors = errors_of(vec![field("Status", raw(FieldType::String))]);
    assert!(errors
        .iter()
        .any(|e| e.context.contains("Status") && e.message.contains("field name")));
}

#[test]
fn schema_multiple_errors_collected() {
    let mut good = raw(FieldType::String);
    good.min = Some("10".into());
    let errors = errors_of(vec![
        field("BadName", raw(FieldType::Choice)),
        field("good", good),
    ]);
    // Should have at least 2 errors: bad name + choice without values, and min on string
    assert!(
        errors.len() >= 2,
        "expected multiple errors, got: {errors:?}"
    );
}

#[test]
fn incompatible_default_rejected() {
    let mut count = raw(FieldType::Integer);
    count.default = Some(DefaultValue::String("hello".into()));
    let errors = errors_of(vec![field("count", count)]);
    assert!(errors.iter().any(|e| e.message.contains("not compatible")));
}

#[test]
fn generator_on_wrong_type_rejected() {
    let mut count = raw(FieldType::Integer);
    count.default = Some(DefaultValue::Generator(Generator::Today));
    let errors = errors_of(vec![field("count", count)]);
    assert!(errors
        .iter()
        .any(|e| e.message.contains("$today") && e.message.contains("not compatible")));
}

#[test]
fn choice_default_not_in_values() {
    let mut status = raw(FieldType::Choice);
    status.values = Some(vec!["open".into(), "closed".into()]);
    status.default = Some(DefaultValue::String("pending".into()));
    let errors = errors_of(vec![field("status", status)]);
    assert!(errors
        .iter()
        .any(|e| e.message.contains("not in the allowed values")));
}

#[test]
fn field_names_are_lowercase_snake_case() {
    assert!(is_valid_field_name("due_date"));
    assert!(is_valid_field_name("_private"));
    assert!(is_valid_field_name("x2"));
    assert!(!is_valid_field_name(""));
    assert!(!is_valid_field_name("2x"));
    assert!(!is_valid_field_name("Due"));
    assert!(!is_valid_field_name("due-date"));
}

#[test]
fn accepted_fields_report_no_errors_and_convert_to_their_type() {
    let mut estimate = raw(FieldType::Duration);
    estimate.min = Some("0".into());
    let fields = vec![field("estimate", estimate), field("done", raw(FieldType::Boolean))];
    assert!(validate_fields(&fields).is_empty());
    let schema = schema_from_raw(fields).unwrap();
    assert!(matches!(
        &schema.fields[0].definition.type_config,
        FieldTypeConfig::Duration { min: Some(min), max: None } if min == "0"
    ));
    assert!(matches!(
        schema.fields[1].definition.type_config,
        FieldTypeConfig::Boolean
    ));
}

#[test]
fn validation_errors_format_one_per_line() {
    let errors = errors_of(vec![field("status", raw(FieldType::Choice))]);
    let text = format_validation_errors(&errors);
    assert!(text.starts_with("  - field 'status': "), "got: {text}");
    assert_eq!(errors[0].to_text(), format!("{}: {}", errors[0].context, errors[0].message));
}
