use workdown_core::content_hash::content_hash;
use workdown_core::model::{FieldType, FieldValue};
use workdown_core::schema::{
    AggregateFunction, DefaultValue, FieldDefinition, FieldTypeConfig, Generator, NamedField, Schema,
};
use workdown_core::schema_definition::{build, DefaultData, FieldDefinitionData, FieldShape, SchemaDefinitionData};

const SCHEMA_YAML: &str = "\
fields:
  id:
    type: string
    default: $filename
  title:
    type: string
    pattern: '^[A-Z]'
    resource: titles
  status:
    type: choice
    values: [open, done]
    required: true
    default: open
  points:
    type: integer
    min: 0
    max: 100
    default: 3
  effort:
    type: duration
    min: 1h
    max: 2w
  when_done:
    type: date
    compute:
      expression: start + effort
      round: ceil
  start:
    type: date
    default: not-a-date
  flag:
    type: boolean
    default: true
  color:
    type: color
    when:
      - if: status == \"done\"
        then: green
  parent:
    type: link
    allow_cycles: false
    inverse: children
  total:
    type: integer
    aggregate:
      function: sum
      over: parent
  earliest:
    type: date
    pull:
      over: depends_on
      field: start
      function: min
";

fn named(name: &str, config: FieldTypeConfig, change: impl FnOnce(&mut FieldDefinition)) -> NamedField {
    let mut definition = FieldDefinition::new(config);
    change(&mut definition);
    NamedField {
        name: name.to_owned(),
        definition,
    }
}

fn schema() -> Schema {
    Schema {
        fields: vec![
            named("id", FieldTypeConfig::String { pattern: None }, |d| {
                d.default = Some(DefaultValue::Generator(Generator::Filename))
            }),
            named(
                "title",
                FieldTypeConfig::String {
                    pattern: Some("^[A-Z]".into()),
                },
                |d| d.resource = Some("titles".into()),
            ),
            named(
                "status",
                FieldTypeConfig::Choice {
                    values: vec!["open".into(), "done".into()],
                },
                |d| {
                    d.required = true;
                    d.default = Some(DefaultValue::String("open".into()));
                },
            ),
            named(
                "points",
                FieldTypeConfig::Integer {
                    min: Some("0".into()),
                    max: Some("100".into()),
                },
                |d| d.default = Some(DefaultValue::Integer(3)),
            ),
            named(
                "effort",
                FieldTypeConfig::Duration {
                    min: Some("3600".into()),
                    max: Some("1209600".into()),
                },
                |_| {},
            ),
            named("when_done", FieldTypeConfig::Date, |_| {}),
            named("start", FieldTypeConfig::Date, |d| {
                d.default = Some(DefaultValue::String("not-a-date".into()))
            }),
            named("flag", FieldTypeConfig::Boolean, |d| d.default = Some(DefaultValue::Bool(true))),
            named("color", FieldTypeConfig::Color, |_| {}),
            named(
                "parent",
                FieldTypeConfig::Link {
                    allow_cycles: Some(false),
                    inverse: Some("children".into()),
                },
                |_| {},
            ),
            named("total", FieldTypeConfig::Integer { min: None, max: None }, |_| {}),
            named("earliest", FieldTypeConfig::Date, |_| {}),
        ],
    }
}

fn built() -> SchemaDefinitionData {
    build(&schema(), SCHEMA_YAML).expect("the test schema loads")
}

fn field<'a>(data: &'a SchemaDefinitionData, name: &str) -> &'a FieldDefinitionData {
    data.fields.iter().find(|f| f.name == name).unwrap()
}

#[test]
fn definition_fields_come_in_declaration_order() {
    let data = built();
    let names: Vec<&str> = data.fields.iter().map(|f| f.name.as_str()).collect();
    assert_eq!(
        names,
        [
            "id", "title", "status", "points", "effort", "when_done", "start", "flag", "color", "parent",
            "total", "earliest"
        ]
    );
    assert_eq!(field(&data, "status").field_type, FieldType::Choice);
    assert!(field(&data, "status").required);
    assert_eq!(field(&data, "title").resource.as_deref(), Some("titles"));
}

#[test]
fn shapes_follow_the_type_config() {
    let data = built();
    assert!(matches!(&field(&data, "title").shape, FieldShape::Text { pattern: Some(p) } if p == "^[A-Z]"));
    assert!(matches!(&field(&data, "status").shape, FieldShape::Values { values } if values == &vec!["open".to_owned(), "done".to_owned()]));
    assert!(matches!(&field(&data, "points").shape, FieldShape::Numeric { min: Some(a), max: Some(b) } if a == "0" && b == "100"));
    assert!(matches!(
        field(&data, "effort").shape,
        FieldShape::Duration {
            min_seconds: Some(3600),
            max_seconds: Some(1209600)
        }
    ));
    assert!(matches!(field(&data, "flag").shape, FieldShape::Scalar));
    assert!(matches!(
        &field(&data, "parent").shape,
        FieldShape::Relation { allow_cycles: Some(false), inverse: Some(i) } if i == "children"
    ));
}

#[test]
fn defaults_are_generator_literal_or_invalid_text() {
    let data = built();
    assert!(matches!(
        field(&data, "id").default,
        Some(DefaultData::Generator {
            generator: Generator::Filename
        })
    ));
    assert!(matches!(&field(&data, "status").default, Some(DefaultData::Literal { value: FieldValue::Choice(v) }) if v == "open"));
    assert!(matches!(
        field(&data, "points").default,
        Some(DefaultData::Literal {
            value: FieldValue::Integer(3)
        })
    ));
    assert!(matches!(
        field(&data, "flag").default,
        Some(DefaultData::Literal {
            value: FieldValue::Boolean(true)
        })
    ));
    match &field(&data, "start").default {
        Some(DefaultData::Invalid { text, .. }) => assert_eq!(text, "not-a-date"),
        other => panic!("expected an invalid default, got {other:?}"),
    }
    assert!(field(&data, "title").default.is_none());
}

#[test]
fn derived_blocks_are_the_yaml_text_of_the_block() {
    let data = built();
    let title = &field(&data, "title").derived;
    assert!(title.compute.is_none() && title.when.is_none() && title.pull.is_none() && title.aggregate.is_none());
    assert_eq!(
        field(&data, "when_done").derived.compute.as_deref(),
        Some("expression: start + effort\nround: ceil")
    );
    assert_eq!(
        field(&data, "color").derived.when.as_deref(),
        Some("- if: status == \"done\"\n  then: green")
    );
    assert_eq!(
        field(&data, "total").derived.aggregate.as_deref(),
        Some("function: sum\nover: parent")
    );
    assert_eq!(
        field(&data, "earliest").derived.pull.as_deref(),
        Some("over: depends_on\nfield: start\nfunction: min")
    );
}

#[test]
fn tables_cover_every_field_type() {
    let data = built();
    assert_eq!(data.aggregate_functions_by_type.len(), 12);
    assert_eq!(data.generators_by_type.len(), 12);
    let date = data
        .generators_by_type
        .iter()
        .find(|row| row.field_type == FieldType::Date)
        .unwrap();
    assert!(matches!(date.generators.as_slice(), [Generator::Today]));
    let choice = data
        .aggregate_functions_by_type
        .iter()
        .find(|row| row.field_type == FieldType::Choice)
        .unwrap();
    assert!(choice.functions.is_empty());
    let integer = data
        .aggregate_functions_by_type
        .iter()
        .find(|row| row.field_type == FieldType::Integer)
        .unwrap();
    assert!(matches!(integer.functions.first(), Some(AggregateFunction::Sum)));
}

#[test]
fn definition_hash_follows_the_bytes() {
    let data = built();
    assert_eq!(data.hash, content_hash(SCHEMA_YAML));
    let edited = SCHEMA_YAML.replace("required: true", "required: false");
    assert_ne!(build(&schema(), &edited).unwrap().hash, data.hash);
}

#[test]
fn unparsable_text_is_an_error() {
    assert!(build(&schema(), "fields: [unclosed").is_err());
}
