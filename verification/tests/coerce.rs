use workdown_core::coerce::coerce_fields;
use workdown_core::diagnostic::{Diagnostic, DiagnosticBody, FieldValueError, ItemDiagnosticKind};
use workdown_core::frontmatter::RawWorkItem;
use workdown_core::model::{Date, FieldMap, FieldValue, Severity, WorkItemId};
use workdown_core::schema::{FieldDefinition, FieldTypeConfig, NamedField, Schema};
use workdown_core::yaml::YamlValue;

/// A schema with the given fields, in order.
fn schema(fields: Vec<(&str, FieldDefinition)>) -> Schema {
    Schema {
        fields: fields
            .into_iter()
            .map(|(name, definition)| NamedField {
                name: name.to_owned(),
                definition,
            })
            .collect(),
    }
}

/// A raw work item with the given frontmatter.
fn raw_item(id: &str, frontmatter: Vec<(&str, YamlValue)>) -> RawWorkItem {
    RawWorkItem {
        id: WorkItemId::from(id.to_owned()),
        frontmatter: frontmatter
            .into_iter()
            .map(|(key, value)| (key.to_owned(), value))
            .collect(),
        body: String::new(),
        source_path: format!("{id}.md"),
    }
}

fn yaml_str(s: &str) -> YamlValue {
    YamlValue::String(s.to_owned())
}

fn yaml_int(n: i64) -> YamlValue {
    YamlValue::Number {
        integer: Some(n),
        text: n.to_string(),
    }
}

fn yaml_float(n: f64) -> YamlValue {
    YamlValue::Number {
        integer: None,
        text: serde_yaml::Number::from(n).to_string(),
    }
}

fn yaml_bool(b: bool) -> YamlValue {
    YamlValue::Bool(b)
}

fn yaml_seq(items: Vec<YamlValue>) -> YamlValue {
    YamlValue::Sequence(items)
}

fn kind(diagnostic: &Diagnostic) -> &ItemDiagnosticKind {
    match &diagnostic.body {
        DiagnosticBody::Item(item) => &item.kind,
        other => panic!("expected an item diagnostic, got {other:?}"),
    }
}

fn value<'a>(fields: &'a FieldMap, name: &str) -> &'a FieldValue {
    fields.get(name).unwrap()
}

/// Assert that diagnostics contain exactly one InvalidFieldValue with the expected error kind.
fn assert_field_error(diagnostics: &[Diagnostic], expected: fn(&FieldValueError) -> bool) {
    assert_eq!(diagnostics.len(), 1, "expected exactly one diagnostic");
    match kind(&diagnostics[0]) {
        ItemDiagnosticKind::InvalidFieldValue { detail, .. } => {
            assert!(expected(detail), "unexpected error detail: {detail:?}");
        }
        other => panic!("expected InvalidFieldValue, got {other:?}"),
    }
}


#[test]
fn coerce_string_valid() {
    let s = schema(vec![(
        "title",
        FieldDefinition::new(FieldTypeConfig::String { pattern: None }),
    )]);
    let raw = raw_item("t", vec![("title", yaml_str("Hello"))]);
    let (fields, diagnostics) = coerce_fields(&raw, &s);

    assert!(diagnostics.is_empty());
    assert_eq!(*value(&fields, "title"), FieldValue::String("Hello".into()));
}

#[test]
fn coerce_string_rejects_number() {
    let s = schema(vec![(
        "title",
        FieldDefinition::new(FieldTypeConfig::String { pattern: None }),
    )]);
    let raw = raw_item("t", vec![("title", yaml_int(42))]);
    let (fields, diagnostics) = coerce_fields(&raw, &s);

    assert!(fields.get("title").is_none());
    assert_field_error(&diagnostics, |e| {
        matches!(e, FieldValueError::TypeMismatch { .. })
    });
}

#[test]
fn coerce_string_with_pattern() {
    let def = FieldDefinition::new(FieldTypeConfig::String {
        pattern: Some(r"^[A-Z]{3}-\d+$".to_owned()),
    });
    let s = schema(vec![("code", def)]);

    let raw = raw_item("t", vec![("code", yaml_str("ABC-123"))]);
    let (fields, diagnostics) = coerce_fields(&raw, &s);
    assert!(diagnostics.is_empty());
    assert_eq!(*value(&fields, "code"), FieldValue::String("ABC-123".into()));

    let raw_bad = raw_item("t", vec![("code", yaml_str("abc"))]);
    let (fields, diagnostics) = coerce_fields(&raw_bad, &s);
    assert!(fields.get("code").is_none());
    assert_field_error(&diagnostics, |e| {
        matches!(e, FieldValueError::PatternMismatch { .. })
    });
}

#[test]
fn coerce_choice_valid() {
    let def = FieldDefinition::new(FieldTypeConfig::Choice {
        values: vec!["open".into(), "closed".into()],
    });
    let s = schema(vec![("status", def)]);
    let raw = raw_item("t", vec![("status", yaml_str("open"))]);
    let (fields, diagnostics) = coerce_fields(&raw, &s);

    assert!(diagnostics.is_empty());
    assert_eq!(*value(&fields, "status"), FieldValue::Choice("open".into()));
}

#[test]
fn coerce_choice_invalid_value() {
    let def = FieldDefinition::new(FieldTypeConfig::Choice {
        values: vec!["open".into(), "closed".into()],
    });
    let s = schema(vec![("status", def)]);
    let raw = raw_item("t", vec![("status", yaml_str("unknown"))]);
    let (fields, diagnostics) = coerce_fields(&raw, &s);

    assert!(fields.get("status").is_none());
    assert_field_error(&diagnostics, |e| {
        matches!(e, FieldValueError::InvalidChoice { .. })
    });
}

#[test]
fn coerce_choice_rejects_number() {
    let def = FieldDefinition::new(FieldTypeConfig::Choice {
        values: vec!["open".into()],
    });
    let s = schema(vec![("status", def)]);
    let raw = raw_item("t", vec![("status", yaml_int(1))]);
    let (_, diagnostics) = coerce_fields(&raw, &s);

    assert_field_error(&diagnostics, |e| {
        matches!(e, FieldValueError::TypeMismatch { .. })
    });
}

#[test]
fn coerce_multichoice_valid() {
    let def = FieldDefinition::new(FieldTypeConfig::Multichoice {
        values: vec!["a".into(), "b".into(), "c".into()],
    });
    let s = schema(vec![("labels", def)]);
    let raw = raw_item(
        "t",
        vec![("labels", yaml_seq(vec![yaml_str("a"), yaml_str("b")]))],
    );
    let (fields, diagnostics) = coerce_fields(&raw, &s);

    assert!(diagnostics.is_empty());
    assert_eq!(
        *value(&fields, "labels"),
        FieldValue::Multichoice(vec!["a".into(), "b".into()])
    );
}

#[test]
fn coerce_multichoice_invalid_values() {
    let def = FieldDefinition::new(FieldTypeConfig::Multichoice {
        values: vec!["a".into(), "b".into()],
    });
    let s = schema(vec![("labels", def)]);
    let raw = raw_item(
        "t",
        vec![("labels", yaml_seq(vec![yaml_str("a"), yaml_str("x")]))],
    );
    let (_, diagnostics) = coerce_fields(&raw, &s);

    assert_field_error(&diagnostics, |e| {
        matches!(e, FieldValueError::InvalidMultichoice { .. })
    });
}

#[test]
fn coerce_multichoice_rejects_string() {
    let def = FieldDefinition::new(FieldTypeConfig::Multichoice {
        values: vec!["a".into()],
    });
    let s = schema(vec![("labels", def)]);
    let raw = raw_item("t", vec![("labels", yaml_str("a"))]);
    let (_, diagnostics) = coerce_fields(&raw, &s);

    assert_field_error(&diagnostics, |e| {
        matches!(e, FieldValueError::TypeMismatch { .. })
    });
}

#[test]
fn coerce_integer_valid() {
    let s = schema(vec![(
        "priority",
        FieldDefinition::new(FieldTypeConfig::Integer {
            min: None,
            max: None,
        }),
    )]);
    let raw = raw_item("t", vec![("priority", yaml_int(42))]);
    let (fields, diagnostics) = coerce_fields(&raw, &s);

    assert!(diagnostics.is_empty());
    assert_eq!(*value(&fields, "priority"), FieldValue::Integer(42));
}

#[test]
fn coerce_integer_out_of_range() {
    let def = FieldDefinition::new(FieldTypeConfig::Integer {
        min: Some("1.0".into()),
        max: Some("10.0".into()),
    });
    let s = schema(vec![("priority", def)]);

    let raw = raw_item("t", vec![("priority", yaml_int(0))]);
    let (_, diagnostics) = coerce_fields(&raw, &s);
    assert_field_error(&diagnostics, |e| {
        matches!(e, FieldValueError::OutOfRange { .. })
    });

    let raw = raw_item("t", vec![("priority", yaml_int(11))]);
    let (_, diagnostics) = coerce_fields(&raw, &s);
    assert_field_error(&diagnostics, |e| {
        matches!(e, FieldValueError::OutOfRange { .. })
    });
}

#[test]
fn coerce_integer_rejects_string() {
    let s = schema(vec![(
        "priority",
        FieldDefinition::new(FieldTypeConfig::Integer {
            min: None,
            max: None,
        }),
    )]);
    let raw = raw_item("t", vec![("priority", yaml_str("high"))]);
    let (_, diagnostics) = coerce_fields(&raw, &s);

    assert_field_error(&diagnostics, |e| {
        matches!(e, FieldValueError::TypeMismatch { .. })
    });
}

#[test]
fn coerce_float_valid() {
    let s = schema(vec![(
        "weight",
        FieldDefinition::new(FieldTypeConfig::Float {
            min: None,
            max: None,
        }),
    )]);
    let raw = raw_item("t", vec![("weight", yaml_float(2.5))]);
    let (fields, diagnostics) = coerce_fields(&raw, &s);

    assert!(diagnostics.is_empty());
    assert_eq!(*value(&fields, "weight"), FieldValue::Float("2.5".into()));
}

#[test]
fn coerce_float_from_integer() {
    let s = schema(vec![(
        "weight",
        FieldDefinition::new(FieldTypeConfig::Float {
            min: None,
            max: None,
        }),
    )]);
    let raw = raw_item("t", vec![("weight", yaml_int(5))]);
    let (fields, diagnostics) = coerce_fields(&raw, &s);

    assert!(diagnostics.is_empty());
    assert_eq!(*value(&fields, "weight"), FieldValue::Float("5".into()));
}

#[test]
fn coerce_float_out_of_range() {
    let def = FieldDefinition::new(FieldTypeConfig::Float {
        min: Some("0.0".into()),
        max: Some("1.0".into()),
    });
    let s = schema(vec![("ratio", def)]);
    let raw = raw_item("t", vec![("ratio", yaml_float(1.5))]);
    let (_, diagnostics) = coerce_fields(&raw, &s);

    assert_field_error(&diagnostics, |e| {
        matches!(e, FieldValueError::OutOfRange { .. })
    });
}

#[test]
fn coerce_date_valid() {
    let s = schema(vec![(
        "created",
        FieldDefinition::new(FieldTypeConfig::Date),
    )]);
    let raw = raw_item("t", vec![("created", yaml_str("2026-01-15"))]);
    let (fields, diagnostics) = coerce_fields(&raw, &s);

    assert!(diagnostics.is_empty());
    assert_eq!(
        *value(&fields, "created"),
        FieldValue::Date(Date::from_ymd(2026, 1, 15).unwrap())
    );
}

#[test]
fn coerce_date_invalid_format() {
    let s = schema(vec![(
        "created",
        FieldDefinition::new(FieldTypeConfig::Date),
    )]);
    let raw = raw_item("t", vec![("created", yaml_str("01/15/2026"))]);
    let (_, diagnostics) = coerce_fields(&raw, &s);

    assert_field_error(&diagnostics, |e| {
        matches!(e, FieldValueError::InvalidDate { .. })
    });
}

#[test]
fn coerce_date_invalid_day() {
    let s = schema(vec![(
        "created",
        FieldDefinition::new(FieldTypeConfig::Date),
    )]);
    let raw = raw_item("t", vec![("created", yaml_str("2026-02-30"))]);
    let (_, diagnostics) = coerce_fields(&raw, &s);

    assert_field_error(&diagnostics, |e| {
        matches!(e, FieldValueError::InvalidDate { .. })
    });
}

#[test]
fn coerce_date_leap_year() {
    let s = schema(vec![(
        "created",
        FieldDefinition::new(FieldTypeConfig::Date),
    )]);

    let raw = raw_item("t", vec![("created", yaml_str("2024-02-29"))]);
    let (fields, diagnostics) = coerce_fields(&raw, &s);
    assert!(diagnostics.is_empty());
    assert_eq!(
        *value(&fields, "created"),
        FieldValue::Date(Date::from_ymd(2024, 2, 29).unwrap())
    );

    let raw = raw_item("t", vec![("created", yaml_str("2023-02-29"))]);
    let (_, diagnostics) = coerce_fields(&raw, &s);
    assert!(!diagnostics.is_empty());
}

#[test]
fn coerce_duration_simple_days() {
    let s = schema(vec![(
        "estimate",
        FieldDefinition::new(FieldTypeConfig::Duration {
            min: None,
            max: None,
        }),
    )]);
    let raw = raw_item("t", vec![("estimate", yaml_str("5d"))]);
    let (fields, diagnostics) = coerce_fields(&raw, &s);

    assert!(diagnostics.is_empty(), "got diagnostics: {diagnostics:?}");
    assert_eq!(*value(&fields, "estimate"), FieldValue::Duration(432_000));
}

#[test]
fn coerce_duration_compound() {
    let s = schema(vec![(
        "estimate",
        FieldDefinition::new(FieldTypeConfig::Duration {
            min: None,
            max: None,
        }),
    )]);
    let raw = raw_item("t", vec![("estimate", yaml_str("1w 2d 3h"))]);
    let (fields, diagnostics) = coerce_fields(&raw, &s);

    assert!(diagnostics.is_empty());
    // 1w + 2d + 3h = 604_800 + 172_800 + 10_800 = 788_400
    assert_eq!(*value(&fields, "estimate"), FieldValue::Duration(788_400));
}

#[test]
fn coerce_duration_negative() {
    let s = schema(vec![(
        "estimate",
        FieldDefinition::new(FieldTypeConfig::Duration {
            min: None,
            max: None,
        }),
    )]);
    let raw = raw_item("t", vec![("estimate", yaml_str("-2d"))]);
    let (fields, diagnostics) = coerce_fields(&raw, &s);

    assert!(diagnostics.is_empty());
    assert_eq!(*value(&fields, "estimate"), FieldValue::Duration(-172_800));
}

#[test]
fn coerce_duration_below_min_rejected() {
    let s = schema(vec![(
        "estimate",
        FieldDefinition::new(FieldTypeConfig::Duration {
            min: Some("0".into()),
            max: None,
        }),
    )]);
    let raw = raw_item("t", vec![("estimate", yaml_str("-2d"))]);
    let (_, diagnostics) = coerce_fields(&raw, &s);

    assert_field_error(&diagnostics, |e| {
        matches!(e, FieldValueError::OutOfRangeDuration { .. })
    });
}

#[test]
fn coerce_duration_above_max_rejected() {
    let s = schema(vec![(
        "estimate",
        FieldDefinition::new(FieldTypeConfig::Duration {
            min: None,
            max: Some("86400".into()),
        }),
    )]);
    let raw = raw_item("t", vec![("estimate", yaml_str("2d"))]);
    let (_, diagnostics) = coerce_fields(&raw, &s);

    assert_field_error(&diagnostics, |e| {
        matches!(e, FieldValueError::OutOfRangeDuration { .. })
    });
}

#[test]
fn coerce_duration_bare_integer_rejected() {
    // Bare numeric YAML value rejects with TypeMismatch — design says
    // strings only, no magic interpretation of ints.
    let s = schema(vec![(
        "estimate",
        FieldDefinition::new(FieldTypeConfig::Duration {
            min: None,
            max: None,
        }),
    )]);
    let raw = raw_item("t", vec![("estimate", yaml_int(5))]);
    let (_, diagnostics) = coerce_fields(&raw, &s);

    assert_field_error(&diagnostics, |e| {
        matches!(e, FieldValueError::TypeMismatch { .. })
    });
}

#[test]
fn coerce_duration_invalid_string_rejected() {
    let s = schema(vec![(
        "estimate",
        FieldDefinition::new(FieldTypeConfig::Duration {
            min: None,
            max: None,
        }),
    )]);
    let raw = raw_item("t", vec![("estimate", yaml_str("garbage"))]);
    let (_, diagnostics) = coerce_fields(&raw, &s);

    assert_field_error(&diagnostics, |e| {
        matches!(e, FieldValueError::InvalidDuration { .. })
    });
}

#[test]
fn coerce_duration_unknown_unit_rejected() {
    // `5y` (years) — explicitly out of scope.
    let s = schema(vec![(
        "estimate",
        FieldDefinition::new(FieldTypeConfig::Duration {
            min: None,
            max: None,
        }),
    )]);
    let raw = raw_item("t", vec![("estimate", yaml_str("5y"))]);
    let (_, diagnostics) = coerce_fields(&raw, &s);

    assert_field_error(&diagnostics, |e| {
        matches!(e, FieldValueError::InvalidDuration { .. })
    });
}

#[test]
fn coerce_boolean_valid() {
    let s = schema(vec![(
        "active",
        FieldDefinition::new(FieldTypeConfig::Boolean),
    )]);
    let raw = raw_item("t", vec![("active", yaml_bool(true))]);
    let (fields, diagnostics) = coerce_fields(&raw, &s);

    assert!(diagnostics.is_empty());
    assert_eq!(*value(&fields, "active"), FieldValue::Boolean(true));
}

#[test]
fn coerce_boolean_rejects_string() {
    let s = schema(vec![(
        "active",
        FieldDefinition::new(FieldTypeConfig::Boolean),
    )]);
    let raw = raw_item("t", vec![("active", yaml_str("true"))]);
    let (_, diagnostics) = coerce_fields(&raw, &s);

    assert_field_error(&diagnostics, |e| {
        matches!(e, FieldValueError::TypeMismatch { .. })
    });
}

#[test]
fn coerce_list_valid() {
    let s = schema(vec![("tags", FieldDefinition::new(FieldTypeConfig::List))]);
    let raw = raw_item(
        "t",
        vec![("tags", yaml_seq(vec![yaml_str("a"), yaml_str("b")]))],
    );
    let (fields, diagnostics) = coerce_fields(&raw, &s);

    assert!(diagnostics.is_empty());
    assert_eq!(
        *value(&fields, "tags"),
        FieldValue::List(vec!["a".into(), "b".into()])
    );
}

#[test]
fn coerce_list_rejects_non_string_elements() {
    let s = schema(vec![("tags", FieldDefinition::new(FieldTypeConfig::List))]);
    let raw = raw_item(
        "t",
        vec![("tags", yaml_seq(vec![yaml_str("a"), yaml_int(1)]))],
    );
    let (_, diagnostics) = coerce_fields(&raw, &s);

    assert_field_error(&diagnostics, |e| {
        matches!(e, FieldValueError::TypeMismatch { .. })
    });
}

#[test]
fn coerce_link_valid() {
    let s = schema(vec![(
        "parent",
        FieldDefinition::new(FieldTypeConfig::Link {
            allow_cycles: None,
            inverse: None,
        }),
    )]);
    let raw = raw_item("t", vec![("parent", yaml_str("auth-epic"))]);
    let (fields, diagnostics) = coerce_fields(&raw, &s);

    assert!(diagnostics.is_empty());
    assert_eq!(
        *value(&fields, "parent"),
        FieldValue::Link(WorkItemId::from("auth-epic".to_owned()))
    );
}

#[test]
fn coerce_link_rejects_number() {
    let s = schema(vec![(
        "parent",
        FieldDefinition::new(FieldTypeConfig::Link {
            allow_cycles: None,
            inverse: None,
        }),
    )]);
    let raw = raw_item("t", vec![("parent", yaml_int(1))]);
    let (_, diagnostics) = coerce_fields(&raw, &s);

    assert_field_error(&diagnostics, |e| {
        matches!(e, FieldValueError::TypeMismatch { .. })
    });
}

#[test]
fn coerce_links_valid() {
    let s = schema(vec![(
        "depends_on",
        FieldDefinition::new(FieldTypeConfig::Links {
            allow_cycles: None,
            inverse: None,
        }),
    )]);
    let raw = raw_item(
        "t",
        vec![("depends_on", yaml_seq(vec![yaml_str("a"), yaml_str("b")]))],
    );
    let (fields, diagnostics) = coerce_fields(&raw, &s);

    assert!(diagnostics.is_empty());
    assert_eq!(
        *value(&fields, "depends_on"),
        FieldValue::Links(vec![
            WorkItemId::from("a".to_owned()),
            WorkItemId::from("b".to_owned())
        ])
    );
}

#[test]
fn coerce_links_rejects_string() {
    let s = schema(vec![(
        "depends_on",
        FieldDefinition::new(FieldTypeConfig::Links {
            allow_cycles: None,
            inverse: None,
        }),
    )]);
    let raw = raw_item("t", vec![("depends_on", yaml_str("a"))]);
    let (_, diagnostics) = coerce_fields(&raw, &s);

    assert_field_error(&diagnostics, |e| {
        matches!(e, FieldValueError::TypeMismatch { .. })
    });
}

#[test]
fn unknown_field_produces_warning() {
    let s = schema(vec![(
        "title",
        FieldDefinition::new(FieldTypeConfig::String { pattern: None }),
    )]);
    let raw = raw_item(
        "t",
        vec![("title", yaml_str("Hi")), ("bogus", yaml_str("x"))],
    );
    let (fields, diagnostics) = coerce_fields(&raw, &s);

    assert_eq!(fields.len(), 1);
    assert!(diagnostics.iter().any(|diagnostic| {
        diagnostic.severity == Severity::Warning
            && matches!(
                kind(diagnostic),
                ItemDiagnosticKind::UnknownField { field, .. } if field == "bogus"
            )
    }));
}

#[test]
fn missing_required_field() {
    let mut def = FieldDefinition::new(FieldTypeConfig::String { pattern: None });
    def.required = true;
    let s = schema(vec![("title", def)]);
    let raw = raw_item("t", vec![]);
    let (fields, diagnostics) = coerce_fields(&raw, &s);

    assert_eq!(fields.len(), 0);
    assert!(diagnostics.iter().any(|diagnostic| matches!(
        kind(diagnostic),
        ItemDiagnosticKind::MissingRequired { field, .. } if field == "title"
    )));
}

#[test]
fn null_value_treated_as_absent() {
    let mut def = FieldDefinition::new(FieldTypeConfig::String { pattern: None });
    def.required = true;
    let s = schema(vec![("title", def)]);
    let raw = raw_item("t", vec![("title", YamlValue::Null)]);
    let (fields, diagnostics) = coerce_fields(&raw, &s);

    assert!(fields.get("title").is_none());
    assert!(diagnostics.iter().any(|diagnostic| matches!(
        kind(diagnostic),
        ItemDiagnosticKind::MissingRequired { field, .. } if field == "title"
    )));
}

#[test]
fn id_field_skipped() {
    let s = schema(vec![
        (
            "id",
            FieldDefinition::new(FieldTypeConfig::String { pattern: None }),
        ),
        (
            "title",
            FieldDefinition::new(FieldTypeConfig::String { pattern: None }),
        ),
    ]);
    let raw = raw_item("t", vec![("title", yaml_str("Hi"))]);
    let (fields, diagnostics) = coerce_fields(&raw, &s);

    assert!(diagnostics.is_empty());
    assert!(fields.get("id").is_none());
    assert_eq!(*value(&fields, "title"), FieldValue::String("Hi".into()));
}

#[test]
fn coerce_multiple_errors_collected() {
    let mut title_def = FieldDefinition::new(FieldTypeConfig::String { pattern: None });
    title_def.required = true;
    let status_def = FieldDefinition::new(FieldTypeConfig::Choice {
        values: vec!["open".into()],
    });
    let s = schema(vec![("title", title_def), ("status", status_def)]);

    // title is missing (required), status has wrong value
    let raw = raw_item("t", vec![("status", yaml_str("invalid"))]);
    let (fields, diagnostics) = coerce_fields(&raw, &s);

    assert_eq!(fields.len(), 0);
    assert_eq!(diagnostics.len(), 2);
}
