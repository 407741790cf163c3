use workdown_core::diagnostic::{DiagnosticBody, ItemDiagnosticKind};
use workdown_core::model::{FieldMap, FieldValue, WorkItem, WorkItemId};
use workdown_core::resource_refs::{check, referenced_values, validatable_fields};
use workdown_core::resources::{ResourceEntry, ResourceSection, Resources};
use workdown_core::schema::{FieldDefinition, FieldTypeConfig, NamedField, Schema};

fn resource_field(name: &str, config: FieldTypeConfig, section: &str) -> NamedField {
    let mut definition = FieldDefinition::new(config);
    definition.resource = Some(section.to_owned());
    NamedField {
        name: name.to_owned(),
        definition,
    }
}

fn schema() -> Schema {
    Schema {
        fields: vec![
            resource_field("assignee", FieldTypeConfig::String { pattern: None }, "people"),
            resource_field("watchers", FieldTypeConfig::List, "people"),
            resource_field("team", FieldTypeConfig::String { pattern: None }, "teams"),
            resource_field("owner", FieldTypeConfig::String { pattern: None }, "missing"),
        ],
    }
}

fn resources() -> Resources {
    let entry = |id: &str| ResourceEntry {
        id: id.to_owned(),
        name: None,
    };
    Resources {
        sections: vec![
            ResourceSection {
                name: "people".to_owned(),
                entries: vec![entry("alice"), entry("bob")],
            },
            ResourceSection {
                name: "teams".to_owned(),
                entries: vec![],
            },
        ],
        constants: vec![],
        document_loaded: true,
    }
}

fn item(id: &str, fields: Vec<(&str, FieldValue)>) -> WorkItem {
    let mut map = FieldMap::new();
    for (name, value) in fields {
        map.insert(name.to_owned(), value);
    }
    WorkItem {
        id: WorkItemId::from(id.to_owned()),
        fields: map,
        body: String::new(),
        source_path: format!("items/{id}.md"),
    }
}

fn unknown_refs(diagnostics: &[workdown_core::diagnostic::Diagnostic]) -> Vec<(String, String, String, String)> {
    diagnostics
        .iter()
        .map(|d| match &d.body {
            DiagnosticBody::Item(item) => match &item.kind {
                ItemDiagnosticKind::UnknownResourceRef {
                    field,
                    section,
                    value,
                } => (
                    item.item_id.as_str().to_owned(),
                    field.clone(),
                    section.clone(),
                    value.clone(),
                ),
                other => panic!("unexpected kind {other:?}"),
            },
            other => panic!("unexpected body {other:?}"),
        })
        .collect()
}

#[test]
fn only_fields_with_usable_sections_are_validatable() {
    let fields = validatable_fields(&schema(), &resources());
    let names: Vec<&str> = fields.iter().map(|f| f.field.as_str()).collect();
    assert_eq!(names, vec!["assignee", "watchers"]);
    assert_eq!(fields[0].section, "people");
    assert_eq!(fields[0].entry_ids, vec!["alice".to_owned(), "bob".to_owned()]);
}

#[test]
fn non_string_types_are_not_validatable() {
    let schema = Schema {
        fields: vec![resource_field(
            "size",
            FieldTypeConfig::Choice {
                values: vec!["alice".into()],
            },
            "people",
        )],
    };
    assert!(validatable_fields(&schema, &resources()).is_empty());
}

#[test]
fn referenced_values_by_variant() {
    assert_eq!(
        referenced_values(&FieldValue::String("alice".into())),
        vec!["alice".to_owned()]
    );
    assert_eq!(
        referenced_values(&FieldValue::List(vec!["a".into(), "b".into()])),
        vec!["a".to_owned(), "b".to_owned()]
    );
    assert!(referenced_values(&FieldValue::Integer(3)).is_empty());
}

#[test]
fn unknown_values_warn_once_each() {
    let items = vec![
        item("one", vec![("assignee", FieldValue::String("carol".into()))]),
        item(
            "two",
            vec![(
                "watchers",
                FieldValue::List(vec!["alice".into(), "dave".into(), "erin".into()]),
            )],
        ),
        item(
            "three",
            vec![
                ("assignee", FieldValue::String("bob".into())),
                ("team", FieldValue::String("nobody".into())),
                ("owner", FieldValue::String("nobody".into())),
            ],
        ),
    ];
    let diagnostics = check(&items, &schema(), &resources());
    assert!(diagnostics
        .iter()
        .all(|d| d.severity == workdown_core::model::Severity::Warning));
    assert_eq!(
        unknown_refs(&diagnostics),
        vec![
            ("one".into(), "assignee".into(), "people".into(), "carol".into()),
            ("two".into(), "watchers".into(), "people".into(), "dave".into()),
            ("two".into(), "watchers".into(), "people".into(), "erin".into()),
        ]
    );
}

#[test]
fn nothing_to_check_without_resources() {
    let items = vec![item("one", vec![("assignee", FieldValue::String("carol".into()))])];
    let none = Resources {
        sections: vec![],
        constants: vec![],
        document_loaded: false,
    };
    assert!(check(&items, &schema(), &none).is_empty());
}
