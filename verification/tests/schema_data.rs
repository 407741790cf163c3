use workdown_core::query::types::operators_for;
use workdown_core::resources::{ResourceEntry, ResourceSection, Resources};
use workdown_core::schema::{FieldDefinition, FieldTypeConfig, NamedField, Schema};
use workdown_core::schema_data::build;
use workdown_core::store::Store;

/// A schema with one plain field; enough to exercise `build`.
fn schema_with_assignee() -> Schema {
    let mut assignee = FieldDefinition::new(FieldTypeConfig::String { pattern: None });
    assignee.resource = Some("people".to_owned());
    Schema {
        fields: vec![NamedField {
            name: "assignee".to_owned(),
            definition: assignee,
        }],
    }
}

fn no_resources() -> Resources {
    Resources {
        sections: vec![],
        constants: vec![],
        document_loaded: false,
    }
}

fn people_resources() -> Resources {
    Resources {
        sections: vec![ResourceSection {
            name: "people".to_owned(),
            entries: vec![
                ResourceEntry {
                    id: "alice".to_owned(),
                    name: Some("Alice Smith".to_owned()),
                },
                ResourceEntry {
                    id: "bob".to_owned(),
                    name: None,
                },
            ],
        }],
        constants: vec![],
        document_loaded: true,
    }
}

#[test]
fn build_reports_resource_options_with_labels() {
    let schema = schema_with_assignee();
    let store = Store::empty();
    let data = build(&schema, &store, &people_resources());

    assert_eq!(data.resources.len(), 1);
    let people = &data.resources[0];
    assert_eq!(people.name, "people");
    assert_eq!(people.options.len(), 2);
    // name present → label is the name
    assert_eq!(people.options[0].id, "alice");
    assert_eq!(people.options[0].label, "Alice Smith");
    // name absent → label falls back to id
    assert_eq!(people.options[1].id, "bob");
    assert_eq!(people.options[1].label, "bob");
}

#[test]
fn build_with_no_resources_reports_empty_list() {
    let schema = schema_with_assignee();
    let store = Store::empty();
    let data = build(&schema, &store, &no_resources());
    assert!(data.resources.is_empty());
}

#[test]
fn build_reports_operators_for_every_field_type() {
    let schema = schema_with_assignee();
    let store = Store::empty();
    let data = build(&schema, &store, &no_resources());

    assert_eq!(data.operators_by_type.len(), 12);
    // Each entry's operators match the canonical mapping.
    for entry in &data.operators_by_type {
        assert_eq!(entry.operators, operators_for(entry.field_type));
    }
}

#[test]
fn build_lists_fields_in_order_and_item_ids_sorted() {
    let schema = schema_with_assignee();
    let mut store = Store::empty();
    for id in ["zeta", "alpha", "mid"] {
        store.insert(workdown_core::model::WorkItem {
            id: workdown_core::model::WorkItemId::from(id.to_owned()),
            fields: workdown_core::model::FieldMap::new(),
            body: String::new(),
            source_path: format!("{id}.md"),
        });
    }
    let data = build(&schema, &store, &no_resources());
    assert_eq!(data.fields.len(), 1);
    assert_eq!(data.fields[0].name, "assignee");
    assert_eq!(data.fields[0].resource.as_deref(), Some("people"));
    assert!(!data.fields[0].aggregate);
    let ids: Vec<&str> = data.items.iter().map(|id| id.as_str()).collect();
    assert_eq!(ids, vec!["alpha", "mid", "zeta"]);
}
