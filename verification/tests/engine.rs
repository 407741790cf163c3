use workdown_core::model::{FieldMap, FieldValue, WorkItem, WorkItemId};
use workdown_core::query::engine::{build_row, default_columns, select_items};
use workdown_core::query::parse::parse_where;
use workdown_core::schema::{FieldDefinition, FieldTypeConfig, NamedField, Schema};
use workdown_core::store::{load_file, Store};

fn schema() -> Schema {
    let mut status = FieldDefinition::new(FieldTypeConfig::Choice {
        values: vec!["open".into(), "done".into()],
    });
    status.required = true;
    let mut title = FieldDefinition::new(FieldTypeConfig::String { pattern: None });
    title.required = true;
    Schema {
        fields: vec![
            NamedField {
                name: "title".into(),
                definition: title,
            },
            NamedField {
                name: "points".into(),
                definition: FieldDefinition::new(FieldTypeConfig::Integer { min: None, max: None }),
            },
            NamedField {
                name: "status".into(),
                definition: status,
            },
        ],
    }
}

fn store(schema: &Schema) -> Store {
    let files = vec![
        ("a.md", "---\ntitle: First\nstatus: open\npoints: 3\n---\n"),
        ("b.md", "---\ntitle: Second\nstatus: done\n---\n"),
        ("c.md", "---\ntitle: Third\nstatus: open\npoints: 8\n---\n"),
    ];
    let loaded = files
        .into_iter()
        .map(|(name, content)| load_file(name, content, schema))
        .collect();
    Store::load(loaded, schema).0
}

#[test]
fn default_columns_are_id_then_required_fields() {
    assert_eq!(default_columns(&schema()), vec!["id", "title", "status"]);
}

#[test]
fn default_columns_without_required_fields() {
    let schema = Schema { fields: vec![] };
    assert_eq!(default_columns(&schema), vec!["id"]);
}

#[test]
fn rows_hold_display_text_per_column() {
    let mut fields = FieldMap::new();
    fields.insert("title".into(), FieldValue::String("First".into()));
    fields.insert("points".into(), FieldValue::Integer(3));
    let item = WorkItem {
        id: WorkItemId::from("task-a".to_owned()),
        fields,
        body: String::new(),
        source_path: "task-a.md".into(),
    };
    let columns = vec!["id".to_owned(), "points".to_owned(), "title".to_owned(), "missing".to_owned()];
    let row = build_row(&item, &columns);
    assert_eq!(row.id, "task-a");
    assert_eq!(row.values, vec!["task-a", "3", "First", ""]);
}

#[test]
fn selection_keeps_matching_items_in_store_order() {
    let schema = schema();
    let store = store(&schema);
    let predicate = parse_where("status=open").unwrap();
    let selected = select_items(Some(&predicate), &store, &schema).unwrap();
    let ids: Vec<&str> = selected.iter().map(|item| item.id.as_str()).collect();
    assert_eq!(ids, vec!["a", "c"]);
}

#[test]
fn selection_without_predicate_keeps_everything() {
    let schema = schema();
    let store = store(&schema);
    let selected = select_items(None, &store, &schema).unwrap();
    assert_eq!(selected.len(), 3);
}

#[test]
fn selection_reports_unknown_relation() {
    let schema = schema();
    let store = store(&schema);
    let predicate = parse_where("nothing.status=open").unwrap();
    assert!(select_items(Some(&predicate), &store, &schema).is_err());
}
