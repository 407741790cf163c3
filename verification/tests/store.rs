use workdown_core::diagnostic::{DiagnosticBody, FilesDiagnosticKind, ItemDiagnosticKind};
use workdown_core::model::FieldValue;
use workdown_core::schema::{
    AggregateConfig, AggregateFunction, FieldDefinition, FieldTypeConfig, NamedField, Schema,
};
use workdown_core::frontmatter::is_item_file;
use workdown_core::store::{load_file, Store};

fn named(name: &str, definition: FieldDefinition) -> NamedField {
    NamedField {
        name: name.to_owned(),
        definition,
    }
}

/// A minimal schema for store tests.
fn test_schema() -> Schema {
    let mut status = FieldDefinition::new(FieldTypeConfig::Choice {
        values: vec!["open".into(), "in_progress".into(), "done".into()],
    });
    status.required = true;
    Schema {
        fields: vec![
            named(
                "title",
                FieldDefinition::new(FieldTypeConfig::String { pattern: None }),
            ),
            named("status", status),
            named(
                "parent",
                FieldDefinition::new(FieldTypeConfig::Link {
                    allow_cycles: Some(false),
                    inverse: Some("children".into()),
                }),
            ),
            named(
                "depends_on",
                FieldDefinition::new(FieldTypeConfig::Links {
                    allow_cycles: Some(false),
                    inverse: Some("dependents".into()),
                }),
            ),
            named("tags", FieldDefinition::new(FieldTypeConfig::List)),
        ],
    }
}

/// The store a directory holding these files loads into: the work item
/// files among them, read in file-name order.
fn load_dir(files: Vec<(&str, &str)>, schema: &Schema) -> Store {
    let mut files = files;
    files.sort_by(|a, b| a.0.cmp(b.0));
    let loaded = files
        .into_iter()
        .filter(|(name, _)| is_item_file(name))
        .map(|(name, content)| load_file(name, content, schema))
        .collect();
    Store::load(loaded, schema).0
}


/// A schema with `parent: link` and an `effort: integer` field that
/// aggregates as `sum` up the parent chain.
fn schema_with_effort_sum() -> Schema {
    let mut effort = FieldDefinition::new(FieldTypeConfig::Integer {
        min: None,
        max: None,
    });
    effort.aggregate = Some(AggregateConfig {
        function: AggregateFunction::Sum,
        error_on_missing: false,
        over: None,
    });
    Schema {
        fields: vec![
            named(
                "title",
                FieldDefinition::new(FieldTypeConfig::String { pattern: None }),
            ),
            named(
                "parent",
                FieldDefinition::new(FieldTypeConfig::Link {
                    allow_cycles: Some(false),
                    inverse: Some("children".into()),
                }),
            ),
            named("effort", effort),
        ],
    }
}


#[test]
fn load_multiple_valid_items() {
    let files = (vec![
        (
            "task-a.md",
            "---\ntitle: Task A\nstatus: open\n---\nBody A\n",
        ),
        (
            "task-b.md",
            "---\ntitle: Task B\nstatus: done\n---\nBody B\n",
        ),
    ]);
    let schema = test_schema();
    let store = load_dir(files, &schema);

    assert_eq!(store.len(), 2);
    assert!(!store.has_diagnostics());

    let task_a = store.get("task-a").unwrap();
    assert_eq!(*task_a.fields.get("title").unwrap(), FieldValue::String("Task A".into()));
    assert_eq!(*task_a.fields.get("status").unwrap(), FieldValue::Choice("open".into()));

    let task_b = store.get("task-b").unwrap();
    assert_eq!(*task_b.fields.get("status").unwrap(), FieldValue::Choice("done".into()));
}

#[test]
fn load_empty_directory() {
    let files = (vec![]);
    let schema = test_schema();
    let store = load_dir(files, &schema);

    assert!(store.is_empty());
    assert!(!store.has_diagnostics());
}

#[test]
fn load_skips_non_md_files() {
    let files = (vec![
        ("task-a.md", "---\ntitle: Task A\nstatus: open\n---\n"),
        ("readme.txt", "This is not a work item"),
        ("notes.yaml", "key: value"),
    ]);
    let schema = test_schema();
    let store = load_dir(files, &schema);

    assert_eq!(store.len(), 1);
    assert!(!store.has_diagnostics());
}

#[test]
fn parse_error_skips_file_collects_diagnostic() {
    let files = (vec![
        ("good.md", "---\ntitle: Good\nstatus: open\n---\n"),
        ("bad.md", "no frontmatter here"),
    ]);
    let schema = test_schema();
    let store = load_dir(files, &schema);

    assert_eq!(store.len(), 1);
    assert!(store.get("good").is_some());
    assert!(store.has_diagnostics());
    assert!(store
        .diagnostics()
        .iter()
        .any(|diagnostic| matches!(&diagnostic.body, DiagnosticBody::File(_))));
}

#[test]
fn missing_required_field_collected() {
    let files = (vec![
        // status is required but missing
        ("task-a.md", "---\ntitle: Task A\n---\n"),
    ]);
    let schema = test_schema();
    let store = load_dir(files, &schema);

    assert_eq!(store.len(), 1); // item still loaded
    assert!(store.has_errors());
    assert!(store.diagnostics().iter().any(|diagnostic| matches!(
        &diagnostic.body,
        DiagnosticBody::Item(item)
            if matches!(&item.kind, ItemDiagnosticKind::MissingRequired { field } if field == "status")
    )));
}

#[test]
fn unknown_field_warning_collected() {
    let files = (vec![(
        "task-a.md",
        "---\ntitle: Task A\nstatus: open\nbogus: whatever\n---\n",
    )]);
    let schema = test_schema();
    let store = load_dir(files, &schema);

    assert_eq!(store.len(), 1);
    assert!(store.diagnostics().iter().any(|diagnostic| matches!(
        &diagnostic.body,
        DiagnosticBody::Item(item)
            if matches!(&item.kind, ItemDiagnosticKind::UnknownField { field } if field == "bogus")
    )));
}

#[test]
fn duplicate_id_detected() {
    let files = (vec![
        ("task-a.md", "---\ntitle: First\nstatus: open\n---\n"),
        (
            "task-b.md",
            "---\nid: task-a\ntitle: Second\nstatus: done\n---\n",
        ),
    ]);
    let schema = test_schema();
    let store = load_dir(files, &schema);

    // First alphabetically wins
    assert_eq!(store.len(), 1);
    let item = store.get("task-a").unwrap();
    assert_eq!(*item.fields.get("title").unwrap(), FieldValue::String("First".into()));

    assert!(store.diagnostics().iter().any(|diagnostic| matches!(
        &diagnostic.body,
        DiagnosticBody::Files(files)
            if matches!(&files.kind, FilesDiagnosticKind::DuplicateId { id } if id.as_str() == "task-a")
    )));
}

#[test]
fn broken_link_detected() {
    let files = (vec![(
        "task-a.md",
        "---\ntitle: Task A\nstatus: open\nparent: nonexistent\n---\n",
    )]);
    let schema = test_schema();
    let store = load_dir(files, &schema);

    assert!(store.diagnostics().iter().any(|diagnostic| matches!(
        &diagnostic.body,
        DiagnosticBody::Item(item)
            if matches!(&item.kind, ItemDiagnosticKind::BrokenLink { target_id, .. } if target_id.as_str() == "nonexistent")
    )));
}

#[test]
fn broken_links_field_detected() {
    let files = (vec![(
        "task-a.md",
        "---\ntitle: Task A\nstatus: open\ndepends_on: [missing-x, missing-y]\n---\n",
    )]);
    let schema = test_schema();
    let store = load_dir(files, &schema);

    let broken: Vec<_> = store
        .diagnostics()
        .iter()
        .filter(|diagnostic| {
            matches!(
                &diagnostic.body,
                DiagnosticBody::Item(item)
                    if matches!(&item.kind, ItemDiagnosticKind::BrokenLink { .. })
            )
        })
        .collect();
    assert_eq!(broken.len(), 2);
}

#[test]
fn valid_link_no_error() {
    let files = (vec![
        ("epic.md", "---\ntitle: Epic\nstatus: open\n---\n"),
        (
            "task-a.md",
            "---\ntitle: Task\nstatus: open\nparent: epic\n---\n",
        ),
    ]);
    let schema = test_schema();
    let store = load_dir(files, &schema);

    assert!(!store.diagnostics().iter().any(|diagnostic| matches!(
        &diagnostic.body,
        DiagnosticBody::Item(item)
            if matches!(&item.kind, ItemDiagnosticKind::BrokenLink { .. })
    )));
}

#[test]
fn inverse_parent_to_children() {
    let files = (vec![
        ("epic.md", "---\ntitle: Epic\nstatus: open\n---\n"),
        (
            "task-a.md",
            "---\ntitle: Task A\nstatus: open\nparent: epic\n---\n",
        ),
        (
            "task-b.md",
            "---\ntitle: Task B\nstatus: done\nparent: epic\n---\n",
        ),
    ]);
    let schema = test_schema();
    let store = load_dir(files, &schema);

    let children = store.referring_items("epic", "parent");
    assert_eq!(children.len(), 2);

    assert!(children.iter().any(|item| item.id.as_str() == "task-a"));
    assert!(children.iter().any(|item| item.id.as_str() == "task-b"));
}

#[test]
fn inverse_links_field() {
    let files = (vec![
        ("task-a.md", "---\ntitle: A\nstatus: open\n---\n"),
        ("task-b.md", "---\ntitle: B\nstatus: open\n---\n"),
        (
            "task-c.md",
            "---\ntitle: C\nstatus: open\ndepends_on: [task-a, task-b]\n---\n",
        ),
    ]);
    let schema = test_schema();
    let store = load_dir(files, &schema);

    let dependents_a = store.referring_items("task-a", "depends_on");
    assert_eq!(dependents_a.len(), 1);
    assert!(dependents_a[0].id.as_str() == "task-c");

    let dependents_b = store.referring_items("task-b", "depends_on");
    assert_eq!(dependents_b.len(), 1);
    assert!(dependents_b[0].id.as_str() == "task-c");
}

#[test]
fn referring_items_empty_when_no_links() {
    let files = (vec![("task-a.md", "---\ntitle: A\nstatus: open\n---\n")]);
    let schema = test_schema();
    let store = load_dir(files, &schema);

    assert!(store.referring_items("task-a", "parent").is_empty());
}

#[test]
fn partial_load_keeps_good_items() {
    let files = (vec![
        ("good.md", "---\ntitle: Good\nstatus: open\n---\n"),
        ("bad-yaml.md", "---\n: invalid: yaml:\n---\n"),
        ("no-frontmatter.md", "just text, no delimiters"),
    ]);
    let schema = test_schema();
    let store = load_dir(files, &schema);

    assert_eq!(store.len(), 1);
    assert!(store.get("good").is_some());

    let parse_errors: Vec<_> = store
        .diagnostics()
        .iter()
        .filter(|diagnostic| matches!(&diagnostic.body, DiagnosticBody::File(_)))
        .collect();
    assert_eq!(parse_errors.len(), 2);
}

#[test]
fn rollup_fills_parent_with_aggregated_value_after_load() {
    let files = (vec![
        ("epic.md", "---\ntitle: Epic\n---\n"),
        (
            "task-a.md",
            "---\ntitle: Task A\nparent: epic\neffort: 2\n---\n",
        ),
        (
            "task-b.md",
            "---\ntitle: Task B\nparent: epic\neffort: 3\n---\n",
        ),
    ]);
    let store = load_dir(files, &schema_with_effort_sum());

    let epic = store.get("epic").unwrap();
    assert_eq!(epic.fields.get("effort"), Some(&FieldValue::Integer(5)));
    // Leaves keep their manual values.
    assert_eq!(
        store.get("task-a").unwrap().fields.get("effort"),
        Some(&FieldValue::Integer(2))
    );
    assert!(!store.has_diagnostics(), "{:#?}", store.diagnostics());
}

#[test]
fn all_items_iterates_loaded() {
    let files = (vec![
        ("task-a.md", "---\ntitle: A\nstatus: open\n---\n"),
        ("task-b.md", "---\ntitle: B\nstatus: done\n---\n"),
    ]);
    let schema = test_schema();
    let store = load_dir(files, &schema);

    let items: Vec<_> = store.all_items().into_iter().collect();
    assert_eq!(items.len(), 2);
    assert!(items.iter().any(|item| item.id.as_str() == "task-a"));
    assert!(items.iter().any(|item| item.id.as_str() == "task-b"));
}
