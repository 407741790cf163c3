use workdown_core::diagnostic::{Diagnostic, DiagnosticBody, ItemDiagnosticKind};
use workdown_core::model::{FieldMap, FieldValue, WorkItem, WorkItemId};
use workdown_core::schema::{
    AggregateConfig, AggregateFunction, FieldDefinition, FieldTypeConfig, NamedField, Schema,
};
use workdown_core::store::{LoadedFile, Store};

fn integer(n: i64) -> FieldValue {
    FieldValue::Integer(n)
}

fn named(name: &str, definition: FieldDefinition) -> NamedField {
    NamedField {
        name: name.to_owned(),
        definition,
    }
}

fn schema_with_aggregate(
    field_name: &str,
    type_config: FieldTypeConfig,
    function: AggregateFunction,
    over: Option<&str>,
    error_on_missing: bool,
) -> Schema {
    let mut def = FieldDefinition::new(type_config);
    def.aggregate = Some(AggregateConfig {
        function,
        error_on_missing,
        over: over.map(str::to_owned),
    });
    Schema {
        fields: vec![
            named(
                "parent",
                FieldDefinition::new(FieldTypeConfig::Link {
                    allow_cycles: Some(false),
                    inverse: Some("children".into()),
                }),
            ),
            // Secondary link field for "custom over" tests.
            named(
                "epic",
                FieldDefinition::new(FieldTypeConfig::Link {
                    allow_cycles: Some(false),
                    inverse: Some("epic_children".into()),
                }),
            ),
            named(field_name, def),
        ],
    }
}

/// A work item whose `parent` and `effort` are set where given.
fn item(id: &str, parent: Option<&str>, value: Option<FieldValue>) -> WorkItem {
    item_with(id, parent, None, "effort", value)
}

fn item_with(
    id: &str,
    parent: Option<&str>,
    epic: Option<&str>,
    field_name: &str,
    value: Option<FieldValue>,
) -> WorkItem {
    let mut fields = FieldMap::new();
    if let Some(p) = parent {
        fields.insert(
            "parent".to_owned(),
            FieldValue::Link(WorkItemId::from(p.to_owned())),
        );
    }
    if let Some(e) = epic {
        fields.insert(
            "epic".to_owned(),
            FieldValue::Link(WorkItemId::from(e.to_owned())),
        );
    }
    if let Some(v) = value {
        fields.insert(field_name.to_owned(), v);
    }
    WorkItem {
        id: WorkItemId::from(id.to_owned()),
        fields,
        body: String::new(),
        source_path: format!("{id}.md"),
    }
}

/// The roll-up pass over these items: the store after it, and what it
/// reported.
fn run(items: Vec<WorkItem>, schema: &Schema) -> (Store, Vec<Diagnostic>) {
    let files = items
        .into_iter()
        .map(|item| LoadedFile::Parsed {
            item,
            diagnostics: Vec::new(),
        })
        .collect();
    let mut store = Store::assemble(files);
    let floats = store.roll_up(schema);
    assert!(floats.is_empty());
    store.report_missing_aggregates(schema);
    let diagnostics = store.diagnostics().to_vec();
    (store, diagnostics)
}

fn effort(store: &Store, id: &str) -> Option<FieldValue> {
    store.get(id).unwrap().fields.get("effort").cloned()
}

/// The item and kind of an item diagnostic.
fn item_kind(diagnostic: &Diagnostic) -> Option<(&str, &ItemDiagnosticKind)> {
    match &diagnostic.body {
        DiagnosticBody::Item(item) => Some((item.item_id.as_str(), &item.kind)),
        _ => None,
    }
}


#[test]
fn aggregates_leaf_values_to_parent() {
    // root <- a, b
    let schema = schema_with_aggregate(
        "effort",
        FieldTypeConfig::Integer {
            min: None,
            max: None,
        },
        AggregateFunction::Sum,
        None,
        false,
    );
    let items = vec![
        item("root", None, None),
        item("a", Some("root"), Some(integer(2))),
        item("b", Some("root"), Some(integer(3))),
    ];
    let (store, diagnostics) = run(items, &schema);

    assert!(
        diagnostics.is_empty(),
        "unexpected diagnostics: {diagnostics:#?}"
    );
    assert_eq!(effort(&store, "root"), Some(integer(5)));
    // Leaves still hold their manual values.
    assert_eq!(effort(&store, "a"), Some(integer(2)));
    assert_eq!(effort(&store, "b"), Some(integer(3)));
}

#[test]
fn intermediate_manual_value_acts_as_value_provider() {
    // root <- mid (manual) <- leaf (manual would conflict; leave blank)
    let schema = schema_with_aggregate(
        "effort",
        FieldTypeConfig::Integer {
            min: None,
            max: None,
        },
        AggregateFunction::Sum,
        None,
        false,
    );
    let items = vec![
        item("root", None, None),
        item("mid", Some("root"), Some(integer(7))),
        item("leaf", Some("mid"), None),
    ];
    let (store, diagnostics) = run(items, &schema);

    assert!(diagnostics.is_empty());
    // mid keeps its manual value; root aggregates from mid (the value-provider).
    assert_eq!(effort(&store, "mid"), Some(integer(7)));
    assert_eq!(effort(&store, "root"), Some(integer(7)));
    assert!(effort(&store, "leaf").is_none());
}

#[test]
fn chain_conflict_emits_diagnostic() {
    // root (manual=10) <- leaf (manual=4): same chain, both set
    let schema = schema_with_aggregate(
        "effort",
        FieldTypeConfig::Integer {
            min: None,
            max: None,
        },
        AggregateFunction::Sum,
        None,
        false,
    );
    let items = vec![
        item("root", None, Some(integer(10))),
        item("leaf", Some("root"), Some(integer(4))),
    ];
    let (store, diagnostics) = run(items, &schema);

    assert_eq!(diagnostics.len(), 1);
    let (item_id, kind) = item_kind(&diagnostics[0]).unwrap();
    assert!(
        matches!(
            kind,
            ItemDiagnosticKind::AggregateChainConflict {
                field, conflicting_ancestor_id
            } if field == "effort"
                && item_id == "leaf"
                && conflicting_ancestor_id.as_str() == "root"
        ),
        "unexpected diagnostic: {kind:#?}"
    );
    // Both keep their manual values (root not overwritten by aggregation).
    assert_eq!(effort(&store, "root"), Some(integer(10)));
    assert_eq!(effort(&store, "leaf"), Some(integer(4)));
}

#[test]
fn siblings_in_different_chains_no_conflict() {
    // root_a (manual) <- leaf_a; root_b (manual) <- leaf_b
    let schema = schema_with_aggregate(
        "effort",
        FieldTypeConfig::Integer {
            min: None,
            max: None,
        },
        AggregateFunction::Sum,
        None,
        false,
    );
    let items = vec![
        item("root_a", None, Some(integer(1))),
        item("root_b", None, Some(integer(2))),
    ];
    let (store, diagnostics) = run(items, &schema);
    assert!(diagnostics.is_empty(), "{diagnostics:#?}");
}

#[test]
fn missing_value_with_error_on_missing_emits_diagnostic() {
    // root <- a (manual=5), b (no value): b is a tree-leaf with no covering ancestor.
    let schema = schema_with_aggregate(
        "effort",
        FieldTypeConfig::Integer {
            min: None,
            max: None,
        },
        AggregateFunction::Sum,
        None,
        true,
    );
    let items = vec![
        item("root", None, None),
        item("a", Some("root"), Some(integer(5))),
        item("b", Some("root"), None),
    ];
    let (store, diagnostics) = run(items, &schema);

    // b is missing; a is covered by its own manual; root isn't a leaf.
    let missing: Vec<_> = diagnostics
        .iter()
        .filter_map(|d| match item_kind(d) {
            Some((leaf_id, ItemDiagnosticKind::AggregateMissingValue { .. })) => Some(leaf_id),
            _ => None,
        })
        .collect();
    assert_eq!(missing, vec!["b"]);
}

#[test]
fn missing_value_covered_by_intermediate_ancestor() {
    // root <- mid (manual) <- leaf (no value): leaf is covered by mid.
    let schema = schema_with_aggregate(
        "effort",
        FieldTypeConfig::Integer {
            min: None,
            max: None,
        },
        AggregateFunction::Sum,
        None,
        true,
    );
    let items = vec![
        item("root", None, None),
        item("mid", Some("root"), Some(integer(9))),
        item("leaf", Some("mid"), None),
    ];
    let (store, diagnostics) = run(items, &schema);
    assert!(
        diagnostics.is_empty(),
        "leaf should be covered by mid: {diagnostics:#?}"
    );
}

#[test]
fn custom_over_field_walks_correct_link() {
    // a, b have epic: root; root holds the aggregate.
    // parent links go elsewhere (or are absent) and must be ignored.
    let schema = schema_with_aggregate(
        "effort",
        FieldTypeConfig::Integer {
            min: None,
            max: None,
        },
        AggregateFunction::Sum,
        Some("epic"),
        false,
    );
    let items = vec![
        item_with("root", None, None, "effort", None),
        item_with("a", None, Some("root"), "effort", Some(integer(2))),
        item_with("b", None, Some("root"), "effort", Some(integer(3))),
    ];
    let (store, diagnostics) = run(items, &schema);

    assert!(diagnostics.is_empty(), "{diagnostics:#?}");
    assert_eq!(effort(&store, "root"), Some(integer(5)));
}

#[test]
fn required_aggregate_missing_on_leaf_emits_diagnostic() {
    // root <- a (no value): a is a leaf with no manual and no descendants;
    // required+aggregate means it must end up with a value.
    let mut schema = schema_with_aggregate(
        "effort",
        FieldTypeConfig::Integer {
            min: None,
            max: None,
        },
        AggregateFunction::Sum,
        None,
        false,
    );
    schema.fields[2].definition.required = true;

    let items = vec![
        item("root", None, None),
        item("a", Some("root"), None),
    ];
    let (store, diagnostics) = run(items, &schema);

    let missing_ids: Vec<&str> = diagnostics
        .iter()
        .filter_map(|d| match item_kind(d) {
            Some((item_id, ItemDiagnosticKind::MissingRequired { field })) if field == "effort" => {
                Some(item_id)
            }
            _ => None,
        })
        .collect();
    // Both root and a end up without a value for effort → both flagged.
    assert_eq!(missing_ids, vec!["a", "root"]);
}

#[test]
fn cycle_in_over_does_not_loop() {
    // a -> b -> a (cycle); both have manual values.
    let schema = schema_with_aggregate(
        "effort",
        FieldTypeConfig::Integer {
            min: None,
            max: None,
        },
        AggregateFunction::Sum,
        None,
        false,
    );
    let items = vec![
        item("a", Some("b"), Some(integer(1))),
        item("b", Some("a"), Some(integer(2))),
    ];
    // If the visited guard fails this hangs; we just need it to return.
    let _ = run(items, &schema);
}
