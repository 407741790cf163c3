use workdown_core::diagnostic::{DiagnosticBody, ItemDiagnosticKind};
use workdown_core::derive::{
    conversion_failed, cycle_diagnostic, derive_cycle_diagnostics, evaluate_pull, fill_slot, run_pull_pass, schedule, DeriveField,
    PullField, PullOutcome,
};
use workdown_core::model::{FieldMap, FieldType, FieldValue, WorkItem, WorkItemId};
use workdown_core::schema::AggregateFunction;

fn id(text: &str) -> WorkItemId {
    WorkItemId::from(text.to_owned())
}

fn item(name: &str, fields: Vec<(&str, FieldValue)>) -> WorkItem {
    let mut map = FieldMap::new();
    for (field, value) in fields {
        map.insert(field.to_owned(), value);
    }
    WorkItem {
        id: id(name),
        fields: map,
        body: String::new(),
        source_path: format!("items/{name}.md"),
    }
}

fn links(targets: &[&str]) -> FieldValue {
    FieldValue::Links(targets.iter().map(|t| id(t)).collect())
}

#[test]
fn schedule_follows_dependencies() {
    assert_eq!(schedule(3, &vec![(2, 0), (0, 1)]), vec![2, 0, 1]);
}

#[test]
fn schedule_takes_smallest_ready_node_first() {
    assert_eq!(schedule(4, &vec![]), vec![0, 1, 2, 3]);
    assert_eq!(schedule(4, &vec![(3, 0)]), vec![1, 2, 3, 0]);
}

#[test]
fn schedule_leaves_out_nodes_on_a_loop() {
    assert_eq!(schedule(4, &vec![(0, 1), (1, 0), (1, 3)]), vec![2]);
    assert_eq!(schedule(2, &vec![(1, 1)]), vec![0]);
}

#[test]
fn written_value_is_never_replaced() {
    let mut written = item("a", vec![("points", FieldValue::Integer(3))]);
    assert!(!fill_slot(&mut written, "points", false, Some(FieldValue::Integer(9))));
    assert!(matches!(written.fields.get("points"), Some(FieldValue::Integer(3))));
}

#[test]
fn failed_slot_is_never_filled() {
    let mut broken = item("a", vec![]);
    assert!(!fill_slot(&mut broken, "points", true, Some(FieldValue::Integer(9))));
    assert!(broken.fields.get("points").is_none());
}

#[test]
fn absent_slot_is_filled() {
    let mut blank = item("a", vec![]);
    assert!(fill_slot(&mut blank, "points", false, Some(FieldValue::Integer(9))));
    assert!(matches!(blank.fields.get("points"), Some(FieldValue::Integer(9))));
    assert!(!fill_slot(&mut blank, "other", false, None));
}

#[test]
fn conversion_failures_are_looked_up_by_item_and_field() {
    let failures = vec![(id("a"), vec!["points".to_owned()])];
    assert!(conversion_failed(&failures, "a", "points"));
    assert!(!conversion_failed(&failures, "a", "title"));
    assert!(!conversion_failed(&failures, "b", "points"));
}

fn pull_items() -> Vec<WorkItem> {
    vec![
        item("a", vec![("depends_on", links(&["b", "c"]))]),
        item("b", vec![("points", FieldValue::Integer(3))]),
        item("c", vec![("points", FieldValue::Integer(5))]),
        item("d", vec![("depends_on", links(&["b", "x"]))]),
        item("e", vec![]),
    ]
}

#[test]
fn pull_reduces_the_targets_values() {
    let items = pull_items();
    match evaluate_pull("depends_on", "points", AggregateFunction::Sum, FieldType::Integer, &items[0], &items) {
        PullOutcome::Value(FieldValue::Integer(8)) => {}
        other => panic!("unexpected {other:?}"),
    }
    match evaluate_pull("depends_on", "points", AggregateFunction::Max, FieldType::Float, &items[0], &items) {
        PullOutcome::Value(FieldValue::Float(text)) => assert_eq!(text, "5"),
        other => panic!("unexpected {other:?}"),
    }
}

#[test]
fn pull_with_incomplete_targets_names_them() {
    let items = pull_items();
    match evaluate_pull("depends_on", "points", AggregateFunction::Sum, FieldType::Integer, &items[3], &items) {
        PullOutcome::MissingInputs(missing) => assert_eq!(missing, vec!["x.points".to_owned()]),
        other => panic!("unexpected {other:?}"),
    }
}

#[test]
fn pull_without_targets_skips() {
    let items = pull_items();
    assert!(matches!(
        evaluate_pull("depends_on", "points", AggregateFunction::Sum, FieldType::Integer, &items[4], &items),
        PullOutcome::Skip
    ));
}

fn points_pull(error_on_missing: bool) -> PullField {
    PullField {
        name: "points".into(),
        over: "depends_on".into(),
        source: "points".into(),
        function: AggregateFunction::Sum,
        declared: FieldType::Integer,
        error_on_missing,
    }
}

#[test]
fn pull_pass_fills_along_the_chain() {
    // c depends on a, a depends on b: a must be filled before c reads it.
    let mut items = vec![
        item("c", vec![("depends_on", links(&["a"]))]),
        item("a", vec![("depends_on", links(&["b"]))]),
        item("b", vec![("points", FieldValue::Integer(3))]),
    ];
    let (diagnostics, floats) = run_pull_pass(&mut items, &vec![points_pull(true)], &vec![]);
    assert!(diagnostics.is_empty());
    assert!(floats.is_empty());
    assert!(matches!(items[0].fields.get("points"), Some(FieldValue::Integer(3))));
    assert!(matches!(items[1].fields.get("points"), Some(FieldValue::Integer(3))));
    assert!(matches!(items[2].fields.get("points"), Some(FieldValue::Integer(3))));
}

#[test]
fn pull_pass_keeps_written_and_failed_slots() {
    let mut items = vec![
        item("a", vec![("depends_on", links(&["c"])), ("points", FieldValue::Integer(1))]),
        item("b", vec![("depends_on", links(&["c"]))]),
        item("c", vec![("points", FieldValue::Integer(7))]),
    ];
    let failures = vec![(id("b"), vec!["points".to_owned()])];
    run_pull_pass(&mut items, &vec![points_pull(true)], &failures);
    assert!(matches!(items[0].fields.get("points"), Some(FieldValue::Integer(1))));
    assert!(items[1].fields.get("points").is_none());
}

#[test]
fn pull_pass_reports_incomplete_pulls_when_asked() {
    let mut items = vec![item("a", vec![("depends_on", links(&["b"]))]), item("b", vec![])];
    let (diagnostics, _) = run_pull_pass(&mut items, &vec![points_pull(true)], &vec![]);
    assert_eq!(diagnostics.len(), 1);
    match &diagnostics[0].body {
        DiagnosticBody::Item(body) => match &body.kind {
            ItemDiagnosticKind::PullMissingInputs { field, missing_inputs } => {
                assert_eq!(field, "points");
                assert_eq!(missing_inputs, &vec!["b.points".to_owned()]);
            }
            other => panic!("unexpected {other:?}"),
        },
        other => panic!("unexpected {other:?}"),
    }
    let mut quiet = vec![item("a", vec![("depends_on", links(&["b"]))]), item("b", vec![])];
    let (diagnostics, _) = run_pull_pass(&mut quiet, &vec![points_pull(false)], &vec![]);
    assert!(diagnostics.is_empty());
}

fn cycle_fields(second_over: &str) -> Vec<DeriveField> {
    vec![
        DeriveField {
            name: "start".into(),
            aggregate_over: None,
            pull_over: Some("depends_on".into()),
        },
        DeriveField {
            name: "end".into(),
            aggregate_over: None,
            pull_over: Some(second_over.into()),
        },
    ]
}

#[test]
fn loop_through_two_links_is_reported() {
    let ids = vec![id("a"), id("b")];
    let items = vec![item("a", vec![]), item("b", vec![])];
    let diagnostic = cycle_diagnostic(&vec![1, 2], &cycle_fields("blocks"), &ids, 2, &items).unwrap();
    match diagnostic.body {
        DiagnosticBody::Item(body) => {
            assert_eq!(body.path, "items/b.md");
            assert_eq!(body.item_id.as_str(), "b");
            match body.kind {
                ItemDiagnosticKind::DeriveCycle { chain } => {
                    assert_eq!(chain, vec!["b.start", "a.end", "b.start"]);
                }
                other => panic!("unexpected {other:?}"),
            }
        }
        other => panic!("unexpected {other:?}"),
    }
}

#[test]
fn loop_through_one_link_is_left_to_the_link_check() {
    let ids = vec![id("a"), id("b")];
    let items = vec![item("a", vec![]), item("b", vec![])];
    assert!(cycle_diagnostic(&vec![1, 2], &cycle_fields("depends_on"), &ids, 2, &items).is_none());
}

#[test]
fn unevaluated_loops_are_found_and_reported() {
    let ids = vec![id("a"), id("b")];
    let items = vec![item("a", vec![]), item("b", vec![])];
    let dependents = vec![vec![], vec![2], vec![1], vec![]];
    let evaluated = vec![true, false, false, true];
    let found = derive_cycle_diagnostics(&cycle_fields("blocks"), &ids, 2, &dependents, &evaluated, &items);
    assert_eq!(found.len(), 1);
    match &found[0].body {
        DiagnosticBody::Item(body) => match &body.kind {
            ItemDiagnosticKind::DeriveCycle { chain } => assert_eq!(chain, &vec!["b.start", "a.end", "b.start"]),
            other => panic!("unexpected {other:?}"),
        },
        other => panic!("unexpected {other:?}"),
    }
    let explained = derive_cycle_diagnostics(&cycle_fields("depends_on"), &ids, 2, &dependents, &evaluated, &items);
    assert!(explained.is_empty());
}

#[test]
fn nothing_unevaluated_means_no_loop() {
    let ids = vec![id("a"), id("b")];
    let items = vec![item("a", vec![]), item("b", vec![])];
    let dependents = vec![vec![], vec![2], vec![1], vec![]];
    let evaluated = vec![true; 4];
    assert!(derive_cycle_diagnostics(&cycle_fields("blocks"), &ids, 2, &dependents, &evaluated, &items).is_empty());
}

#[test]
fn pull_pass_reports_a_loop_through_two_links() {
    let mut items = vec![
        item("a", vec![("depends_on", links(&["b"]))]),
        item("b", vec![("blocks", links(&["a"]))]),
    ];
    let fields = vec![
        PullField {
            name: "start".into(),
            over: "depends_on".into(),
            source: "end".into(),
            function: AggregateFunction::Max,
            declared: FieldType::Date,
            error_on_missing: false,
        },
        PullField {
            name: "end".into(),
            over: "blocks".into(),
            source: "start".into(),
            function: AggregateFunction::Min,
            declared: FieldType::Date,
            error_on_missing: false,
        },
    ];
    let (diagnostics, _) = run_pull_pass(&mut items, &fields, &vec![]);
    assert_eq!(diagnostics.len(), 1);
    match &diagnostics[0].body {
        DiagnosticBody::Item(body) => {
            assert_eq!(body.item_id.as_str(), "a");
            match &body.kind {
                ItemDiagnosticKind::DeriveCycle { chain } => assert_eq!(chain, &vec!["a.start", "b.end", "a.start"]),
                other => panic!("unexpected {other:?}"),
            }
        }
        other => panic!("unexpected {other:?}"),
    }
    assert!(items[0].fields.get("start").is_none());
}

#[test]
fn pull_with_one_incomplete_input_fills_nothing() {
    // c pulls the max of its dependencies' `end`; b has none, so c gets none
    // even though a has one.
    let mut items = vec![
        item("a", vec![("end", FieldValue::Integer(12))]),
        item("b", vec![]),
        item("c", vec![("depends_on", links(&["a", "b"]))]),
    ];
    let fields = vec![PullField {
        name: "start".into(),
        over: "depends_on".into(),
        source: "end".into(),
        function: AggregateFunction::Max,
        declared: FieldType::Integer,
        error_on_missing: false,
    }];
    let (diagnostics, _) = run_pull_pass(&mut items, &fields, &vec![]);
    assert!(diagnostics.is_empty());
    assert!(items[2].fields.get("start").is_none());
}

#[test]
fn jointly_cyclic_links_report_one_loop_and_fill_the_rest() {
    let mut items = vec![
        item("a", vec![("first_link", links(&["b"]))]),
        item("b", vec![("second_link", links(&["a"]))]),
        item("x", vec![("g", FieldValue::Integer(3))]),
        item("y", vec![("first_link", links(&["x"]))]),
    ];
    let fields = vec![
        PullField {
            name: "f".into(),
            over: "first_link".into(),
            source: "g".into(),
            function: AggregateFunction::Sum,
            declared: FieldType::Integer,
            error_on_missing: false,
        },
        PullField {
            name: "g".into(),
            over: "second_link".into(),
            source: "f".into(),
            function: AggregateFunction::Sum,
            declared: FieldType::Integer,
            error_on_missing: false,
        },
    ];
    let (diagnostics, _) = run_pull_pass(&mut items, &fields, &vec![]);
    let chains: Vec<Vec<String>> = diagnostics
        .iter()
        .filter_map(|d| match &d.body {
            DiagnosticBody::Item(body) => match &body.kind {
                ItemDiagnosticKind::DeriveCycle { chain } => Some(chain.clone()),
                _ => None,
            },
            _ => None,
        })
        .collect();
    assert_eq!(chains.len(), 1);
    let chain = &chains[0];
    assert_eq!(chain.first(), chain.last());
    assert!(chain.contains(&"a.f".to_owned()) && chain.contains(&"b.g".to_owned()));
    assert!(matches!(items[3].fields.get("f"), Some(FieldValue::Integer(3))));
    assert!(items[0].fields.get("f").is_none());
    assert!(items[1].fields.get("g").is_none());
}
