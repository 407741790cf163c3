use workdown_core::diagnostic::ItemDiagnosticKind;
use workdown_core::model::{FieldMap, FieldValue, WorkItem, WorkItemId};
use workdown_core::required::{check, finding, BlankContext, FillMechanism, Finding, PullSource, RequiredField};

fn item(name: &str, fields: Vec<(&str, FieldValue)>) -> WorkItem {
    let mut map = FieldMap::new();
    for (field, value) in fields {
        map.insert(field.to_owned(), value);
    }
    WorkItem {
        id: WorkItemId::from(name.to_owned()),
        fields: map,
        body: String::new(),
        source_path: format!("{name}.md"),
    }
}

fn field(mechanisms: Vec<FillMechanism>) -> RequiredField {
    RequiredField {
        name: "cost".into(),
        disabled: false,
        mechanisms,
        aggregate_over: None,
        pull: None,
    }
}

fn none() -> Vec<String> {
    Vec::new()
}

fn kind(result: Finding) -> ItemDiagnosticKind {
    match result {
        Finding::Report(kind) => kind,
        Finding::AlreadyReported => panic!("expected a report"),
    }
}

#[test]
fn plain_field_is_missing_required() {
    let a = item("a", vec![]);
    let result = finding(&a, &vec![], &field(vec![]), true, &none(), &none());
    assert!(matches!(kind(result), ItemDiagnosticKind::MissingRequired { field } if field == "cost"));
}

#[test]
fn disabled_config_reports_plain_blank() {
    let a = item("a", vec![]);
    let mut disabled = field(vec![FillMechanism::Compute]);
    disabled.disabled = true;
    let result = finding(&a, &vec![], &disabled, true, &vec!["hours".into()], &none());
    assert!(matches!(kind(result), ItemDiagnosticKind::MissingRequired { .. }));
}

#[test]
fn computed_field_names_its_missing_inputs() {
    let a = item("a", vec![]);
    let result = finding(&a, &vec![], &field(vec![FillMechanism::Compute]), true, &vec!["hours".into()], &none());
    match kind(result) {
        ItemDiagnosticKind::ComputeMissingInputs { field, missing_inputs } => {
            assert_eq!(field, "cost");
            assert_eq!(missing_inputs, vec!["hours".to_owned()]);
        }
        other => panic!("unexpected {other:?}"),
    }
}

#[test]
fn computed_field_without_missing_inputs_falls_back() {
    let a = item("a", vec![]);
    let result = finding(&a, &vec![], &field(vec![FillMechanism::Compute]), true, &none(), &none());
    assert!(matches!(kind(result), ItemDiagnosticKind::MissingRequired { .. }));
}

#[test]
fn conditional_field_reports_unmatched_branches() {
    let a = item("a", vec![]);
    let result = finding(&a, &vec![], &field(vec![FillMechanism::When]), true, &none(), &vec!["size".into()]);
    match kind(result) {
        ItemDiagnosticKind::WhenUnmatched { missing_inputs, .. } => {
            assert_eq!(missing_inputs, vec!["size".to_owned()])
        }
        other => panic!("unexpected {other:?}"),
    }
}

fn pulled(error_on_missing: bool) -> RequiredField {
    let mut pulled = field(vec![FillMechanism::Pull]);
    pulled.pull = Some(PullSource {
        over: "depends_on".into(),
        field: "cost".into(),
        error_on_missing,
    });
    pulled
}

#[test]
fn pull_names_incomplete_targets_unless_already_reported() {
    let a = item(
        "a",
        vec![("depends_on", FieldValue::Links(vec![WorkItemId::from("b".to_owned())]))],
    );
    let items = vec![a.clone(), item("b", vec![])];
    match kind(finding(&a, &items, &pulled(false), true, &none(), &none())) {
        ItemDiagnosticKind::PullMissingInputs { missing_inputs, .. } => {
            assert_eq!(missing_inputs, vec!["b.cost".to_owned()])
        }
        other => panic!("unexpected {other:?}"),
    }
    assert!(matches!(
        finding(&a, &items, &pulled(true), true, &none(), &none()),
        Finding::AlreadyReported
    ));
}

#[test]
fn non_leaf_of_an_aggregate_reports_plain_blank() {
    let a = item("a", vec![]);
    let mut aggregated = field(vec![FillMechanism::Compute, FillMechanism::Aggregate]);
    aggregated.aggregate_over = Some("parent".into());
    let result = finding(&a, &vec![], &aggregated, false, &vec!["hours".into()], &none());
    assert!(matches!(kind(result), ItemDiagnosticKind::MissingRequired { .. }));
}

fn context() -> BlankContext {
    BlankContext {
        is_leaf: true,
        compute_missing: vec![],
        when_missing: vec![],
    }
}

#[test]
fn check_reports_item_first_and_skips_written_or_failed_fields() {
    let items = vec![
        item("a", vec![]),
        item("b", vec![("cost", FieldValue::Integer(1))]),
        item("c", vec![]),
    ];
    let mut size = field(vec![FillMechanism::When]);
    size.name = "size".into();
    let fields = vec![field(vec![]), size];
    let contexts = vec![vec![context(), context()]; 3];
    let failures = vec![(WorkItemId::from("c".to_owned()), vec!["cost".to_owned()])];
    let found = check(&items, &fields, &contexts, &failures);
    let summary: Vec<(String, String)> = found
        .iter()
        .map(|d| match &d.body {
            workdown_core::diagnostic::DiagnosticBody::Item(body) => (
                body.item_id.as_str().to_owned(),
                match &body.kind {
                    ItemDiagnosticKind::MissingRequired { field } => format!("missing {field}"),
                    ItemDiagnosticKind::WhenUnmatched { field, .. } => format!("unmatched {field}"),
                    other => panic!("unexpected {other:?}"),
                },
            ),
            other => panic!("unexpected {other:?}"),
        })
        .collect();
    assert_eq!(
        summary,
        vec![
            ("a".to_owned(), "missing cost".to_owned()),
            ("a".to_owned(), "unmatched size".to_owned()),
            ("b".to_owned(), "unmatched size".to_owned()),
            ("c".to_owned(), "unmatched size".to_owned()),
        ]
    );
}
