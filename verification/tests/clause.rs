use workdown_core::query::clause::{
    clauses_to_strings, decompose_clause, decompose_clauses, serialize_condition, Clause,
    Condition, ConditionError,
};
use workdown_core::query::clause::condition_from_predicate;
use workdown_core::query::types::{Comparison, FieldReference, Operand, Operator, Predicate};


fn comparison(field: &str, operator: Operator, value: Option<&str>) -> Condition {
    Condition {
        field: field.to_owned(),
        operator,
        value: value.map(str::to_owned),
        values: Vec::new(),
    }
}

fn membership(field: &str, operator: Operator, values: &[&str]) -> Condition {
    Condition {
        field: field.to_owned(),
        operator,
        value: None,
        values: values.iter().map(|value| (*value).to_owned()).collect(),
    }
}

/// Every guided operator survives a structured → string → structured
/// round-trip unchanged.
#[test]
fn round_trip_every_operator() {
    let cases = [
        comparison("status", Operator::Equal, Some("open")),
        comparison("status", Operator::NotEqual, Some("done")),
        comparison("points", Operator::GreaterThan, Some("3")),
        comparison("points", Operator::LessThan, Some("10")),
        comparison("points", Operator::GreaterOrEqual, Some("3")),
        comparison("points", Operator::LessOrEqual, Some("10")),
        comparison("title", Operator::Contains, Some("login")),
        comparison("title", Operator::Matches, Some("/^fix-.*/i")),
        comparison("assignee", Operator::IsSet, None),
        comparison("assignee", Operator::IsNotSet, None),
        membership("status", Operator::In, &["open", "in_progress"]),
        membership("status", Operator::NotIn, &["done", "removed"]),
        // Arity 1 must not collapse to `=` / `!=` on the way back.
        membership("status", Operator::In, &["open"]),
        membership("status", Operator::NotIn, &["done"]),
    ];
    for condition in cases {
        let serialized = serialize_condition(&condition).unwrap();
        let decomposed = decompose_clause(&serialized);
        assert_eq!(
            decomposed,
            Clause::Comparison(condition.clone()),
            "round-trip failed for {condition:?} via '{serialized}'"
        );
    }
}

#[test]
fn serialize_matches_reproduces_source_form() {
    let condition = comparison("title", Operator::Matches, Some("/^fix-.*/i"));
    assert_eq!(serialize_condition(&condition).unwrap(), "title/^fix-.*/i");
}

#[test]
fn serialize_is_not_set_uses_bang_prefix() {
    let condition = comparison("assignee", Operator::IsNotSet, None);
    assert_eq!(serialize_condition(&condition).unwrap(), "!assignee?");
}

#[test]
fn serialize_membership_joins_members_with_commas() {
    let condition = membership("status", Operator::In, &["open", "in_progress"]);
    assert_eq!(
        serialize_condition(&condition).unwrap(),
        "status in open,in_progress"
    );
    let condition = membership("status", Operator::NotIn, &["done", "removed"]);
    assert_eq!(
        serialize_condition(&condition).unwrap(),
        "status not in done,removed"
    );
}

/// A comma in an `=` value is a comma, not a hidden list.
#[test]
fn equal_value_containing_a_comma_round_trips_literally() {
    let condition = comparison("title", Operator::Equal, Some("bug, crash"));
    let serialized = serialize_condition(&condition).unwrap();
    assert_eq!(serialized, "title=bug, crash");
    assert_eq!(decompose_clause(&serialized), Clause::Comparison(condition));
}

// ── Operand / operator arity mismatches ─────────────────────────

#[test]
fn serialize_rejects_operand_arity_mismatches() {
    let scalar_on_list = Condition {
        field: "status".to_owned(),
        operator: Operator::In,
        value: Some("open".to_owned()),
        values: vec!["open".to_owned()],
    };
    assert_eq!(
        serialize_condition(&scalar_on_list),
        Err(ConditionError::ScalarOnListOperator { operator: "in" })
    );

    let list_on_scalar = Condition {
        field: "status".to_owned(),
        operator: Operator::Equal,
        value: Some("open".to_owned()),
        values: vec!["open".to_owned()],
    };
    assert_eq!(
        serialize_condition(&list_on_scalar),
        Err(ConditionError::ListOnScalarOperator { operator: "=" })
    );

    for values in [vec![], vec!["open".to_owned(), String::new()]] {
        let empty = Condition {
            field: "status".to_owned(),
            operator: Operator::NotIn,
            value: None,
            values,
        };
        assert_eq!(
            serialize_condition(&empty),
            Err(ConditionError::EmptyValueList { operator: "not in" })
        );
    }
}

// ── Decomposition: simple comparisons → guided ──────────────────

#[test]
fn decompose_simple_equality() {
    assert_eq!(
        decompose_clause("status=open"),
        Clause::Comparison(comparison("status", Operator::Equal, Some("open")))
    );
}

#[test]
fn decompose_is_set_has_no_value() {
    assert_eq!(
        decompose_clause("assignee?"),
        Clause::Comparison(comparison("assignee", Operator::IsSet, None))
    );
}

#[test]
fn decompose_is_not_set_folds_not_isset_to_operator() {
    assert_eq!(
        decompose_clause("!assignee?"),
        Clause::Comparison(comparison("assignee", Operator::IsNotSet, None))
    );
}

// ── Decomposition: complex → raw ────────────────────────────────

#[test]
fn decompose_membership_folds_to_one_condition() {
    assert_eq!(
        decompose_clause("status in open,in_progress"),
        Clause::Comparison(membership("status", Operator::In, &["open", "in_progress"]))
    );
    assert_eq!(
        decompose_clause("status not in done,removed"),
        Clause::Comparison(membership("status", Operator::NotIn, &["done", "removed"]))
    );
}

/// A hand-written boolean tree that isn't the shape a membership test
/// desugars to stays raw rather than being coerced into a guided row.
#[test]
fn decompose_mixed_operator_tree_falls_back_to_raw() {
    // Not reachable through the grammar today (one clause carries one
    // operator), but the fold must not assume that.
    let mixed = Predicate::And(vec![
        Predicate::Comparison(Comparison {
            field: FieldReference::Local("status".to_owned()),
            operator: Operator::NotEqual,
            operand: Operand::Value("done".to_owned()),
        }),
        Predicate::Comparison(Comparison {
            field: FieldReference::Local("status".to_owned()),
            operator: Operator::Equal,
            operand: Operand::Value("open".to_owned()),
        }),
    ]);
    assert_eq!(condition_from_predicate(&mixed), None);
}

#[test]
fn decompose_cross_relation_falls_back_to_raw() {
    // The guided builder is local-field only.
    assert_eq!(
        decompose_clause("parent.status=open"),
        Clause::Raw {
            raw: "parent.status=open".to_owned()
        }
    );
}

#[test]
fn decompose_unparseable_falls_back_to_raw() {
    assert_eq!(
        decompose_clause("this is not a filter"),
        Clause::Raw {
            raw: "this is not a filter".to_owned()
        }
    );
}

// ── clauses_to_strings ──────────────────────────────────────────

#[test]
fn clauses_to_strings_mixes_guided_and_raw() {
    let clauses = vec![
        Clause::Comparison(comparison("status", Operator::Equal, Some("open"))),
        Clause::Comparison(membership("type", Operator::In, &["milestone", "epic"])),
        Clause::Raw {
            raw: "parent.status=done".to_owned(),
        },
    ];
    assert_eq!(
        clauses_to_strings(&clauses).unwrap(),
        vec![
            "status=open".to_owned(),
            "type in milestone,epic".to_owned(),
            "parent.status=done".to_owned()
        ]
    );
}

#[test]
fn clauses_to_strings_propagates_a_malformed_condition() {
    let clauses = vec![Clause::Comparison(Condition {
        field: "status".to_owned(),
        operator: Operator::In,
        value: None,
        values: Vec::new(),
    })];
    assert!(clauses_to_strings(&clauses).is_err());
}

#[test]
fn decompose_clauses_round_trips_a_persisted_list() {
    let raws = vec![
        "status=open".to_owned(),
        "title~fix".to_owned(),
        "type in milestone,epic".to_owned(),
        "status not in done,removed".to_owned(),
        "parent.status=done".to_owned(), // cross-relation → raw
    ];
    let clauses = decompose_clauses(&raws);
    // Serializing the decomposed list gives back the input strings.
    assert_eq!(clauses_to_strings(&clauses).unwrap(), raws);
}
