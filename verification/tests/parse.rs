use workdown_core::query::parse::{parse_where, QueryParseError};
use workdown_core::query::types::{Comparison, FieldReference, Operator, Predicate};


/// Helper: unwrap a Comparison from a Predicate.
fn as_comparison(predicate: &Predicate) -> &Comparison {
    match predicate {
        Predicate::Comparison(comparison) => comparison,
        other => panic!("expected Comparison, got {other:?}"),
    }
}

fn field_name(comparison: &Comparison) -> String {
    match &comparison.field {
        FieldReference::Local(name) => name.clone(),
        FieldReference::Related { relation, field } => format!("{relation}.{field}"),
    }
}

// ── Equality ────────────────────────────────────────────────

#[test]
fn parse_equality() {
    let predicate = parse_where("status=open").unwrap();
    let comparison = as_comparison(&predicate);
    assert_eq!(field_name(comparison), "status");
    assert_eq!(comparison.operator, Operator::Equal);
    assert_eq!(comparison.operand.text(), "open");
}

// ── Not-equal ───────────────────────────────────────────────

#[test]
fn parse_not_equal() {
    let predicate = parse_where("status!=done").unwrap();
    let comparison = as_comparison(&predicate);
    assert_eq!(field_name(comparison), "status");
    assert_eq!(comparison.operator, Operator::NotEqual);
    assert_eq!(comparison.operand.text(), "done");
}

// ── Numeric comparisons ─────────────────────────────────────

#[test]
fn parse_greater_than() {
    let predicate = parse_where("points>3").unwrap();
    let comparison = as_comparison(&predicate);
    assert_eq!(field_name(comparison), "points");
    assert_eq!(comparison.operator, Operator::GreaterThan);
    assert_eq!(comparison.operand.text(), "3");
}

#[test]
fn parse_less_than() {
    let predicate = parse_where("points<10").unwrap();
    let comparison = as_comparison(&predicate);
    assert_eq!(field_name(comparison), "points");
    assert_eq!(comparison.operator, Operator::LessThan);
    assert_eq!(comparison.operand.text(), "10");
}

#[test]
fn parse_greater_or_equal() {
    let predicate = parse_where("points>=3").unwrap();
    let comparison = as_comparison(&predicate);
    assert_eq!(field_name(comparison), "points");
    assert_eq!(comparison.operator, Operator::GreaterOrEqual);
    assert_eq!(comparison.operand.text(), "3");
}

#[test]
fn parse_less_or_equal() {
    let predicate = parse_where("points<=10").unwrap();
    let comparison = as_comparison(&predicate);
    assert_eq!(field_name(comparison), "points");
    assert_eq!(comparison.operator, Operator::LessOrEqual);
    assert_eq!(comparison.operand.text(), "10");
}

// ── Contains ────────────────────────────────────────────────

#[test]
fn parse_contains() {
    let predicate = parse_where("title~login").unwrap();
    let comparison = as_comparison(&predicate);
    assert_eq!(field_name(comparison), "title");
    assert_eq!(comparison.operator, Operator::Contains);
    assert_eq!(comparison.operand.text(), "login");
}

// ── Regex ───────────────────────────────────────────────────

#[test]
fn parse_regex_without_flags() {
    let predicate = parse_where("title/^fix-.*/").unwrap();
    let comparison = as_comparison(&predicate);
    assert_eq!(field_name(comparison), "title");
    assert_eq!(comparison.operator, Operator::Matches);
    assert_eq!(comparison.operand.text(), "/^fix-.*/");
}

#[test]
fn parse_regex_with_case_insensitive_flag() {
    let predicate = parse_where("title/^fix-.*/i").unwrap();
    let comparison = as_comparison(&predicate);
    assert_eq!(field_name(comparison), "title");
    assert_eq!(comparison.operator, Operator::Matches);
    assert_eq!(comparison.operand.text(), "/^fix-.*/i");
}

#[test]
fn parse_regex_invalid_pattern() {
    let result = parse_where("title/[invalid/");
    assert!(matches!(result, Err(QueryParseError::InvalidRegex { .. })));
}

/// A regex on a related field is intended, like every other operator on
/// a related field — the dot traverses, the pattern tests the target.
#[test]
fn parse_regex_on_related_field() {
    let predicate = parse_where("parent.title/^fix-/i").unwrap();
    let comparison = as_comparison(&predicate);
    assert_eq!(
        comparison.field,
        FieldReference::Related {
            relation: "parent".to_owned(),
            field: "title".to_owned(),
        }
    );
    assert_eq!(comparison.operator, Operator::Matches);
    assert_eq!(comparison.operand.text(), "/^fix-/i");
}

// ── IsSet / IsNotSet ────────────────────────────────────────

#[test]
fn parse_is_set() {
    let predicate = parse_where("assignee?").unwrap();
    let comparison = as_comparison(&predicate);
    assert_eq!(field_name(comparison), "assignee");
    assert_eq!(comparison.operator, Operator::IsSet);
}

#[test]
fn parse_is_not_set() {
    let predicate = parse_where("!assignee?").unwrap();
    match &predicate {
        Predicate::Not(inner) => {
            let comparison = as_comparison(inner);
            assert_eq!(field_name(comparison), "assignee");
            assert_eq!(comparison.operator, Operator::IsSet);
        }
        other => panic!("expected Not(Comparison), got {other:?}"),
    }
}

// ── In / not in ─────────────────────────────────────────────

#[test]
fn parse_in_desugars_to_or_of_equals() {
    let predicate = parse_where("status in open,in_progress").unwrap();
    match &predicate {
        Predicate::Or(predicates) => {
            assert_eq!(predicates.len(), 2);
            let first = as_comparison(&predicates[0]);
            assert_eq!(field_name(first), "status");
            assert_eq!(first.operator, Operator::Equal);
            assert_eq!(first.operand.text(), "open");
            let second = as_comparison(&predicates[1]);
            assert_eq!(field_name(second), "status");
            assert_eq!(second.operator, Operator::Equal);
            assert_eq!(second.operand.text(), "in_progress");
        }
        other => panic!("expected Or, got {other:?}"),
    }
}

#[test]
fn parse_not_in_desugars_to_and_of_not_equals() {
    let predicate = parse_where("status not in done,removed").unwrap();
    match &predicate {
        Predicate::And(predicates) => {
            assert_eq!(predicates.len(), 2);
            for (sub, expected) in predicates.iter().zip(["done", "removed"]) {
                let comparison = as_comparison(sub);
                assert_eq!(field_name(comparison), "status");
                assert_eq!(comparison.operator, Operator::NotEqual);
                assert_eq!(comparison.operand.text(), expected);
            }
        }
        other => panic!("expected And, got {other:?}"),
    }
}

#[test]
fn parse_in_three_values() {
    let predicate = parse_where("status in open,in_progress,done").unwrap();
    match &predicate {
        Predicate::Or(predicates) => assert_eq!(predicates.len(), 3),
        other => panic!("expected Or, got {other:?}"),
    }
}

/// A one-member list still produces the n-ary predicate, so a round-trip
/// through the clause string cannot downgrade `in` to `=`.
#[test]
fn parse_in_single_value_stays_n_ary() {
    match parse_where("status in open").unwrap() {
        Predicate::Or(predicates) => assert_eq!(predicates.len(), 1),
        other => panic!("expected Or, got {other:?}"),
    }
    match parse_where("status not in open").unwrap() {
        Predicate::And(predicates) => assert_eq!(predicates.len(), 1),
        other => panic!("expected And, got {other:?}"),
    }
}

#[test]
fn parse_in_trims_members() {
    let predicate = parse_where("status in open , in_progress").unwrap();
    match &predicate {
        Predicate::Or(predicates) => {
            assert_eq!(as_comparison(&predicates[0]).operand.text(), "open");
            assert_eq!(as_comparison(&predicates[1]).operand.text(), "in_progress");
        }
        other => panic!("expected Or, got {other:?}"),
    }
}

#[test]
fn parse_in_rejects_empty_and_partial_lists() {
    for input in [
        "status in ",
        "status in",
        "status in open,",
        "status in ,",
        "status not in ",
        "status not in",
    ] {
        assert!(
            matches!(
                parse_where(input),
                Err(QueryParseError::EmptyValueList { .. })
            ),
            "expected EmptyValueList for '{input}'"
        );
    }
}

/// The token needs a boundary on both sides: `status in_progress` names no
/// operator at all and must not be read as membership.
#[test]
fn parse_word_operator_requires_a_trailing_boundary() {
    assert!(matches!(
        parse_where("status in_progress"),
        Err(QueryParseError::UnknownOperator { .. })
    ));
}

// ── `=` is always literal ───────────────────────────────────

/// The whole point of the `in` operator: a comma in an `=` value is data,
/// not a hidden OR.
#[test]
fn parse_equality_with_comma_is_literal() {
    let predicate = parse_where("title=bug, crash").unwrap();
    let comparison = as_comparison(&predicate);
    assert_eq!(field_name(comparison), "title");
    assert_eq!(comparison.operator, Operator::Equal);
    assert_eq!(comparison.operand.text(), "bug, crash");
}

/// `=` and `!=` agree about what a comma means.
#[test]
fn parse_not_equal_with_comma_is_literal() {
    let comparison_predicate = parse_where("title!=bug, crash").unwrap();
    let comparison = as_comparison(&comparison_predicate);
    assert_eq!(comparison.operator, Operator::NotEqual);
    assert_eq!(comparison.operand.text(), "bug, crash");
}

// ── Word-operator precedence ────────────────────────────────

/// A punctuation operator wins, so the `in` inside a value is data.
#[test]
fn parse_punctuation_operator_beats_word_operator() {
    let predicate = parse_where("title=a in b").unwrap();
    let comparison = as_comparison(&predicate);
    assert_eq!(field_name(comparison), "title");
    assert_eq!(comparison.operator, Operator::Equal);
    assert_eq!(comparison.operand.text(), "a in b");
}

/// The token is whitespace-delimited, so a field name containing the
/// letters `in` is not split apart.
#[test]
fn parse_field_name_containing_in_is_not_split() {
    let predicate = parse_where("sprint=3").unwrap();
    assert_eq!(field_name(as_comparison(&predicate)), "sprint");

    let predicate = parse_where("sprint in 3,4").unwrap();
    match &predicate {
        Predicate::Or(predicates) => {
            assert_eq!(field_name(as_comparison(&predicates[0])), "sprint");
        }
        other => panic!("expected Or, got {other:?}"),
    }
}

/// ` not in ` is matched before ` in `, or the field name absorbs `not`.
#[test]
fn parse_not_in_does_not_leave_not_in_the_field_name() {
    match parse_where("status not in done").unwrap() {
        Predicate::And(predicates) => {
            assert_eq!(field_name(as_comparison(&predicates[0])), "status");
        }
        other => panic!("expected And, got {other:?}"),
    }
}

#[test]
fn parse_in_is_case_sensitive() {
    // One spelling only; `IN` is not an operator, so there is nothing to
    // split on.
    assert!(matches!(
        parse_where("status IN open,done"),
        Err(QueryParseError::UnknownOperator { .. })
    ));
}

#[test]
fn parse_related_field_in() {
    let predicate = parse_where("parent.status in open,done").unwrap();
    match &predicate {
        Predicate::Or(predicates) => {
            assert_eq!(predicates.len(), 2);
            for sub in predicates {
                let comparison = as_comparison(sub);
                assert!(matches!(&comparison.field, FieldReference::Related { .. }));
            }
        }
        other => panic!("expected Or, got {other:?}"),
    }
}

// ── Edge cases ──────────────────────────────────────────────

#[test]
fn parse_empty_input() {
    assert!(matches!(parse_where(""), Err(QueryParseError::Empty)));
}

#[test]
fn parse_whitespace_only() {
    assert!(matches!(parse_where("  "), Err(QueryParseError::Empty)));
}

#[test]
fn parse_no_operator() {
    assert!(matches!(
        parse_where("justtext"),
        Err(QueryParseError::UnknownOperator { .. })
    ));
}

#[test]
fn parse_related_field_equality() {
    let predicate = parse_where("parent.status=open").unwrap();
    let comparison = as_comparison(&predicate);
    match &comparison.field {
        FieldReference::Related { relation, field } => {
            assert_eq!(relation, "parent");
            assert_eq!(field, "status");
        }
        other => panic!("expected Related, got {other:?}"),
    }
    assert_eq!(comparison.operator, Operator::Equal);
    assert_eq!(comparison.operand.text(), "open");
}

#[test]
fn parse_related_field_is_set() {
    let predicate = parse_where("parent.status?").unwrap();
    let comparison = as_comparison(&predicate);
    assert!(matches!(&comparison.field, FieldReference::Related { .. }));
    assert_eq!(comparison.operator, Operator::IsSet);
}

#[test]
fn parse_whitespace_around_operator() {
    let predicate = parse_where(" status = open ").unwrap();
    let comparison = as_comparison(&predicate);
    assert_eq!(field_name(comparison), "status");
    assert_eq!(comparison.operand.text(), "open");
}
