use workdown_core::model::FieldType;
use workdown_core::query::types::{operators_for, Operator};


#[test]
fn presence_operators_apply_to_every_type() {
    for field_type in [
        FieldType::String,
        FieldType::Choice,
        FieldType::Multichoice,
        FieldType::Integer,
        FieldType::Float,
        FieldType::Date,
        FieldType::Duration,
        FieldType::Color,
        FieldType::Boolean,
        FieldType::List,
        FieldType::Link,
        FieldType::Links,
    ] {
        let operators = operators_for(field_type);
        assert!(operators.contains(&Operator::IsSet), "{field_type:?}");
        assert!(operators.contains(&Operator::IsNotSet), "{field_type:?}");
    }
}

#[test]
fn color_supports_equality_only() {
    let operators = operators_for(FieldType::Color);
    assert_eq!(
        operators,
        vec![
            Operator::Equal,
            Operator::NotEqual,
            Operator::IsSet,
            Operator::IsNotSet
        ]
    );
}

#[test]
fn boolean_supports_equality_only() {
    let operators = operators_for(FieldType::Boolean);
    assert_eq!(
        operators,
        vec![
            Operator::Equal,
            Operator::NotEqual,
            Operator::IsSet,
            Operator::IsNotSet
        ]
    );
}

#[test]
fn numeric_types_support_ordering_but_not_substring() {
    for field_type in [FieldType::Integer, FieldType::Float, FieldType::Duration] {
        let operators = operators_for(field_type);
        assert!(operators.contains(&Operator::GreaterThan), "{field_type:?}");
        assert!(!operators.contains(&Operator::Contains), "{field_type:?}");
        assert!(!operators.contains(&Operator::Matches), "{field_type:?}");
    }
}

#[test]
fn collection_types_support_membership_and_element_match_not_ordering() {
    for field_type in [FieldType::Multichoice, FieldType::List, FieldType::Links] {
        let operators = operators_for(field_type);
        assert!(operators.contains(&Operator::Contains), "{field_type:?}");
        assert!(operators.contains(&Operator::Matches), "{field_type:?}");
        assert!(!operators.contains(&Operator::GreaterThan), "{field_type:?}");
    }
}

#[test]
fn string_supports_substring_and_regex_but_not_ordering() {
    let operators = operators_for(FieldType::String);
    assert!(operators.contains(&Operator::Contains));
    assert!(operators.contains(&Operator::Matches));
    assert!(operators.contains(&Operator::Equal));
    // Ordering is a byte-wise footgun for free text — not offered.
    assert!(!operators.contains(&Operator::GreaterThan));
    assert!(!operators.contains(&Operator::LessThan));
}

#[test]
fn choice_and_link_offer_equality_and_membership() {
    for field_type in [FieldType::Choice, FieldType::Link] {
        let operators = operators_for(field_type);
        assert_eq!(
            operators,
            vec![
                Operator::Equal,
                Operator::NotEqual,
                Operator::In,
                Operator::NotIn,
                Operator::IsSet,
                Operator::IsNotSet
            ],
            "{field_type:?}"
        );
    }
}

#[test]
fn membership_offered_for_choice_like_and_link_like_only() {
    for field_type in [
        FieldType::Choice,
        FieldType::Multichoice,
        FieldType::Link,
        FieldType::Links,
    ] {
        let operators = operators_for(field_type);
        assert!(operators.contains(&Operator::In), "{field_type:?}");
        assert!(operators.contains(&Operator::NotIn), "{field_type:?}");
    }
    // No known value set to pick members from.
    for field_type in [
        FieldType::String,
        FieldType::List,
        FieldType::Integer,
        FieldType::Float,
        FieldType::Date,
        FieldType::Duration,
        FieldType::Boolean,
        FieldType::Color,
    ] {
        let operators = operators_for(field_type);
        assert!(!operators.contains(&Operator::In), "{field_type:?}");
        assert!(!operators.contains(&Operator::NotIn), "{field_type:?}");
    }
}

#[test]
fn negative_operators_are_not_equal_and_not_in() {
    assert!(Operator::NotEqual.is_negative());
    assert!(Operator::NotIn.is_negative());
    assert!(!Operator::Equal.is_negative());
    assert!(!Operator::In.is_negative());
    assert!(!Operator::Contains.is_negative());
    // Presence checks are answered before the absent-value rule.
    assert!(!Operator::IsNotSet.is_negative());
}

#[test]
fn date_supports_ordering_but_not_substring() {
    let operators = operators_for(FieldType::Date);
    assert!(operators.contains(&Operator::GreaterThan));
    assert!(operators.contains(&Operator::LessOrEqual));
    // Chronological ordering is meaningful; substring/regex on a date
    // is not offered.
    assert!(!operators.contains(&Operator::Contains));
    assert!(!operators.contains(&Operator::Matches));
}
