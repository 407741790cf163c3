use workdown_core::model::FieldType;
use workdown_core::schema::{FieldDefinition, FieldTypeConfig, NamedField, Schema};
use workdown_core::timer_data::{rounded_write_seconds, EffortFieldState, SetOutcome, TimerWrite};

#[test]
fn under_half_a_minute_writes_nothing() {
    assert_eq!(rounded_write_seconds(0), 0);
    assert_eq!(rounded_write_seconds(29), 0);
}

#[test]
fn thirty_seconds_rounds_up_to_one_minute() {
    assert_eq!(rounded_write_seconds(30), 60);
    assert_eq!(rounded_write_seconds(89), 60);
}

#[test]
fn ninety_seconds_rounds_up_to_two_minutes() {
    assert_eq!(rounded_write_seconds(90), 120);
}

#[test]
fn exact_minutes_stay_exact() {
    assert_eq!(rounded_write_seconds(60), 60);
    assert_eq!(rounded_write_seconds(3600), 3600);
}

#[test]
fn absurd_elapsed_saturates_instead_of_panicking() {
    assert_eq!(rounded_write_seconds(u64::MAX), i64::MAX);
}

#[test]
fn rounding_stays_within_half_a_minute() {
    for elapsed in [1u64, 31, 59, 61, 149, 150, 151, 86_399] {
        let written = rounded_write_seconds(elapsed) as i128;
        assert_eq!(written % 60, 0);
        assert!(written > elapsed as i128 - 30 && written <= elapsed as i128 + 30);
    }
}

fn schema_with(fields: Vec<(&str, FieldTypeConfig)>) -> Schema {
    Schema {
        fields: fields
            .into_iter()
            .map(|(name, cfg)| NamedField {
                name: name.to_owned(),
                definition: FieldDefinition::new(cfg),
            })
            .collect(),
    }
}

fn duration_field() -> FieldTypeConfig {
    FieldTypeConfig::Duration { min: None, max: None }
}

#[test]
fn unset_key_is_unconfigured() {
    let schema = schema_with(vec![("effort", duration_field())]);
    assert_eq!(
        EffortFieldState::resolve(None, &schema),
        EffortFieldState::Unconfigured
    );
}

#[test]
fn duration_field_is_ready() {
    let schema = schema_with(vec![("effort", duration_field())]);
    assert_eq!(
        EffortFieldState::resolve(Some("effort"), &schema),
        EffortFieldState::Ready {
            field: "effort".into()
        }
    );
}

#[test]
fn unknown_field_is_invalid() {
    let schema = schema_with(vec![("effort", duration_field())]);
    let EffortFieldState::Invalid { field, problem } =
        EffortFieldState::resolve(Some("efort"), &schema)
    else {
        panic!("expected Invalid");
    };
    assert_eq!(field, "efort");
    assert!(problem.contains("no field named 'efort'"), "{problem}");
}

#[test]
fn empty_string_is_a_typo_not_a_second_unset() {
    let schema = schema_with(vec![("effort", duration_field())]);
    assert!(matches!(
        EffortFieldState::resolve(Some(""), &schema),
        EffortFieldState::Invalid { .. }
    ));
}

#[test]
fn non_duration_field_is_invalid() {
    let schema = schema_with(vec![(
        "status",
        FieldTypeConfig::Choice {
            values: vec!["open".into()],
        },
    )]);
    let EffortFieldState::Invalid { problem, .. } =
        EffortFieldState::resolve(Some("status"), &schema)
    else {
        panic!("expected Invalid");
    };
    assert!(problem.contains("needs a duration"), "{problem}");
    assert_eq!(problem, "field 'status' has type choice, but effort needs a duration");
}

#[test]
fn virtual_id_is_rejected_by_name() {
    let schema = schema_with(vec![("id", duration_field())]);
    assert!(matches!(
        EffortFieldState::resolve(Some("id"), &schema),
        EffortFieldState::Invalid { .. }
    ));
}

#[test]
fn field_type_names() {
    assert_eq!(FieldType::Multichoice.name(), "multichoice");
    assert_eq!(FieldType::Duration.name(), "duration");
}

fn outcome(previous: Option<&str>, new: &str) -> SetOutcome {
    SetOutcome {
        path: "workdown-items/task-a.md".to_owned(),
        previous_value: previous.map(|value| value.to_owned()),
        new_value: Some(new.to_owned()),
        warnings: vec![],
        info_messages: vec![],
        mutation_caused_warning: false,
    }
}

#[test]
fn absent_previous_value_starts_from_zero() {
    let write = TimerWrite::from_outcome(120, &outcome(None, "2min"));
    assert_eq!(write.previous_value, None);
    assert_eq!(write.previous_seconds, None);
    assert_eq!(write.new_seconds, 120);
    assert_eq!(write.added_seconds, 120);
}

#[test]
fn present_previous_value_carries_verbatim_and_parsed() {
    let write = TimerWrite::from_outcome(2400, &outcome(Some("2h"), "2h 40min"));
    assert_eq!(write.previous_value, Some("2h".to_owned()));
    assert_eq!(write.previous_seconds, Some(7200));
    assert_eq!(write.new_seconds, 9600);
}

#[test]
fn new_seconds_hold_at_the_integer_limit() {
    let write = TimerWrite::from_outcome(i64::MAX, &outcome(Some("1min"), "1min"));
    assert_eq!(write.previous_seconds, Some(60));
    assert_eq!(write.new_seconds, i64::MAX);
}
