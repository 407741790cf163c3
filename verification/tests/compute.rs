use workdown_core::compute::{field_value_from, value_of, EvalValue, RoundMode};
use workdown_core::model::{Date, FieldType, FieldValue};

fn date(y: i32, m: u32, d: u32) -> FieldValue {
    FieldValue::Date(Date::from_ymd(y, m, d).unwrap())
}

const HOUR: i64 = 3_600;


#[test]
fn date_and_timestamp_conversion_round_trips() {
    let original = date(2026, 1, 5);
    let Some(EvalValue::Timestamp(seconds)) = value_of(&original) else {
        panic!("expected a timestamp");
    };
    assert_eq!(
        field_value_from(
            EvalValue::Timestamp(seconds),
            FieldType::Date,
            RoundMode::Nearest
        ),
        Some(original)
    );
}

#[test]
fn rounding_modes_on_a_sub_day_remainder() {
    // 2026-01-05 midnight plus 4 hours.
    let Some(EvalValue::Timestamp(midnight)) = value_of(&date(2026, 1, 5)) else {
        panic!("expected a timestamp");
    };
    let four_hours_in = EvalValue::Timestamp(midnight + 4 * HOUR);

    for (round, expected_day) in [
        (RoundMode::Nearest, 5), // 4h < half a day: rounds down
        (RoundMode::Floor, 5),
        (RoundMode::Ceil, 6),
    ] {
        assert_eq!(
            field_value_from(four_hours_in.clone(), FieldType::Date, round),
            Some(date(2026, 1, expected_day)),
            "{round:?}"
        );
    }

    let twenty_hours_in = EvalValue::Timestamp(midnight + 20 * HOUR);
    assert_eq!(
        field_value_from(twenty_hours_in, FieldType::Date, RoundMode::Nearest),
        Some(date(2026, 1, 6)),
        "20h > half a day: nearest rounds up"
    );
}

#[test]
fn integer_result_widens_into_a_float_field() {
    assert_eq!(
        field_value_from(EvalValue::Integer(4), FieldType::Float, RoundMode::Nearest),
        Some(FieldValue::Float("4".into()))
    );
}

#[test]
fn value_that_does_not_fit_the_declared_type_converts_to_none() {
    assert_eq!(
        field_value_from(EvalValue::Float("1.5".into()), FieldType::Integer, RoundMode::Nearest),
        None
    );
    assert_eq!(
        field_value_from(EvalValue::Duration(60), FieldType::Date, RoundMode::Nearest),
        None
    );
}

#[test]
fn collection_field_values_do_not_convert() {
    assert_eq!(value_of(&FieldValue::List(vec!["x".to_owned()])), None);
    assert_eq!(
        value_of(&FieldValue::Multichoice(vec!["a".to_owned()])),
        None
    );
}

#[test]
fn boolean_result_fits_a_boolean_field() {
    assert_eq!(
        field_value_from(EvalValue::Boolean(true), FieldType::Boolean, RoundMode::Nearest),
        Some(FieldValue::Boolean(true))
    );
    // A boolean result does not fit any other type, and text
    // results fit nothing (no computable text fields).
    assert_eq!(
        field_value_from(EvalValue::Boolean(true), FieldType::Integer, RoundMode::Nearest),
        None
    );
    assert_eq!(
        field_value_from(
            EvalValue::Text("done".to_owned()),
            FieldType::Boolean,
            RoundMode::Nearest
        ),
        None
    );
}

#[test]
fn timestamp_at_the_integer_limit_skips_instead_of_wrapping() {
    // Nearest and Ceil shift before dividing; Floor fails on the
    // calendar range instead. All three must skip, never wrap.
    for round in [RoundMode::Nearest, RoundMode::Floor, RoundMode::Ceil] {
        assert_eq!(
            field_value_from(EvalValue::Timestamp(i64::MAX), FieldType::Date, round),
            None,
            "{round:?}"
        );
    }
}

#[test]
fn text_and_boolean_values_convert_and_colors_enter_as_written() {
    assert_eq!(
        value_of(&FieldValue::String("x".to_owned())),
        Some(EvalValue::Text("x".to_owned()))
    );
    assert_eq!(
        value_of(&FieldValue::Choice("done".to_owned())),
        Some(EvalValue::Text("done".to_owned()))
    );
    assert_eq!(
        value_of(&FieldValue::Boolean(true)),
        Some(EvalValue::Boolean(true))
    );
    assert_eq!(
        value_of(&FieldValue::Color("#ef4444".to_owned())),
        Some(EvalValue::Color("#ef4444".to_owned()))
    );
}

#[test]
fn epoch_is_timestamp_zero_and_days_step_by_a_day() {
    assert_eq!(value_of(&date(1970, 1, 1)), Some(EvalValue::Timestamp(0)));
    assert_eq!(value_of(&date(1970, 1, 2)), Some(EvalValue::Timestamp(86_400)));
    assert_eq!(value_of(&date(1969, 12, 31)), Some(EvalValue::Timestamp(-86_400)));
    assert_eq!(
        field_value_from(EvalValue::Timestamp(-1), FieldType::Date, RoundMode::Floor),
        Some(date(1969, 12, 31))
    );
}
