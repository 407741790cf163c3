//! Field values as the expression evaluator sees them, and evaluation
//! results back as field values of a declared type: the conversions on
//! either side of a `compute:` expression.

use vstd::prelude::*;

use crate::model::{Date, DateView, FieldType, FieldValue, FieldValueView};
use crate::rollup::{ce_date, ce_day_number, date_of_day_number, day_number};
use crate::text::{decimal, decimal_text};

verus! {

/// A value inside an expression.
#[derive(Debug, Clone, PartialEq)]
pub enum EvalValue {
    Integer(i64),
    /// A floating-point number, as the decimal text it prints as.
    Float(String),
    /// Seconds.
    Duration(i64),
    /// Seconds since 1970-01-01 at midnight.
    Timestamp(i64),
    Boolean(bool),
    Text(String),
    Color(String),
}

pub enum EvalView {
    Integer(int),
    Float(Seq<char>),
    Duration(int),
    Timestamp(int),
    Boolean(bool),
    Text(Seq<char>),
    Color(Seq<char>),
}

impl View for EvalValue {
    type V = EvalView;

    open spec fn view(&self) -> EvalView {
        match self {
            EvalValue::Integer(n) => EvalView::Integer(*n as int),
            EvalValue::Float(text) => EvalView::Float(text@),
            EvalValue::Duration(seconds) => EvalView::Duration(*seconds as int),
            EvalValue::Timestamp(seconds) => EvalView::Timestamp(*seconds as int),
            EvalValue::Boolean(flag) => EvalView::Boolean(*flag),
            EvalValue::Text(text) => EvalView::Text(text@),
            EvalValue::Color(text) => EvalView::Color(text@),
        }
    }
}

/// How a timestamp that falls inside a day lands on a calendar day.
#[derive(Debug, Clone, Copy, PartialEq, Eq)]
pub enum RoundMode {
    Nearest,
    Floor,
    Ceil,
}

pub open spec fn seconds_per_day() -> int {
    86400
}

/// 1970-01-01, where timestamps count from.
pub open spec fn epoch() -> DateView {
    DateView { year: 1970, month: 1, day: 1 }
}

/// A date's timestamp: midnight of that day, in seconds since the epoch.
pub open spec fn timestamp_of_date(date: DateView) -> int {
    (ce_day_number(date) - ce_day_number(epoch())) * seconds_per_day()
}

/// A field value as an expression value; none for the types outside the
/// expression algebra (lists, multichoice, links).
pub open spec fn eval_of(value: FieldValueView) -> Option<EvalView> {
    match value {
        FieldValueView::Integer(n) => Some(EvalView::Integer(n)),
        FieldValueView::Float(text) => Some(EvalView::Float(text)),
        FieldValueView::Duration(seconds) => Some(EvalView::Duration(seconds)),
        FieldValueView::Date(date) => Some(EvalView::Timestamp(timestamp_of_date(date))),
        FieldValueView::Boolean(flag) => Some(EvalView::Boolean(flag)),
        FieldValueView::String(text) => Some(EvalView::Text(text)),
        FieldValueView::Choice(text) => Some(EvalView::Text(text)),
        FieldValueView::Color(text) => Some(EvalView::Color(text)),
        _ => None,
    }
}

/// A timestamp moved so that dividing by a day lands on the right day;
/// none where the move leaves the integer range.
pub open spec fn shifted(seconds: int, round: RoundMode) -> Option<int> {
    let moved = match round {
        RoundMode::Nearest => seconds + seconds_per_day() / 2,
        RoundMode::Floor => seconds,
        RoundMode::Ceil => seconds + seconds_per_day() - 1,
    };
    if moved <= i64::MAX {
        Some(moved)
    } else {
        None
    }
}

/// The calendar day a timestamp lands on, when the calendar has it.
pub open spec fn day_of_timestamp(seconds: int, round: RoundMode) -> Option<DateView> {
    match shifted(seconds, round) {
        Some(moved) => {
            let day = ce_day_number(epoch()) + moved / seconds_per_day();
            if i32::MIN <= day <= i32::MAX {
                ce_date(day)
            } else {
                None
            }
        },
        None => None,
    }
}

/// An expression result as a value of the declared type: the value itself
/// where the types agree, an integer widened into a float, a timestamp
/// rounded onto a calendar day; none otherwise.
pub open spec fn field_of(value: EvalView, declared: FieldType, round: RoundMode) -> Option<FieldValueView> {
    match (value, declared) {
        (EvalView::Integer(n), FieldType::Integer) => Some(FieldValueView::Integer(n)),
        (EvalView::Integer(n), FieldType::Float) => Some(FieldValueView::Float(decimal(n))),
        (EvalView::Float(text), FieldType::Float) => Some(FieldValueView::Float(text)),
        (EvalView::Duration(seconds), FieldType::Duration) => Some(FieldValueView::Duration(seconds)),
        (EvalView::Boolean(flag), FieldType::Boolean) => Some(FieldValueView::Boolean(flag)),
        (EvalView::Timestamp(seconds), FieldType::Date) => match day_of_timestamp(seconds, round) {
            Some(date) => Some(FieldValueView::Date(date)),
            None => None,
        },
        _ => None,
    }
}

fn epoch_day_number() -> (r: i32)
    ensures
        r as int == ce_day_number(epoch()),
{
    let epoch = Date::from_ymd(1970, 1, 1);
    match epoch {
        Some(date) => day_number(date),
        None => 0,
    }
}

/// A date's timestamp: midnight of that day, in seconds since 1970-01-01.
pub fn timestamp_of(date: Date) -> (r: i64)
    ensures
        r as int == timestamp_of_date(date@),
{
    let days = day_number(date) as i64 - epoch_day_number() as i64;
    assert(-0x1_0000_0000 < days < 0x1_0000_0000);
    days * 86400
}

/// A field value as an expression value; none for lists, multichoice and
/// links. Colors enter as written.
pub fn value_of(field_value: &FieldValue) -> (r: Option<EvalValue>)
    ensures
        match r {
            Some(value) => eval_of(field_value@) == Some(value@),
            None => eval_of(field_value@) is None,
        },
{
    match field_value {
        FieldValue::Integer(n) => Some(EvalValue::Integer(*n)),
        FieldValue::Float(text) => Some(EvalValue::Float(text.clone())),
        FieldValue::Duration(seconds) => Some(EvalValue::Duration(*seconds)),
        FieldValue::Date(date) => Some(EvalValue::Timestamp(timestamp_of(*date))),
        FieldValue::Boolean(flag) => Some(EvalValue::Boolean(*flag)),
        FieldValue::String(text) => Some(EvalValue::Text(text.clone())),
        FieldValue::Choice(text) => Some(EvalValue::Text(text.clone())),
        FieldValue::Color(text) => Some(EvalValue::Color(text.clone())),
        _ => None,
    }
}

/// An expression result as a field value of the declared type, rounding a
/// timestamp onto a calendar day; none where the value does not fit the
/// type or the day leaves the calendar (the shift never wraps).
pub fn field_value_from(value: EvalValue, declared_type: FieldType, round: RoundMode) -> (r: Option<FieldValue>)
    ensures
        match r {
            Some(field) => field_of(value@, declared_type, round) == Some(field@),
            None => field_of(value@, declared_type, round) is None,
        },
{
    match (value, declared_type) {
        (EvalValue::Integer(n), FieldType::Integer) => Some(FieldValue::Integer(n)),
        (EvalValue::Integer(n), FieldType::Float) => Some(FieldValue::Float(decimal_text(n))),
        (EvalValue::Float(text), FieldType::Float) => Some(FieldValue::Float(text)),
        (EvalValue::Duration(seconds), FieldType::Duration) => Some(FieldValue::Duration(seconds)),
        (EvalValue::Boolean(flag), FieldType::Boolean) => Some(FieldValue::Boolean(flag)),
        (EvalValue::Timestamp(seconds), FieldType::Date) => {
            let moved: i64 = match round {
                RoundMode::Nearest => match seconds.checked_add(43200) {
                    Some(moved) => moved,
                    None => return None,
                },
                RoundMode::Floor => seconds,
                RoundMode::Ceil => match seconds.checked_add(86399) {
                    Some(moved) => moved,
                    None => return None,
                },
            };
            let days: i64 = if moved >= 0 {
                moved / 86400
            } else {
                -((-(moved + 1)) / 86400) - 1
            };
            assert(days == moved as int / 86400) by (nonlinear_arith)
                requires
                    moved >= 0 ==> days == moved / 86400,
                    moved < 0 ==> days == -((-(moved + 1)) / 86400) - 1,
            ;
            let day = epoch_day_number() as i64 + days;
            if day < i32::MIN as i64 || day > i32::MAX as i64 {
                return None;
            }
            match date_of_day_number(day as i32) {
                Some(date) => Some(FieldValue::Date(date)),
                None => None,
            }
        },
        _ => None,
    }
}

} // verus!
