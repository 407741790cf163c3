//! Typing a work item's frontmatter against the schema: each defined
//! field's YAML value is checked against the field's type and constraints
//! and converted into a [`FieldValue`]; what does not fit, what is missing
//! and what the schema does not know become diagnostics.

use vstd::prelude::*;

use chrono::Datelike;

use crate::diagnostic::{
    item_diagnostic, DiagnosticView, DiagnosticBodyView, Diagnostic, FieldValueError,
    FieldValueErrorView, ItemDiagnosticKind, ItemKindView,
};
use crate::duration::{duration_text, format_duration_seconds, parse_duration, read_duration};
use crate::frontmatter::{find_entry, first_named, RawWorkItem};
use crate::model::{
    texts_of, valid_date, Date, DateView, FieldMap, FieldType, FieldValue, FieldValueView, Severity,
    WorkItemId,
};
use crate::numbers::{compare_decimals, decimal_compare, parse_i64, parse_int};
use crate::query::types::{regex_accepts, regex_check, regex_finds, regex_is_match, regex_rejection};
use crate::schema::{definition_of, field_index, lemma_field_index, FieldTypeConfig, NamedField, Schema};
use crate::text::{concat, decimal, decimal_text, str_eq};
use crate::yaml::{
    kind_name, untag, untagged, yaml_as_str, yaml_is_null, yaml_kind_name, yaml_null, yaml_text,
    YamlValue,
};

verus! {

// ── Dates ───────────────────────────────────────────────────────────

/// The year, month and day chrono's `NaiveDate::parse_from_str` reads from
/// `text` in `format`, when it reads a date.
pub uninterp spec fn chrono_parsed_ymd(text: Seq<char>, format: Seq<char>) -> Option<(int, int, int)>;

/// The date read from `text` in `format`, as a calendar date.
pub open spec fn parsed_date(text: Seq<char>, format: Seq<char>) -> Option<DateView> {
    match chrono_parsed_ymd(text, format) {
        Some((year, month, day)) => if valid_date(year, month, day) {
            Some(DateView { year, month, day })
        } else {
            None
        },
        None => None,
    }
}

/// chrono's `NaiveDate::parse_from_str(text, format)`, as its year, month
/// and day. The contract claims only that the outcome depends on the text
/// and the format alone.
#[verifier::external_body]
fn chrono_parse_ymd(text: &str, format: &str) -> (r: Option<(i32, u32, u32)>)
    ensures
        match r {
            Some((year, month, day)) => chrono_parsed_ymd(text@, format@) == Some(
                (year as int, month as int, day as int),
            ),
            None => chrono_parsed_ymd(text@, format@) is None,
        },
{
    match chrono::NaiveDate::parse_from_str(text, format) {
        Ok(day) => Some((day.year(), day.month(), day.day())),
        Err(_) => None,
    }
}

/// The date read from `text` in `format`.
pub(crate) fn parse_date(text: &str, format: &str) -> (r: Option<Date>)
    ensures
        match r {
            Some(date) => parsed_date(text@, format@) == Some(date@),
            None => parsed_date(text@, format@) is None,
        },
{
    match chrono_parse_ymd(text, format) {
        Some((year, month, day)) => Date::from_ymd(year, month, day),
        None => None,
    }
}

/// The date format of frontmatter dates.
pub open spec fn date_format() -> Seq<char> {
    "%Y-%m-%d"@
}

// ── The rules, per type ─────────────────────────────────────────────

/// The error for a value of the wrong kind.
pub open spec fn mismatch(expected: FieldType, value: YamlValue) -> FieldValueErrorView {
    FieldValueErrorView::TypeMismatch { expected, got: kind_name(value) }
}

/// The texts of a sequence's elements, or the kind of its first element
/// that is not a string.
pub open spec fn element_texts(items: Seq<YamlValue>) -> Result<Seq<Seq<char>>, Seq<char>>
    decreases items.len(),
{
    if items.len() == 0 {
        Ok(Seq::empty())
    } else {
        match element_texts(items.drop_last()) {
            Err(kind) => Err(kind),
            Ok(texts) => match yaml_text(items.last()) {
                Some(text) => Ok(texts.push(text)),
                None => Err(kind_name(items.last())),
            },
        }
    }
}

/// A value that must be a string.
pub open spec fn text_value(value: YamlValue, expected: FieldType) -> Result<Seq<char>, FieldValueErrorView> {
    match yaml_text(value) {
        Some(text) => Ok(text),
        None => Err(mismatch(expected, value)),
    }
}

/// A value that must be a sequence of strings.
pub open spec fn texts_value(value: YamlValue, expected: FieldType) -> Result<Seq<Seq<char>>, FieldValueErrorView> {
    match untagged(value) {
        YamlValue::Sequence(items) => match element_texts(items@) {
            Ok(texts) => Ok(texts),
            Err(kind) => Err(FieldValueErrorView::TypeMismatch {
                expected,
                got: "sequence containing "@ + kind,
            }),
        },
        _ => Err(mismatch(expected, value)),
    }
}

/// The members of `values` that `allowed` does not hold, in order.
pub open spec fn not_allowed(values: Seq<Seq<char>>, allowed: Seq<Seq<char>>) -> Seq<Seq<char>>
    decreases values.len(),
{
    if values.len() == 0 {
        Seq::empty()
    } else if allowed.contains(values.last()) {
        not_allowed(values.drop_last(), allowed)
    } else {
        not_allowed(values.drop_last(), allowed).push(values.last())
    }
}

/// A decimal text lies below a bound written as decimal text.
pub open spec fn below(value: Seq<char>, bound: Option<String>) -> bool {
    bound matches Some(b) && compare_decimals(value, b@) == Some(-1int)
}

/// A decimal text lies above a bound written as decimal text.
pub open spec fn above(value: Seq<char>, bound: Option<String>) -> bool {
    bound matches Some(b) && compare_decimals(value, b@) == Some(1int)
}

/// A number checked against decimal bounds, the lower one first.
pub open spec fn bounded(value: Seq<char>, min: Option<String>, max: Option<String>, fits: FieldValueView) -> Result<FieldValueView, FieldValueErrorView> {
    if below(value, min) || above(value, max) {
        Err(FieldValueErrorView::OutOfRange { value, min: crate::diagnostic::optional_text(min), max: crate::diagnostic::optional_text(max) })
    } else {
        Ok(fits)
    }
}

/// A duration bound: the seconds its decimal text stands for.
pub open spec fn bound_seconds(bound: Option<String>) -> Option<int> {
    match bound {
        Some(b) => parse_int(b@),
        None => None,
    }
}

/// A duration bound as messages show it: as a duration when it reads as
/// seconds, as written otherwise.
pub open spec fn shown_bound(bound: Option<String>) -> Option<Seq<char>> {
    match bound {
        Some(b) => match parse_int(b@) {
            Some(seconds) => Some(duration_text(seconds)),
            None => Some(b@),
        },
        None => None,
    }
}

/// Whether `seconds` lies outside duration bounds.
pub open spec fn outside(seconds: int, min: Option<String>, max: Option<String>) -> bool {
    (bound_seconds(min) matches Some(low) && seconds < low)
        || (bound_seconds(max) matches Some(high) && seconds > high)
}

/// What a YAML value becomes in a field of the given configuration.
pub open spec fn coerced(value: YamlValue, config: FieldTypeConfig) -> Result<FieldValueView, FieldValueErrorView> {
    match config {
        FieldTypeConfig::String { pattern } => match text_value(value, FieldType::String) {
            Err(e) => Err(e),
            Ok(text) => match pattern {
                None => Ok(FieldValueView::String(text)),
                Some(p) => if !regex_accepts(p@) {
                    Err(FieldValueErrorView::InvalidPattern { pattern: p@, error: regex_rejection(p@) })
                } else if !regex_finds(p@, text) {
                    Err(FieldValueErrorView::PatternMismatch { value: text, pattern: p@ })
                } else {
                    Ok(FieldValueView::String(text))
                },
            },
        },
        FieldTypeConfig::Choice { values } => match text_value(value, FieldType::Choice) {
            Err(e) => Err(e),
            Ok(text) => if texts_of(values@).contains(text) {
                Ok(FieldValueView::Choice(text))
            } else {
                Err(FieldValueErrorView::InvalidChoice { value: text, allowed: texts_of(values@) })
            },
        },
        FieldTypeConfig::Multichoice { values } => match texts_value(value, FieldType::Multichoice) {
            Err(e) => Err(e),
            Ok(texts) => if not_allowed(texts, texts_of(values@)).len() > 0 {
                Err(FieldValueErrorView::InvalidMultichoice {
                    values: not_allowed(texts, texts_of(values@)),
                    allowed: texts_of(values@),
                })
            } else {
                Ok(FieldValueView::Multichoice(texts))
            },
        },
        FieldTypeConfig::Integer { min, max } => match untagged(value) {
            YamlValue::Number { integer: Some(n), .. } => bounded(
                decimal(n as int),
                min,
                max,
                FieldValueView::Integer(n as int),
            ),
            _ => Err(mismatch(FieldType::Integer, value)),
        },
        FieldTypeConfig::Float { min, max } => match untagged(value) {
            YamlValue::Number { text, .. } => bounded(text@, min, max, FieldValueView::Float(text@)),
            _ => Err(mismatch(FieldType::Float, value)),
        },
        FieldTypeConfig::Date => match text_value(value, FieldType::Date) {
            Err(e) => Err(e),
            Ok(text) => match parsed_date(text, date_format()) {
                Some(date) => Ok(FieldValueView::Date(date)),
                None => Err(FieldValueErrorView::InvalidDate { value: text }),
            },
        },
        FieldTypeConfig::Duration { min, max } => match text_value(value, FieldType::Duration) {
            Err(e) => Err(e),
            Ok(text) => match read_duration(text) {
                None => Err(FieldValueErrorView::InvalidDuration { value: text }),
                Some(seconds) => if outside(seconds, min, max) {
                    Err(FieldValueErrorView::OutOfRangeDuration {
                        value: duration_text(seconds),
                        min: shown_bound(min),
                        max: shown_bound(max),
                    })
                } else {
                    Ok(FieldValueView::Duration(seconds))
                },
            },
        },
        FieldTypeConfig::Color => match text_value(value, FieldType::Color) {
            Err(e) => Err(e),
            Ok(text) => Ok(FieldValueView::Color(text)),
        },
        FieldTypeConfig::Boolean => match untagged(value) {
            YamlValue::Bool(flag) => Ok(FieldValueView::Boolean(flag)),
            _ => Err(mismatch(FieldType::Boolean, value)),
        },
        FieldTypeConfig::List => match texts_value(value, FieldType::List) {
            Err(e) => Err(e),
            Ok(texts) => Ok(FieldValueView::List(texts)),
        },
        FieldTypeConfig::Link { .. } => match text_value(value, FieldType::Link) {
            Err(e) => Err(e),
            Ok(text) => Ok(FieldValueView::Link(text)),
        },
        FieldTypeConfig::Links { .. } => match texts_value(value, FieldType::Links) {
            Err(e) => Err(e),
            Ok(texts) => Ok(FieldValueView::Links(texts)),
        },
    }
}

/// A coercion outcome by its views.
pub open spec fn outcome(r: Result<FieldValue, FieldValueError>) -> Result<FieldValueView, FieldValueErrorView> {
    match r {
        Ok(value) => Ok(value@),
        Err(error) => Err(error@),
    }
}

// ── Coercing one value ──────────────────────────────────────────────

fn mismatch_error(expected: FieldType, value: &YamlValue) -> (r: FieldValueError)
    ensures
        r@ == mismatch(expected, *value),
{
    FieldValueError::TypeMismatch { expected, got: yaml_kind_name(value).to_owned() }
}

fn text_field(value: &YamlValue, expected: FieldType) -> (r: Result<String, FieldValueError>)
    ensures
        match r {
            Ok(text) => text_value(*value, expected) == Ok::<Seq<char>, FieldValueErrorView>(text@),
            Err(error) => text_value(*value, expected) == Err::<Seq<char>, FieldValueErrorView>(error@),
        },
{
    match yaml_as_str(value) {
        Some(text) => Ok(text.to_owned()),
        None => Err(mismatch_error(expected, value)),
    }
}

fn texts_field(value: &YamlValue, expected: FieldType) -> (r: Result<Vec<String>, FieldValueError>)
    ensures
        match r {
            Ok(texts) => texts_value(*value, expected) == Ok::<Seq<Seq<char>>, FieldValueErrorView>(texts_of(texts@)),
            Err(error) => texts_value(*value, expected) == Err::<Seq<Seq<char>>, FieldValueErrorView>(error@),
        },
{
    let inner = untag(value);
    let items = match inner {
        YamlValue::Sequence(items) => items,
        _ => return Err(mismatch_error(expected, value)),
    };
    assert(untagged(*value) == YamlValue::Sequence(*items));
    let mut texts: Vec<String> = Vec::new();
    let mut i: usize = 0;
    assert(items@.take(0) =~= Seq::<YamlValue>::empty());
    assert(texts_of(texts@) =~= Seq::<Seq<char>>::empty());
    assert(element_texts(items@.take(0)) == Ok::<Seq<Seq<char>>, Seq<char>>(Seq::empty()));
    while i < items.len()
        invariant
            i <= items@.len(),
            element_texts(items@.take(i as int)) == Ok::<Seq<Seq<char>>, Seq<char>>(texts_of(texts@)),
            untagged(*value) == YamlValue::Sequence(*items),
        decreases items@.len() - i,
    {
        let ghost before = texts@;
        proof {
            assert(items@.take(i + 1).drop_last() =~= items@.take(i as int));
            assert(items@.take(i + 1).last() == items@[i as int]);
        }
        match yaml_as_str(&items[i]) {
            Some(text) => {
                texts.push(text.to_owned());
                assert(texts_of(texts@) =~= texts_of(before).push(text@));
            },
            None => {
                proof {
                    reveal_strlit("sequence containing ");
                }
                let got = concat("sequence containing ", yaml_kind_name(&items[i]));
                proof {
                    let rest = items@.skip(i + 1);
                    assert(element_texts(items@.take(i + 1)) == Err::<Seq<Seq<char>>, Seq<char>>(
                        kind_name(items@[i as int]),
                    ));
                    lemma_element_texts_err(items@.take(i + 1), rest);
                    assert(items@.take(i + 1) + rest =~= items@);
                    assert(got@ == "sequence containing "@ + kind_name(items@[i as int]));
                    assert(element_texts(items@) == Err::<Seq<Seq<char>>, Seq<char>>(kind_name(items@[i as int])));
                }
                let error = FieldValueError::TypeMismatch { expected, got };
                assert(texts_value(*value, expected) == Err::<Seq<Seq<char>>, FieldValueErrorView>(error@));
                return Err(error);
            },
        }
        i = i + 1;
    }
    assert(items@.take(items@.len() as int) =~= items@);
    Ok(texts)
}

proof fn lemma_element_texts_err(prefix: Seq<YamlValue>, rest: Seq<YamlValue>)
    requires
        element_texts(prefix) is Err,
    ensures
        element_texts(prefix + rest) == element_texts(prefix),
    decreases rest.len(),
{
    if rest.len() > 0 {
        lemma_element_texts_err(prefix, rest.drop_last());
        assert((prefix + rest).drop_last() =~= prefix + rest.drop_last());
    }
}

/// Whether `allowed` holds `value`.
fn holds(allowed: &Vec<String>, value: &str) -> (r: bool)
    ensures
        r == texts_of(allowed@).contains(value@),
{
    let mut i: usize = 0;
    while i < allowed.len()
        invariant
            i <= allowed@.len(),
            forall|k: int| 0 <= k < i ==> allowed@[k]@ != value@,
        decreases allowed@.len() - i,
    {
        if str_eq(allowed[i].as_str(), value) {
            assert(texts_of(allowed@)[i as int] == value@);
            return true;
        }
        i = i + 1;
    }
    assert forall|k: int| 0 <= k < texts_of(allowed@).len() implies texts_of(allowed@)[k] != value@ by {
        assert(texts_of(allowed@)[k] == allowed@[k]@);
    }
    false
}

/// The members of `values` that `allowed` does not hold.
fn members_not_allowed(values: &Vec<String>, allowed: &Vec<String>) -> (r: Vec<String>)
    ensures
        texts_of(r@) == not_allowed(texts_of(values@), texts_of(allowed@)),
{
    let mut out: Vec<String> = Vec::new();
    let mut i: usize = 0;
    while i < values.len()
        invariant
            i <= values@.len(),
            texts_of(out@) == not_allowed(texts_of(values@).take(i as int), texts_of(allowed@)),
        decreases values@.len() - i,
    {
        let ghost before = out@;
        proof {
            let next = texts_of(values@).take(i + 1);
            assert(next.drop_last() =~= texts_of(values@).take(i as int));
            assert(next.last() == values@[i as int]@);
        }
        if !holds(allowed, values[i].as_str()) {
            out.push(values[i].clone());
            assert(texts_of(out@) =~= texts_of(before).push(values@[i as int]@));
        }
        i = i + 1;
    }
    assert(texts_of(values@).take(values@.len() as int) =~= texts_of(values@));
    out
}

/// Checks a decimal text against decimal bounds.
fn check_bounds(value: &str, min: &Option<String>, max: &Option<String>) -> (r: bool)
    ensures
        r == (below(value@, *min) || above(value@, *max)),
{
    let low = match min {
        Some(b) => match decimal_compare(value, b.as_str()) {
            Some(order) => order == -1,
            None => false,
        },
        None => false,
    };
    let high = match max {
        Some(b) => match decimal_compare(value, b.as_str()) {
            Some(order) => order == 1,
            None => false,
        },
        None => false,
    };
    low || high
}

pub(crate) fn bound_value(bound: &Option<String>) -> (r: Option<i64>)
    ensures
        match r {
            Some(n) => bound_seconds(*bound) == Some(n as int),
            None => bound_seconds(*bound) is None,
        },
{
    match bound {
        Some(b) => parse_i64(b.as_str()),
        None => None,
    }
}

fn shown(bound: &Option<String>) -> (r: Option<String>)
    ensures
        crate::diagnostic::optional_text(r) == shown_bound(*bound),
{
    match bound {
        Some(b) => match parse_i64(b.as_str()) {
            Some(seconds) => Some(format_duration_seconds(seconds)),
            None => Some(b.clone()),
        },
        None => None,
    }
}

/// Convert one YAML value into a field value of the given configuration,
/// or say why it does not fit.
pub fn coerce_value(value: &YamlValue, config: &FieldTypeConfig) -> (r: Result<FieldValue, FieldValueError>)
    ensures
        outcome(r) == coerced(*value, *config),
{
    match config {
        FieldTypeConfig::String { pattern } => {
            let text = match text_field(value, FieldType::String) {
                Ok(text) => text,
                Err(error) => return Err(error),
            };
            match pattern {
                None => Ok(FieldValue::String(text)),
                Some(p) => match regex_check(p.as_str()) {
                    Err(error) => Err(FieldValueError::InvalidPattern { pattern: p.clone(), error }),
                    Ok(()) => if regex_is_match(p.as_str(), text.as_str()) {
                        Ok(FieldValue::String(text))
                    } else {
                        Err(FieldValueError::PatternMismatch { value: text, pattern: p.clone() })
                    },
                },
            }
        },
        FieldTypeConfig::Choice { values } => {
            let text = match text_field(value, FieldType::Choice) {
                Ok(text) => text,
                Err(error) => return Err(error),
            };
            if holds(values, text.as_str()) {
                Ok(FieldValue::Choice(text))
            } else {
                Err(FieldValueError::InvalidChoice { value: text, allowed: values.clone() })
            }
        },
        FieldTypeConfig::Multichoice { values } => {
            let texts = match texts_field(value, FieldType::Multichoice) {
                Ok(texts) => texts,
                Err(error) => return Err(error),
            };
            let invalid = members_not_allowed(&texts, values);
            if invalid.len() > 0 {
                Err(FieldValueError::InvalidMultichoice { values: invalid, allowed: values.clone() })
            } else {
                Ok(FieldValue::Multichoice(texts))
            }
        },
        FieldTypeConfig::Integer { min, max } => match untag(value) {
            YamlValue::Number { integer: Some(n), .. } => {
                let text = decimal_text(*n);
                if check_bounds(text.as_str(), min, max) {
                    Err(FieldValueError::OutOfRange { value: text, min: min.clone(), max: max.clone() })
                } else {
                    Ok(FieldValue::Integer(*n))
                }
            },
            _ => Err(mismatch_error(FieldType::Integer, value)),
        },
        FieldTypeConfig::Float { min, max } => match untag(value) {
            YamlValue::Number { text, .. } => {
                if check_bounds(text.as_str(), min, max) {
                    Err(FieldValueError::OutOfRange { value: text.clone(), min: min.clone(), max: max.clone() })
                } else {
                    Ok(FieldValue::Float(text.clone()))
                }
            },
            _ => Err(mismatch_error(FieldType::Float, value)),
        },
        FieldTypeConfig::Date => {
            let text = match text_field(value, FieldType::Date) {
                Ok(text) => text,
                Err(error) => return Err(error),
            };
            proof {
                reveal_strlit("%Y-%m-%d");
            }
            match parse_date(text.as_str(), "%Y-%m-%d") {
                Some(date) => Ok(FieldValue::Date(date)),
                None => Err(FieldValueError::InvalidDate { value: text }),
            }
        },
        FieldTypeConfig::Duration { min, max } => {
            let text = match text_field(value, FieldType::Duration) {
                Ok(text) => text,
                Err(error) => return Err(error),
            };
            let seconds = match parse_duration(text.as_str()) {
                Some(seconds) => seconds,
                None => return Err(FieldValueError::InvalidDuration { value: text }),
            };
            let low = match bound_value(min) {
                Some(m) => seconds < m,
                None => false,
            };
            let high = match bound_value(max) {
                Some(m) => seconds > m,
                None => false,
            };
            if low || high {
                Err(FieldValueError::OutOfRangeDuration {
                    value: format_duration_seconds(seconds),
                    min: shown(min),
                    max: shown(max),
                })
            } else {
                Ok(FieldValue::Duration(seconds))
            }
        },
        FieldTypeConfig::Color => match text_field(value, FieldType::Color) {
            Ok(text) => Ok(FieldValue::Color(text)),
            Err(error) => Err(error),
        },
        FieldTypeConfig::Boolean => match untag(value) {
            YamlValue::Bool(flag) => Ok(FieldValue::Boolean(*flag)),
            _ => Err(mismatch_error(FieldType::Boolean, value)),
        },
        FieldTypeConfig::List => match texts_field(value, FieldType::List) {
            Ok(texts) => Ok(FieldValue::List(texts)),
            Err(error) => Err(error),
        },
        FieldTypeConfig::Link { .. } => match text_field(value, FieldType::Link) {
            Ok(text) => Ok(FieldValue::Link(WorkItemId::new(text))),
            Err(error) => Err(error),
        },
        FieldTypeConfig::Links { .. } => {
            let texts = match texts_field(value, FieldType::Links) {
                Ok(texts) => texts,
                Err(error) => return Err(error),
            };
            let ids = ids_from(texts);
            Ok(FieldValue::Links(ids))
        },
    }
}

fn ids_from(texts: Vec<String>) -> (r: Vec<WorkItemId>)
    ensures
        crate::model::ids_of(r@) == texts_of(texts@),
{
    let mut out: Vec<WorkItemId> = Vec::new();
    let mut i: usize = 0;
    while i < texts.len()
        invariant
            i <= texts@.len(),
            crate::model::ids_of(out@) == texts_of(texts@).take(i as int),
        decreases texts@.len() - i,
    {
        let ghost before = out@;
        let id = WorkItemId::new(texts[i].clone());
        out.push(id);
        assert(crate::model::ids_of(out@) =~= crate::model::ids_of(before).push(texts@[i as int]@));
        assert(texts_of(texts@).take(i + 1) =~= texts_of(texts@).take(i as int).push(texts@[i as int]@));
        i = i + 1;
    }
    assert(texts_of(texts@).take(texts@.len() as int) =~= texts_of(texts@));
    out
}

// ── Coercing a work item ────────────────────────────────────────────

/// The value a frontmatter sets for a field, when it sets one that is not
/// null.
pub open spec fn written(entries: Seq<(String, YamlValue)>, name: Seq<char>) -> Option<YamlValue> {
    match first_named(entries, name) {
        Some(i) => if yaml_is_null(entries[i].1) {
            None
        } else {
            Some(entries[i].1)
        },
        None => None,
    }
}

/// Whether the `k`-th schema field is typed: it is not `id` and is the
/// first field of its name.
pub open spec fn typed_field(fields: Seq<NamedField>, k: int) -> bool {
    fields[k].name@ != "id"@ && field_index(fields, fields[k].name@) == Some(k)
}

pub open spec fn item_finding(severity: Severity, path: Seq<char>, id: Seq<char>, kind: ItemKindView) -> DiagnosticView {
    DiagnosticView {
        severity,
        body: DiagnosticBodyView::Item { path, item_id: id, kind },
    }
}

/// What typing one field reports: a value that does not fit, or a
/// required field with no value (an aggregate field may still be filled
/// by the roll-up, so it is not reported here).
pub open spec fn field_report(path: Seq<char>, id: Seq<char>, entries: Seq<(String, YamlValue)>, field: NamedField) -> Seq<DiagnosticView> {
    match written(entries, field.name@) {
        Some(value) => match coerced(value, field.definition.type_config) {
            Ok(_) => Seq::empty(),
            Err(detail) => seq![item_finding(Severity::Error, path, id, ItemKindView::InvalidFieldValue { field: field.name@, detail })],
        },
        None => if field.definition.required && field.definition.aggregate is None {
            seq![item_finding(Severity::Error, path, id, ItemKindView::MissingRequired { field: field.name@ })]
        } else {
            Seq::empty()
        },
    }
}

/// The reports of the first `k` schema fields.
pub open spec fn schema_reports(path: Seq<char>, id: Seq<char>, entries: Seq<(String, YamlValue)>, fields: Seq<NamedField>, k: int) -> Seq<DiagnosticView>
    decreases k,
{
    if k <= 0 {
        Seq::empty()
    } else {
        schema_reports(path, id, entries, fields, k - 1) + if typed_field(fields, k - 1) {
            field_report(path, id, entries, fields[k - 1])
        } else {
            Seq::empty()
        }
    }
}

/// A warning for each of the first `n` frontmatter entries the schema
/// does not define.
pub open spec fn unknown_reports(path: Seq<char>, id: Seq<char>, entries: Seq<(String, YamlValue)>, fields: Seq<NamedField>, n: int) -> Seq<DiagnosticView>
    decreases n,
{
    if n <= 0 {
        Seq::empty()
    } else {
        unknown_reports(path, id, entries, fields, n - 1) + if definition_of(fields, entries[n - 1].0@) is None {
            seq![item_finding(Severity::Warning, path, id, ItemKindView::UnknownField { field: entries[n - 1].0@ })]
        } else {
            Seq::empty()
        }
    }
}

/// The typed value of field `name`: the schema defines it, it is not
/// `id`, the frontmatter sets it, and the value fits.
pub open spec fn typed_value(entries: Seq<(String, YamlValue)>, fields: Seq<NamedField>, name: Seq<char>) -> Option<FieldValueView> {
    if name == "id"@ {
        None
    } else {
        match definition_of(fields, name) {
            None => None,
            Some(definition) => match written(entries, name) {
                Some(value) => match coerced(value, definition.type_config) {
                    Ok(typed) => Some(typed),
                    Err(_) => None,
                },
                None => None,
            },
        }
    }
}

/// Whether the fields before `k` include the first field named `name`.
pub open spec fn typed_before(fields: Seq<NamedField>, k: int, name: Seq<char>) -> bool {
    name != "id"@ && (field_index(fields, name) matches Some(j) && j < k)
}

fn first_of_name(fields: &Vec<NamedField>, k: usize) -> (r: bool)
    requires
        k < fields@.len(),
    ensures
        r == (field_index(fields@, fields@[k as int].name@) == Some(k as int)),
{
    proof {
        lemma_field_index(fields@, fields@[k as int].name@);
    }
    let mut j: usize = 0;
    while j < k
        invariant
            j <= k < fields@.len(),
            forall|i: int| 0 <= i < j ==> fields@[i].name@ != fields@[k as int].name@,
        decreases k - j,
    {
        if str_eq(fields[j].name.as_str(), fields[k].name.as_str()) {
            proof {
                lemma_field_index(fields@, fields@[k as int].name@);
            }
            return false;
        }
        j = j + 1;
    }
    true
}

/// Type a work item's frontmatter against the schema. Each schema field
/// (but `id`, which the item already carries) whose value is set and not
/// null is coerced: a fitting value is kept, one that does not fit is
/// reported as an error; a required field with no value is reported as
/// an error unless it aggregates. A frontmatter field the schema does not
/// define is reported as a warning.
pub fn coerce_fields(raw: &RawWorkItem, schema: &Schema) -> (r: (FieldMap, Vec<Diagnostic>))
    ensures
        forall|name: Seq<char>| #[trigger] r.0.lookup(name) == typed_value(raw.frontmatter@, schema.fields@, name),
        crate::diagnostic::diagnostic_views(r.1@) == schema_reports(raw.source_path@, raw.id@, raw.frontmatter@, schema.fields@, schema.fields@.len() as int)
            + unknown_reports(raw.source_path@, raw.id@, raw.frontmatter@, schema.fields@, raw.frontmatter@.len() as int),
{
    let fields = &schema.fields;
    let mut map = FieldMap::new();
    let mut diagnostics: Vec<Diagnostic> = Vec::new();
    let mut k: usize = 0;
    proof {
        reveal_strlit("id");
    }
    assert forall|name: Seq<char>| #[trigger] map.lookup(name) == if typed_before(fields@, 0, name) {
        typed_value(raw.frontmatter@, fields@, name)
    } else {
        None
    } by {
        assert(!map.has(name));
        lemma_field_index(fields@, name);
    }
    while k < fields.len()
        invariant
            k <= fields@.len(),
            fields@ == schema.fields@,
            forall|name: Seq<char>| #[trigger] map.lookup(name) == if typed_before(fields@, k as int, name) {
                typed_value(raw.frontmatter@, fields@, name)
            } else {
                None
            },
            crate::diagnostic::diagnostic_views(diagnostics@) == schema_reports(raw.source_path@, raw.id@, raw.frontmatter@, fields@, k as int),
        decreases fields@.len() - k,
    {
        let field = &fields[k];
        let ghost before_map = map;
        let ghost before = diagnostics@;
        proof {
            lemma_field_index(fields@, field.name@);
        }
        if !str_eq(field.name.as_str(), "id") && first_of_name(fields, k) {
            let ghost name = field.name@;
            assert(definition_of(fields@, name) == Some(field.definition));
            match find_entry(&raw.frontmatter, field.name.as_str()) {
                Some(i) if {
                    proof {
                        crate::frontmatter::lemma_first_named(raw.frontmatter@, name);
                    }
                    !yaml_null(&raw.frontmatter[i].1)
                } => {
                    match coerce_value(&raw.frontmatter[i].1, &field.definition.type_config) {
                        Ok(value) => {
                            map.insert(field.name.clone(), value);
                        },
                        Err(detail) => {
                            let diagnostic = item_diagnostic(
                                Severity::Error,
                                raw.source_path.clone(),
                                raw.id.duplicate(),
                                ItemDiagnosticKind::InvalidFieldValue { field: field.name.clone(), detail },
                            );
                            diagnostics.push(diagnostic);
                        },
                    }
                },
                _ => {
                    if field.definition.required && field.definition.aggregate.is_none() {
                        let diagnostic = item_diagnostic(
                            Severity::Error,
                            raw.source_path.clone(),
                            raw.id.duplicate(),
                            ItemDiagnosticKind::MissingRequired { field: field.name.clone() },
                        );
                        diagnostics.push(diagnostic);
                    }
                },
            }
            proof {
                assert(typed_field(fields@, k as int));
                assert forall|other: Seq<char>| #[trigger] map.lookup(other) == if typed_before(fields@, k + 1, other) {
                    typed_value(raw.frontmatter@, fields@, other)
                } else {
                    None
                } by {
                    if other != name {
                        assert(before_map.lookup(other) == map.lookup(other));
                        lemma_field_index(fields@, other);
                    }
                }
            }
        } else {
            proof {
                assert(!typed_field(fields@, k as int));
                assert forall|other: Seq<char>| #[trigger] map.lookup(other) == if typed_before(fields@, k + 1, other) {
                    typed_value(raw.frontmatter@, fields@, other)
                } else {
                    None
                } by {
                    lemma_field_index(fields@, other);
                }
            }
        }
        proof {
            assert(crate::diagnostic::diagnostic_views(diagnostics@) =~= schema_reports(raw.source_path@, raw.id@, raw.frontmatter@, fields@, k + 1));
        }
        k = k + 1;
    }
    proof {
        assert forall|name: Seq<char>| #[trigger] map.lookup(name) == typed_value(raw.frontmatter@, fields@, name) by {
            lemma_field_index(fields@, name);
        }
    }
    let ghost reported = diagnostics@;
    let mut n: usize = 0;
    while n < raw.frontmatter.len()
        invariant
            n <= raw.frontmatter@.len(),
            fields@ == schema.fields@,
            crate::diagnostic::diagnostic_views(diagnostics@) == schema_reports(raw.source_path@, raw.id@, raw.frontmatter@, fields@, fields@.len() as int)
                + unknown_reports(raw.source_path@, raw.id@, raw.frontmatter@, fields@, n as int),
        decreases raw.frontmatter@.len() - n,
    {
        let ghost before = diagnostics@;
        let ghost entry_name = raw.frontmatter@[n as int].0@;
        let known = schema.field(raw.frontmatter[n].0.as_str());
        assert(known is None <==> definition_of(fields@, entry_name) is None);
        if known.is_none() {
            let diagnostic = item_diagnostic(
                Severity::Warning,
                raw.source_path.clone(),
                raw.id.duplicate(),
                ItemDiagnosticKind::UnknownField { field: raw.frontmatter[n].0.clone() },
            );
            diagnostics.push(diagnostic);
        }
        proof {
            let reports = schema_reports(raw.source_path@, raw.id@, raw.frontmatter@, fields@, fields@.len() as int);
            let step = if definition_of(fields@, entry_name) is None {
                seq![item_finding(Severity::Warning, raw.source_path@, raw.id@, ItemKindView::UnknownField { field: entry_name })]
            } else {
                Seq::empty()
            };
            assert(unknown_reports(raw.source_path@, raw.id@, raw.frontmatter@, fields@, n + 1) == unknown_reports(raw.source_path@, raw.id@, raw.frontmatter@, fields@, n as int) + step);
            assert(crate::diagnostic::diagnostic_views(diagnostics@) =~= crate::diagnostic::diagnostic_views(before) + step);
            assert(crate::diagnostic::diagnostic_views(diagnostics@) =~= reports
                + unknown_reports(raw.source_path@, raw.id@, raw.frontmatter@, fields@, n + 1));
        }
        n = n + 1;
    }
    (map, diagnostics)
}

// ── Laws ────────────────────────────────────────────────────────────

/// The type a field value is of.
pub open spec fn value_type(value: FieldValueView) -> FieldType {
    match value {
        FieldValueView::String(_) => FieldType::String,
        FieldValueView::Choice(_) => FieldType::Choice,
        FieldValueView::Multichoice(_) => FieldType::Multichoice,
        FieldValueView::Integer(_) => FieldType::Integer,
        FieldValueView::Float(_) => FieldType::Float,
        FieldValueView::Date(_) => FieldType::Date,
        FieldValueView::Duration(_) => FieldType::Duration,
        FieldValueView::Color(_) => FieldType::Color,
        FieldValueView::Boolean(_) => FieldType::Boolean,
        FieldValueView::List(_) => FieldType::List,
        FieldValueView::Link(_) => FieldType::Link,
        FieldValueView::Links(_) => FieldType::Links,
    }
}

/// Typing keeps to the schema: a value that fits its field is of the type
/// the field declares, and the members of a choice-like value are among
/// the field's values.
pub proof fn law_coerced_value_has_declared_type(value: YamlValue, config: FieldTypeConfig)
    ensures
        coerced(value, config) matches Ok(typed) ==> value_type(typed) == crate::schema::config_type(config)
            && match (typed, config) {
                (FieldValueView::Choice(text), FieldTypeConfig::Choice { values }) => texts_of(values@).contains(text),
                (FieldValueView::Multichoice(members), FieldTypeConfig::Multichoice { values }) => forall|k: int|
                    0 <= k < members.len() ==> texts_of(values@).contains(#[trigger] members[k]),
                _ => true,
            },
{
    if let FieldTypeConfig::Multichoice { values } = config {
        if let Ok(texts) = texts_value(value, FieldType::Multichoice) {
            lemma_not_allowed_empty(texts, texts_of(values@));
        }
    }
}

proof fn lemma_not_allowed_empty(values: Seq<Seq<char>>, allowed: Seq<Seq<char>>)
    ensures
        not_allowed(values, allowed).len() == 0 ==> forall|k: int|
            0 <= k < values.len() ==> allowed.contains(#[trigger] values[k]),
    decreases values.len(),
{
    if values.len() > 0 {
        lemma_not_allowed_empty(values.drop_last(), allowed);
        if not_allowed(values, allowed).len() == 0 {
            assert forall|k: int| 0 <= k < values.len() implies allowed.contains(#[trigger] values[k]) by {
                if k < values.len() - 1 {
                    assert(values.drop_last()[k] == values[k]);
                }
            }
        }
    }
}

} // verus!
