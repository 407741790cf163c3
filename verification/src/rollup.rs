//! Aggregate roll-up: a field with an `aggregate:` block fills items that
//! do not set it by hand from the hand-written values beneath them, walking
//! each value up its chain of `over` links (`parent` by default).
//!
//! A hand-written value climbs until it meets another hand-written value,
//! which is a chain conflict; the walk also stops at a cycle. Leaves of the
//! tree that no hand-written value covers are reported when the field asks
//! for it. Reductions that need floating point (any float input, and the
//! average or median of integers) are handed back to the caller.

use chrono::Datelike;
use vstd::prelude::*;
use vstd::relations::{sorted_by, total_ordering};

use crate::model::{
    ids_of, index_of_name, valid_date, FieldType, lemma_index_of_name, Date, DateView, FieldValue, FieldValueView,
    WorkItem, WorkItemId,
};
use crate::schema::{AggregateFunction, NamedField, Schema};
use crate::diagnostic::{
    diagnostic_views, item_diagnostic, DiagnosticBodyView, DiagnosticView, ItemDiagnosticKind,
    ItemKindView,
};
use crate::model::Severity;
use crate::order::{lists_in_id_order, positions_in_id_order};
use crate::store::{find_item, ids_unique, item_ids, sources_of, LinkView, Store};
use crate::text::str_eq;

verus! {

// ── Copies ──────────────────────────────────────────────────────────

fn copy_texts(values: &Vec<String>) -> (r: Vec<String>)
    ensures
        r@.map_values(|v: String| v@) == values@.map_values(|v: String| v@),
{
    let mut out: Vec<String> = Vec::new();
    let mut i: usize = 0;
    while i < values.len()
        invariant
            i <= values@.len(),
            out@.map_values(|v: String| v@) == values@.take(i as int).map_values(|v: String| v@),
        decreases values@.len() - i,
    {
        let ghost before = out@;
        let text = values[i].clone();
        out.push(text);
        proof {
            assert(out@ =~= before.push(text));
            assert(out@.map_values(|v: String| v@) =~= before.map_values(|v: String| v@).push(text@));
            assert(values@.take(i + 1) =~= values@.take(i as int).push(values@[i as int]));
            assert(values@.take(i + 1).map_values(|v: String| v@) =~= values@.take(i as int).map_values(
                |v: String| v@,
            ).push(values@[i as int]@));
        }
        i = i + 1;
    }
    assert(values@.take(values@.len() as int) =~= values@);
    out
}

/// A copy of a field value.
pub fn copy_value(value: &FieldValue) -> (r: FieldValue)
    ensures
        r@ == value@,
{
    match value {
        FieldValue::String(text) => FieldValue::String(text.clone()),
        FieldValue::Choice(text) => FieldValue::Choice(text.clone()),
        FieldValue::Multichoice(values) => FieldValue::Multichoice(copy_texts(values)),
        FieldValue::Integer(number) => FieldValue::Integer(*number),
        FieldValue::Float(text) => FieldValue::Float(text.clone()),
        FieldValue::Date(date) => FieldValue::Date(*date),
        FieldValue::Duration(seconds) => FieldValue::Duration(*seconds),
        FieldValue::Color(text) => FieldValue::Color(text.clone()),
        FieldValue::Boolean(flag) => FieldValue::Boolean(*flag),
        FieldValue::List(values) => FieldValue::List(copy_texts(values)),
        FieldValue::Link(id) => FieldValue::Link(id.duplicate()),
        FieldValue::Links(ids) => {
            let mut out: Vec<crate::model::WorkItemId> = Vec::new();
            let mut i: usize = 0;
            while i < ids.len()
                invariant
                    i <= ids@.len(),
                    crate::model::ids_of(out@) == crate::model::ids_of(ids@.take(i as int)),
                decreases ids@.len() - i,
            {
                let ghost before = out@;
                let id = ids[i].duplicate();
                out.push(id);
                proof {
                    assert(out@ =~= before.push(id));
                    assert(crate::model::ids_of(out@) =~= crate::model::ids_of(before).push(id@));
                    assert(ids@.take(i + 1) =~= ids@.take(i as int).push(ids@[i as int]));
                    assert(crate::model::ids_of(ids@.take(i + 1)) =~= crate::model::ids_of(
                        ids@.take(i as int),
                    ).push(ids@[i as int]@));
                }
                i = i + 1;
            }
            assert(ids@.take(ids@.len() as int) =~= ids@);
            FieldValue::Links(out)
        },
    }
}

// ── Values of one kind ──────────────────────────────────────────────

/// The integers among `values`, in order.
pub open spec fn integers(values: Seq<FieldValueView>) -> Seq<int>
    decreases values.len(),
{
    if values.len() == 0 {
        Seq::empty()
    } else {
        integers(values.drop_last()) + match values.last() {
            FieldValueView::Integer(n) => seq![n],
            _ => Seq::empty(),
        }
    }
}

/// The durations among `values`, in seconds, in order.
pub open spec fn durations(values: Seq<FieldValueView>) -> Seq<int>
    decreases values.len(),
{
    if values.len() == 0 {
        Seq::empty()
    } else {
        durations(values.drop_last()) + match values.last() {
            FieldValueView::Duration(n) => seq![n],
            _ => Seq::empty(),
        }
    }
}

/// The dates among `values`, in order.
pub open spec fn dates(values: Seq<FieldValueView>) -> Seq<DateView>
    decreases values.len(),
{
    if values.len() == 0 {
        Seq::empty()
    } else {
        dates(values.drop_last()) + match values.last() {
            FieldValueView::Date(d) => seq![d],
            _ => Seq::empty(),
        }
    }
}

/// The booleans among `values`, in order.
pub open spec fn booleans(values: Seq<FieldValueView>) -> Seq<bool>
    decreases values.len(),
{
    if values.len() == 0 {
        Seq::empty()
    } else {
        booleans(values.drop_last()) + match values.last() {
            FieldValueView::Boolean(b) => seq![b],
            _ => Seq::empty(),
        }
    }
}

/// The sum of `numbers`, wrapping around at the ends of `i64` as release
/// builds of `Iterator::sum` do.
pub open spec fn wrapping_total(numbers: Seq<int>) -> i64
    decreases numbers.len(),
{
    if numbers.len() == 0 {
        0
    } else {
        vstd::wrapping::i64_specs::wrapping_add(
            wrapping_total(numbers.drop_last()),
            numbers.last() as i64,
        )
    }
}

/// `a + b`, held at the ends of `i64`.
pub open spec fn clamp_i64(x: int) -> int {
    if x > i64::MAX {
        i64::MAX as int
    } else if x < i64::MIN {
        i64::MIN as int
    } else {
        x
    }
}

/// The sum of `numbers`, saturating at the ends of `i64` step by step.
pub open spec fn saturating_total(numbers: Seq<int>) -> int
    decreases numbers.len(),
{
    if numbers.len() == 0 {
        0
    } else {
        clamp_i64(saturating_total(numbers.drop_last()) + numbers.last())
    }
}

pub open spec fn sum_of(numbers: Seq<int>) -> int
    decreases numbers.len(),
{
    if numbers.len() == 0 {
        0
    } else {
        sum_of(numbers.drop_last()) + numbers.last()
    }
}

/// The least (`pick_min`) or greatest of non-empty `numbers`.
pub open spec fn extreme(numbers: Seq<int>, pick_min: bool) -> int
    decreases numbers.len(),
{
    if numbers.len() <= 1 {
        numbers[0]
    } else {
        let rest = extreme(numbers.drop_last(), pick_min);
        let last = numbers.last();
        if pick_min {
            if last < rest { last } else { rest }
        } else {
            if last > rest { last } else { rest }
        }
    }
}

/// The earliest (`pick_min`) or latest of non-empty `days`.
pub open spec fn extreme_date(days: Seq<DateView>, pick_min: bool) -> DateView
    decreases days.len(),
{
    if days.len() <= 1 {
        days[0]
    } else {
        let rest = extreme_date(days.drop_last(), pick_min);
        let last = days.last();
        if pick_min {
            if crate::model::date_before(last, rest) { last } else { rest }
        } else {
            if crate::model::date_before(rest, last) { last } else { rest }
        }
    }
}

/// Integer division truncating toward zero, as Rust's `/` does.
pub open spec fn div_trunc(a: int, b: int) -> int {
    if a >= 0 {
        a / b
    } else {
        -((-a) / b)
    }
}

pub open spec fn leq_i64() -> spec_fn(i64, i64) -> bool {
    |a: i64, b: i64| a <= b
}

/// The durations among `values`, in increasing order.
pub open spec fn sorted_durations(values: Seq<FieldValueView>) -> Seq<i64> {
    durations(values).map_values(|n: int| n as i64).sort_by(leq_i64())
}

/// The median of sorted `numbers`: the middle one, or the mean of the two
/// middle ones truncated toward zero.
pub open spec fn median_of(numbers: Seq<i64>) -> int {
    let n = numbers.len() as int;
    if n % 2 == 1 {
        numbers[n / 2] as int
    } else {
        div_trunc(numbers[n / 2 - 1] + numbers[n / 2], 2)
    }
}

/// The day number (days since the start of the common era) chrono assigns
/// to a date.
pub uninterp spec fn ce_day_number(date: DateView) -> int;

/// The year, month and day chrono assigns to a day number, when it has one.
pub uninterp spec fn ce_ymd(days: int) -> Option<(int, int, int)>;

/// The calendar date of a day number, when it has one.
pub open spec fn ce_date(days: int) -> Option<DateView> {
    match ce_ymd(days) {
        Some((year, month, day)) => if valid_date(year, month, day) {
            Some(DateView { year, month, day })
        } else {
            None
        },
        None => None,
    }
}

/// chrono's `Datelike::num_days_from_ce` of the date (1 January of year 1
/// is day 1). The contract claims only that the result is the day number
/// of the date.
#[verifier::external_body]
pub(crate) fn day_number(date: Date) -> (r: i32)
    ensures
        r as int == ce_day_number(date@),
{
    match chrono::NaiveDate::from_ymd_opt(date.year(), date.month(), date.day()) {
        Some(day) => day.num_days_from_ce(),
        None => 0,
    }
}

/// chrono's `NaiveDate::from_num_days_from_ce_opt`: the year, month and
/// day of the date with that day number, or none outside chrono's range.
/// The contract claims only that the result is what chrono gives.
#[verifier::external_body]
fn chrono_ymd_of_day_number(days: i32) -> (r: Option<(i32, u32, u32)>)
    ensures
        match r {
            Some((year, month, day)) => ce_ymd(days as int) == Some((year as int, month as int, day as int)),
            None => ce_ymd(days as int) is None,
        },
{
    match chrono::NaiveDate::from_num_days_from_ce_opt(days) {
        Some(day) => Some((day.year(), day.month(), day.day())),
        None => None,
    }
}

/// The date with that day number, when there is one.
pub(crate) fn date_of_day_number(days: i32) -> (r: Option<Date>)
    ensures
        match r {
            Some(date) => ce_date(days as int) == Some(date@),
            None => ce_date(days as int) is None,
        },
{
    match chrono_ymd_of_day_number(days) {
        Some((year, month, day)) => Date::from_ymd(year, month, day),
        None => None,
    }
}

/// Whether some value is an integer or a float.
pub open spec fn has_number(values: Seq<FieldValueView>) -> bool {
    exists|i: int|
        0 <= i < values.len() && (values[i] is Integer || values[i] is Float)
}

/// The outcome of reducing a list of values.
pub enum ReducedView {
    Value(FieldValueView),
    /// The reduction needs floating-point arithmetic.
    Floating,
    /// The reduction gives no value.
    Nothing,
}

pub open spec fn boolean_reduction(function: AggregateFunction, flags: Seq<bool>) -> ReducedView {
    if flags.len() == 0 {
        ReducedView::Nothing
    } else {
        let any = exists|i: int| 0 <= i < flags.len() && flags[i];
        let all = forall|i: int| 0 <= i < flags.len() ==> flags[i];
        ReducedView::Value(
            FieldValueView::Boolean(
                match function {
                    AggregateFunction::All => all,
                    AggregateFunction::Any => any,
                    _ => !any,
                },
            ),
        )
    }
}

/// What `function` makes of `values`. The first value decides which kind
/// of value is reduced; values of other kinds are left out.
pub open spec fn reduction(function: AggregateFunction, values: Seq<FieldValueView>) -> ReducedView {
    if values.len() == 0 {
        ReducedView::Nothing
    } else {
        let first = values[0];
        match function {
            AggregateFunction::Count => ReducedView::Value(
                FieldValueView::Integer(values.len() as i64 as int),
            ),
            AggregateFunction::Sum => match first {
                FieldValueView::Integer(_) => ReducedView::Value(
                    FieldValueView::Integer(wrapping_total(integers(values)) as int),
                ),
                FieldValueView::Float(_) => ReducedView::Floating,
                FieldValueView::Duration(_) => ReducedView::Value(
                    FieldValueView::Duration(saturating_total(durations(values))),
                ),
                _ => ReducedView::Nothing,
            },
            AggregateFunction::Min | AggregateFunction::Max => {
                let pick_min = function == AggregateFunction::Min;
                match first {
                    FieldValueView::Integer(_) => ReducedView::Value(
                        FieldValueView::Integer(extreme(integers(values), pick_min)),
                    ),
                    FieldValueView::Float(_) => ReducedView::Floating,
                    FieldValueView::Date(_) => ReducedView::Value(
                        FieldValueView::Date(extreme_date(dates(values), pick_min)),
                    ),
                    FieldValueView::Duration(_) => ReducedView::Value(
                        FieldValueView::Duration(extreme(durations(values), pick_min)),
                    ),
                    _ => ReducedView::Nothing,
                }
            },
            AggregateFunction::Average => match first {
                FieldValueView::Integer(_) => ReducedView::Floating,
                FieldValueView::Float(_) => ReducedView::Floating,
                FieldValueView::Date(_) => match ce_date(
                    div_trunc(
                        sum_of(dates(values).map_values(|d: DateView| ce_day_number(d))),
                        dates(values).len() as int,
                    ),
                ) {
                    Some(date) => ReducedView::Value(FieldValueView::Date(date)),
                    None => ReducedView::Nothing,
                },
                FieldValueView::Duration(_) => ReducedView::Value(
                    FieldValueView::Duration(
                        div_trunc(sum_of(durations(values)), durations(values).len() as int),
                    ),
                ),
                _ => ReducedView::Nothing,
            },
            AggregateFunction::Median => match first {
                FieldValueView::Duration(_) => ReducedView::Value(
                    FieldValueView::Duration(median_of(sorted_durations(values))),
                ),
                _ => if has_number(values) {
                    ReducedView::Floating
                } else {
                    ReducedView::Nothing
                },
            },
            _ => boolean_reduction(function, booleans(values)),
        }
    }
}

// ── Laws of the extremes ────────────────────────────────────────────

/// `m` is one of `numbers` and bounds them all: from above for the greatest
/// (`pick_min` false), from below for the least.
pub open spec fn is_extreme_of(numbers: Seq<int>, m: int, pick_min: bool) -> bool {
    &&& numbers.contains(m)
    &&& forall|i: int| 0 <= i < numbers.len() ==> if pick_min {
        m <= #[trigger] numbers[i]
    } else {
        #[trigger] numbers[i] <= m
    }
}

proof fn lemma_extreme_bounds(numbers: Seq<int>, pick_min: bool)
    requires
        numbers.len() > 0,
    ensures
        is_extreme_of(numbers, extreme(numbers, pick_min), pick_min),
    decreases numbers.len(),
{
    let m = extreme(numbers, pick_min);
    if numbers.len() == 1 {
        assert(numbers[0] == m);
    } else {
        let init = numbers.drop_last();
        lemma_extreme_bounds(init, pick_min);
        let rest = extreme(init, pick_min);
        let j = choose|j: int| 0 <= j < init.len() && init[j] == rest;
        assert forall|i: int| 0 <= i < numbers.len() implies if pick_min {
            m <= #[trigger] numbers[i]
        } else {
            #[trigger] numbers[i] <= m
        } by {
            if i < init.len() {
                assert(numbers[i] == init[i]);
            }
        }
        if m == rest {
            assert(numbers[j] == m);
        } else {
            assert(numbers[numbers.len() - 1] == m);
        }
    }
}

/// Rolling durations up with `max` gives one of them that no other exceeds,
/// and with `min` one of them that no other undercuts.
pub proof fn law_duration_extremes_are_the_largest_and_smallest(function: AggregateFunction, values: Seq<FieldValueView>)
    requires
        function == AggregateFunction::Min || function == AggregateFunction::Max,
        values.len() > 0,
        values[0] is Duration,
    ensures
        reduction(function, values) matches ReducedView::Value(FieldValueView::Duration(m)) && is_extreme_of(
            durations(values),
            m,
            function == AggregateFunction::Min,
        ),
{
    lemma_kinds_nonempty(values);
    lemma_extreme_bounds(durations(values), function == AggregateFunction::Min);
}

/// The same for integers.
pub proof fn law_integer_extremes_are_the_largest_and_smallest(function: AggregateFunction, values: Seq<FieldValueView>)
    requires
        function == AggregateFunction::Min || function == AggregateFunction::Max,
        values.len() > 0,
        values[0] is Integer,
    ensures
        reduction(function, values) matches ReducedView::Value(FieldValueView::Integer(m)) && is_extreme_of(
            integers(values),
            m,
            function == AggregateFunction::Min,
        ),
{
    lemma_kinds_nonempty(values);
    lemma_extreme_bounds(integers(values), function == AggregateFunction::Min);
}

proof fn lemma_extreme_date_member(days: Seq<DateView>, pick_min: bool)
    requires
        days.len() > 0,
    ensures
        days.contains(extreme_date(days, pick_min)),
    decreases days.len(),
{
    if days.len() == 1 {
        assert(days[0] == extreme_date(days, pick_min));
    } else {
        let init = days.drop_last();
        lemma_extreme_date_member(init, pick_min);
        let rest = extreme_date(init, pick_min);
        let j = choose|j: int| 0 <= j < init.len() && init[j] == rest;
        if extreme_date(days, pick_min) == rest {
            assert(days[j] == rest);
        } else {
            assert(days[days.len() - 1] == extreme_date(days, pick_min));
        }
    }
}

/// A date field admits exactly `min` and `max` as its aggregate, and each
/// rolls a list of dates up to one of those dates.
pub proof fn law_date_fields_roll_up_to_one_of_their_dates(function: AggregateFunction, values: Seq<FieldValueView>)
    requires
        values.len() > 0,
        values[0] is Date,
    ensures
        (crate::schema_check::allowed_aggregates(FieldType::Date) matches Some(allowed) && allowed.contains(function))
            <==> (function == AggregateFunction::Min || function == AggregateFunction::Max),
        function == AggregateFunction::Min || function == AggregateFunction::Max ==> (reduction(function, values) matches ReducedView::Value(
            FieldValueView::Date(day),
        ) && dates(values).contains(day)),
{
    let allowed = crate::schema_check::allowed_aggregates(FieldType::Date)->0;
    if function == AggregateFunction::Min {
        assert(allowed[0] == function);
    }
    if function == AggregateFunction::Max {
        assert(allowed[1] == function);
    }
    if allowed.contains(function) {
        let j = choose|j: int| 0 <= j < allowed.len() && allowed[j] == function;
    }
    lemma_kinds_nonempty(values);
    if function == AggregateFunction::Min || function == AggregateFunction::Max {
        lemma_extreme_date_member(dates(values), function == AggregateFunction::Min);
    }
}

/// `d` is one of `days` and none of them lies after it (`pick_min` false)
/// or before it.
pub open spec fn is_extreme_day(days: Seq<DateView>, d: DateView, pick_min: bool) -> bool {
    &&& days.contains(d)
    &&& forall|i: int| 0 <= i < days.len() ==> if pick_min {
        !crate::model::date_before(#[trigger] days[i], d)
    } else {
        !crate::model::date_before(d, #[trigger] days[i])
    }
}

proof fn lemma_extreme_date_bounds(days: Seq<DateView>, pick_min: bool)
    requires
        days.len() > 0,
    ensures
        is_extreme_day(days, extreme_date(days, pick_min), pick_min),
    decreases days.len(),
{
    lemma_extreme_date_member(days, pick_min);
    let m = extreme_date(days, pick_min);
    if days.len() > 1 {
        let init = days.drop_last();
        lemma_extreme_date_bounds(init, pick_min);
        assert forall|i: int| 0 <= i < days.len() implies if pick_min {
            !crate::model::date_before(#[trigger] days[i], m)
        } else {
            !crate::model::date_before(m, #[trigger] days[i])
        } by {
            if i < init.len() {
                assert(days[i] == init[i]);
            }
        }
    }
}

/// Rolling dates up with `max` gives one of them that none lies after, and
/// with `min` one of them that none lies before.
pub proof fn law_date_extremes_are_the_latest_and_earliest(function: AggregateFunction, values: Seq<FieldValueView>)
    requires
        function == AggregateFunction::Min || function == AggregateFunction::Max,
        values.len() > 0,
        values[0] is Date,
    ensures
        reduction(function, values) matches ReducedView::Value(FieldValueView::Date(d)) && is_extreme_day(
            dates(values),
            d,
            function == AggregateFunction::Min,
        ),
{
    lemma_kinds_nonempty(values);
    lemma_extreme_date_bounds(dates(values), function == AggregateFunction::Min);
}

/// Every value is of the kind a field of type `field_type` holds.
pub open spec fn all_of_type(values: Seq<FieldValueView>, field_type: FieldType) -> bool {
    forall|i: int|
        0 <= i < values.len() ==> match field_type {
            FieldType::Integer => values[i] is Integer,
            FieldType::Float => values[i] is Float,
            FieldType::Duration => values[i] is Duration,
            FieldType::Date => values[i] is Date,
            FieldType::Boolean => values[i] is Boolean,
            _ => false,
        }
}

proof fn lemma_no_booleans(values: Seq<FieldValueView>)
    requires
        forall|i: int| 0 <= i < values.len() ==> !(values[i] is Boolean),
    ensures
        booleans(values).len() == 0,
    decreases values.len(),
{
    if values.len() > 0 {
        lemma_no_booleans(values.drop_last());
        assert(!(values[values.len() - 1] is Boolean));
    }
}

proof fn lemma_only_booleans(values: Seq<FieldValueView>)
    requires
        forall|i: int| 0 <= i < values.len() ==> values[i] is Boolean,
    ensures
        booleans(values).len() == values.len(),
        forall|i: int| 0 <= i < values.len() ==> values[i] == FieldValueView::Boolean(#[trigger] booleans(values)[i]),
        !has_number(values),
    decreases values.len(),
{
    if values.len() > 0 {
        let init = values.drop_last();
        lemma_only_booleans(init);
        assert(values[values.len() - 1] is Boolean);
        assert forall|i: int| 0 <= i < values.len() implies values[i] == FieldValueView::Boolean(
            #[trigger] booleans(values)[i],
        ) by {
            if i < init.len() {
                assert(values[i] == init[i]);
                assert(booleans(values)[i] == booleans(init)[i]);
            }
        }
    }
}

/// A numeric field admits exactly the aggregate functions that reduce its
/// numbers to something (a value, or a reduction left to floating point):
/// every function but the boolean ones.
pub proof fn law_numeric_fields_admit_every_numeric_reduction(
    field_type: FieldType,
    function: AggregateFunction,
    values: Seq<FieldValueView>,
)
    requires
        field_type == FieldType::Integer || field_type == FieldType::Float || field_type == FieldType::Duration,
        values.len() > 0,
        all_of_type(values, field_type),
    ensures
        (crate::schema_check::allowed_aggregates(field_type) matches Some(allowed) && allowed.contains(function))
            <==> !(reduction(function, values) is Nothing),
{
    let allowed = crate::schema_check::allowed_aggregates(field_type)->0;
    assert(forall|i: int| 0 <= i < values.len() ==> !(#[trigger] values[i] is Boolean));
    lemma_no_booleans(values);
    assert(has_number(values) || field_type == FieldType::Duration) by {
        if field_type != FieldType::Duration {
            assert(values[0] is Integer || values[0] is Float);
        }
    }
    let listed = seq![
        AggregateFunction::Sum,
        AggregateFunction::Min,
        AggregateFunction::Max,
        AggregateFunction::Average,
        AggregateFunction::Median,
        AggregateFunction::Count,
    ];
    assert(allowed == listed);
    if function != AggregateFunction::All && function != AggregateFunction::Any && function != AggregateFunction::NoneOf {
        let j = if function == AggregateFunction::Sum {
            0int
        } else if function == AggregateFunction::Min {
            1
        } else if function == AggregateFunction::Max {
            2
        } else if function == AggregateFunction::Average {
            3
        } else if function == AggregateFunction::Median {
            4
        } else {
            5
        };
        assert(listed[j] == function);
    } else {
        if allowed.contains(function) {
            let j = choose|j: int| 0 <= j < allowed.len() && allowed[j] == function;
        }
    }
}

/// A boolean field admits exactly the aggregate functions that reduce its
/// flags to a flag, and those say whether all, some or none of them hold.
pub proof fn law_boolean_fields_reduce_to_all_any_none(function: AggregateFunction, values: Seq<FieldValueView>)
    requires
        values.len() > 0,
        all_of_type(values, FieldType::Boolean),
    ensures
        (crate::schema_check::allowed_aggregates(FieldType::Boolean) matches Some(allowed) && allowed.contains(function))
            <==> (reduction(function, values) matches ReducedView::Value(FieldValueView::Boolean(_))),
        function == AggregateFunction::All ==> reduction(function, values) == ReducedView::Value(
            FieldValueView::Boolean(forall|i: int| 0 <= i < values.len() ==> values[i] == FieldValueView::Boolean(true)),
        ),
        function == AggregateFunction::Any ==> reduction(function, values) == ReducedView::Value(
            FieldValueView::Boolean(exists|i: int| 0 <= i < values.len() && values[i] == FieldValueView::Boolean(true)),
        ),
        function == AggregateFunction::NoneOf ==> reduction(function, values) == ReducedView::Value(
            FieldValueView::Boolean(!exists|i: int| 0 <= i < values.len() && values[i] == FieldValueView::Boolean(true)),
        ),
{
    assert(forall|i: int| 0 <= i < values.len() ==> #[trigger] values[i] is Boolean);
    lemma_only_booleans(values);
    let flags = booleans(values);
    let allowed = crate::schema_check::allowed_aggregates(FieldType::Boolean)->0;
    if function == AggregateFunction::All {
        assert(allowed[0] == function);
    } else if function == AggregateFunction::Any {
        assert(allowed[1] == function);
    } else if function == AggregateFunction::NoneOf {
        assert(allowed[2] == function);
    } else if allowed.contains(function) {
        let j = choose|j: int| 0 <= j < allowed.len() && allowed[j] == function;
    }
    assert((forall|i: int| 0 <= i < flags.len() ==> flags[i]) == (forall|i: int|
        0 <= i < values.len() ==> values[i] == FieldValueView::Boolean(true))) by {
        if forall|i: int| 0 <= i < flags.len() ==> flags[i] {
            assert forall|i: int| 0 <= i < values.len() implies values[i] == FieldValueView::Boolean(true) by {
                assert(values[i] == FieldValueView::Boolean(flags[i]));
            }
        }
        if forall|i: int| 0 <= i < values.len() ==> values[i] == FieldValueView::Boolean(true) {
            assert forall|i: int| 0 <= i < flags.len() implies flags[i] by {
                assert(values[i] == FieldValueView::Boolean(flags[i]));
            }
        }
    }
    assert((exists|i: int| 0 <= i < flags.len() && flags[i]) == (exists|i: int|
        0 <= i < values.len() && values[i] == FieldValueView::Boolean(true))) by {
        if exists|i: int| 0 <= i < flags.len() && flags[i] {
            let i = choose|i: int| 0 <= i < flags.len() && flags[i];
            assert(values[i] == FieldValueView::Boolean(flags[i]));
        }
        if exists|i: int| 0 <= i < values.len() && values[i] == FieldValueView::Boolean(true) {
            let i = choose|i: int| 0 <= i < values.len() && values[i] == FieldValueView::Boolean(true);
            assert(values[i] == FieldValueView::Boolean(flags[i]));
        }
    }
}

/// Counting gives the number of values rolled up.
pub proof fn law_count_counts_the_values(values: Seq<FieldValueView>)
    requires
        0 < values.len() <= i64::MAX,
    ensures
        reduction(AggregateFunction::Count, values) == ReducedView::Value(FieldValueView::Integer(values.len() as int)),
{
}

/// Summing durations gives their total, as long as no running total leaves
/// the range of `i64`.
pub proof fn law_duration_sum_is_the_total(values: Seq<FieldValueView>)
    requires
        values.len() > 0,
        values[0] is Duration,
        forall|k: int| 0 <= k <= durations(values).len() ==> i64::MIN <= #[trigger] sum_of(durations(values).take(k)) <= i64::MAX,
    ensures
        reduction(AggregateFunction::Sum, values) == ReducedView::Value(FieldValueView::Duration(sum_of(durations(values)))),
{
    let d = durations(values);
    lemma_saturating_is_sum(d, d.len() as int);
    assert(d.take(d.len() as int) =~= d);
}

/// Summing integers gives their total, as long as every integer and every
/// running total is within `i64`.
pub proof fn law_integer_sum_is_the_total(values: Seq<FieldValueView>)
    requires
        values.len() > 0,
        values[0] is Integer,
        forall|i: int| 0 <= i < integers(values).len() ==> i64::MIN <= #[trigger] integers(values)[i] <= i64::MAX,
        forall|k: int| 0 <= k <= integers(values).len() ==> i64::MIN <= #[trigger] sum_of(integers(values).take(k)) <= i64::MAX,
    ensures
        reduction(AggregateFunction::Sum, values) == ReducedView::Value(FieldValueView::Integer(sum_of(integers(values)))),
{
    let n = integers(values);
    lemma_wrapping_is_sum(n, n.len() as int);
    assert(n.take(n.len() as int) =~= n);
}

proof fn lemma_wrapping_is_sum(numbers: Seq<int>, k: int)
    requires
        0 <= k <= numbers.len(),
        forall|i: int| 0 <= i < numbers.len() ==> i64::MIN <= #[trigger] numbers[i] <= i64::MAX,
        forall|j: int| 0 <= j <= numbers.len() ==> i64::MIN <= #[trigger] sum_of(numbers.take(j)) <= i64::MAX,
    ensures
        wrapping_total(numbers.take(k)) as int == sum_of(numbers.take(k)),
    decreases k,
{
    if k > 0 {
        lemma_wrapping_is_sum(numbers, k - 1);
        assert(numbers.take(k).drop_last() =~= numbers.take(k - 1));
        assert(numbers.take(k).last() == numbers[k - 1]);
        assert(i64::MIN <= numbers[k - 1] <= i64::MAX);
        assert(i64::MIN <= sum_of(numbers.take(k)) <= i64::MAX);
    }
}

proof fn lemma_saturating_is_sum(numbers: Seq<int>, k: int)
    requires
        0 <= k <= numbers.len(),
        forall|j: int| 0 <= j <= numbers.len() ==> i64::MIN <= #[trigger] sum_of(numbers.take(j)) <= i64::MAX,
    ensures
        saturating_total(numbers.take(k)) == sum_of(numbers.take(k)),
    decreases k,
{
    if k > 0 {
        lemma_saturating_is_sum(numbers, k - 1);
        assert(numbers.take(k).drop_last() =~= numbers.take(k - 1));
        assert(i64::MIN <= sum_of(numbers.take(k)) <= i64::MAX);
    }
}

proof fn lemma_truncated_mean_bounds(total: int, n: int, low: int, high: int)
    requires
        n > 0,
        n * low <= total <= n * high,
    ensures
        low <= div_trunc(total, n) <= high,
{
    if total >= 0 {
        vstd::arithmetic::div_mod::lemma_div_is_ordered(total, n * high, n);
        vstd::arithmetic::div_mod::lemma_div_multiples_vanish(high, n);
        assert(total / n >= 0) by {
            vstd::arithmetic::div_mod::lemma_div_is_ordered(0, total, n);
        }
        if low > 0 {
            vstd::arithmetic::div_mod::lemma_div_is_ordered(n * low, total, n);
            vstd::arithmetic::div_mod::lemma_div_multiples_vanish(low, n);
        }
    } else {
        let m = -total;
        assert(n * (-high) <= m <= n * (-low)) by (nonlinear_arith)
            requires
                n * low <= total <= n * high,
                m == -total,
        ;
        vstd::arithmetic::div_mod::lemma_div_is_ordered(m, n * (-low), n);
        vstd::arithmetic::div_mod::lemma_div_multiples_vanish(-low, n);
        assert(m / n >= 0) by {
            vstd::arithmetic::div_mod::lemma_div_is_ordered(0, m, n);
        }
        if high < 0 {
            vstd::arithmetic::div_mod::lemma_div_is_ordered(n * (-high), m, n);
            vstd::arithmetic::div_mod::lemma_div_multiples_vanish(-high, n);
        }
    }
}

/// The average of durations lies between the least and the greatest of
/// them.
pub proof fn law_duration_average_lies_between_the_extremes(values: Seq<FieldValueView>)
    requires
        values.len() > 0,
        values[0] is Duration,
    ensures
        reduction(AggregateFunction::Average, values) matches ReducedView::Value(FieldValueView::Duration(mean))
            && exists|i: int, j: int|
            0 <= i < durations(values).len() && 0 <= j < durations(values).len() && #[trigger] durations(values)[i]
                <= mean <= #[trigger] durations(values)[j],
{
    lemma_kinds_nonempty(values);
    let d = durations(values);
    lemma_extreme_bounds(d, true);
    lemma_extreme_bounds(d, false);
    let low = extreme(d, true);
    let high = extreme(d, false);
    lemma_sum_bounds(d, low, high);
    lemma_truncated_mean_bounds(sum_of(d), d.len() as int, low, high);
    let i = choose|i: int| 0 <= i < d.len() && d[i] == low;
    let j = choose|j: int| 0 <= j < d.len() && d[j] == high;
    assert(d[i] <= div_trunc(sum_of(d), d.len() as int) <= d[j]);
}

/// A type admits exactly the properties its configuration has a place
/// for: values for choices, a pattern for strings, bounds for numbers and
/// durations, the cycle policy and inverse for links, a resource for
/// strings and lists, and an aggregate exactly for the types some
/// aggregate function reduces.
pub proof fn law_admitted_properties_are_the_config_slots(config: crate::schema::FieldTypeConfig, property: crate::schema_check::Property)
    ensures
        crate::schema_check::admits(crate::schema::config_type(config), property) == match property {
            crate::schema_check::Property::Values => config is Choice || config is Multichoice,
            crate::schema_check::Property::Pattern => config is String,
            crate::schema_check::Property::Min => config is Integer || config is Float || config is Duration,
            crate::schema_check::Property::Max => config is Integer || config is Float || config is Duration,
            crate::schema_check::Property::AllowCycles => config is Link || config is Links,
            crate::schema_check::Property::Inverse => config is Link || config is Links,
            crate::schema_check::Property::Resource => config is String || config is List,
            crate::schema_check::Property::Aggregate => crate::schema_check::allowed_aggregates(crate::schema::config_type(config)) is Some,
        },
{
}

// ── Reducing ────────────────────────────────────────────────────────

pub open spec fn value_views(values: Seq<FieldValue>) -> Seq<FieldValueView> {
    values.map_values(|value: FieldValue| value@)
}

/// The outcome of reducing a list of values.
pub enum Reduction {
    Value(FieldValue),
    Floating,
    Nothing,
}

impl View for Reduction {
    type V = ReducedView;

    open spec fn view(&self) -> ReducedView {
        match self {
            Reduction::Value(value) => ReducedView::Value(value@),
            Reduction::Floating => ReducedView::Floating,
            Reduction::Nothing => ReducedView::Nothing,
        }
    }
}

pub open spec fn as_ints(numbers: Seq<i64>) -> Seq<int> {
    numbers.map_values(|n: i64| n as int)
}

fn integers_of(values: &Vec<FieldValue>) -> (r: Vec<i64>)
    ensures
        as_ints(r@) == integers(value_views(values@)),
{
    let ghost views = value_views(values@);
    let mut out: Vec<i64> = Vec::new();
    let mut i: usize = 0;
    while i < values.len()
        invariant
            i <= values@.len(),
            views == value_views(values@),
            as_ints(out@) == integers(views.take(i as int)),
        decreases values@.len() - i,
    {
        proof {
            assert(views.take(i + 1).drop_last() =~= views.take(i as int));
            assert(views.take(i + 1).last() == values@[i as int]@);
        }
        let ghost before = out@;
        if let FieldValue::Integer(n) = &values[i] {
            out.push(*n);
            assert(as_ints(out@) =~= as_ints(before).push(*n as int));
        }
        assert(as_ints(out@) =~= integers(views.take(i + 1)));
        i = i + 1;
    }
    assert(views.take(values@.len() as int) =~= views);
    out
}

fn durations_of(values: &Vec<FieldValue>) -> (r: Vec<i64>)
    ensures
        as_ints(r@) == durations(value_views(values@)),
{
    let ghost views = value_views(values@);
    let mut out: Vec<i64> = Vec::new();
    let mut i: usize = 0;
    while i < values.len()
        invariant
            i <= values@.len(),
            views == value_views(values@),
            as_ints(out@) == durations(views.take(i as int)),
        decreases values@.len() - i,
    {
        proof {
            assert(views.take(i + 1).drop_last() =~= views.take(i as int));
            assert(views.take(i + 1).last() == values@[i as int]@);
        }
        let ghost before = out@;
        if let FieldValue::Duration(n) = &values[i] {
            out.push(*n);
            assert(as_ints(out@) =~= as_ints(before).push(*n as int));
        }
        assert(as_ints(out@) =~= durations(views.take(i + 1)));
        i = i + 1;
    }
    assert(views.take(values@.len() as int) =~= views);
    out
}

pub open spec fn date_views(days: Seq<Date>) -> Seq<DateView> {
    days.map_values(|d: Date| d@)
}

fn dates_of(values: &Vec<FieldValue>) -> (r: Vec<Date>)
    ensures
        date_views(r@) == dates(value_views(values@)),
{
    let ghost views = value_views(values@);
    let mut out: Vec<Date> = Vec::new();
    let mut i: usize = 0;
    while i < values.len()
        invariant
            i <= values@.len(),
            views == value_views(values@),
            date_views(out@) == dates(views.take(i as int)),
        decreases values@.len() - i,
    {
        proof {
            assert(views.take(i + 1).drop_last() =~= views.take(i as int));
            assert(views.take(i + 1).last() == values@[i as int]@);
        }
        let ghost before = out@;
        if let FieldValue::Date(d) = &values[i] {
            out.push(*d);
            assert(date_views(out@) =~= date_views(before).push(d@));
        }
        assert(date_views(out@) =~= dates(views.take(i + 1)));
        i = i + 1;
    }
    assert(views.take(values@.len() as int) =~= views);
    out
}

fn booleans_of(values: &Vec<FieldValue>) -> (r: Vec<bool>)
    ensures
        r@ == booleans(value_views(values@)),
{
    let ghost views = value_views(values@);
    let mut out: Vec<bool> = Vec::new();
    let mut i: usize = 0;
    while i < values.len()
        invariant
            i <= values@.len(),
            views == value_views(values@),
            out@ == booleans(views.take(i as int)),
        decreases values@.len() - i,
    {
        proof {
            assert(views.take(i + 1).drop_last() =~= views.take(i as int));
            assert(views.take(i + 1).last() == values@[i as int]@);
        }
        if let FieldValue::Boolean(b) = &values[i] {
            out.push(*b);
        }
        assert(out@ =~= booleans(views.take(i + 1)));
        i = i + 1;
    }
    assert(views.take(values@.len() as int) =~= views);
    out
}

fn wrapping_sum(numbers: &Vec<i64>) -> (r: i64)
    ensures
        r == wrapping_total(as_ints(numbers@)),
{
    let ghost views = as_ints(numbers@);
    let mut total: i64 = 0;
    let mut i: usize = 0;
    while i < numbers.len()
        invariant
            i <= numbers@.len(),
            views == as_ints(numbers@),
            total == wrapping_total(views.take(i as int)),
        decreases numbers@.len() - i,
    {
        proof {
            assert(views.take(i + 1).drop_last() =~= views.take(i as int));
        }
        total = total.wrapping_add(numbers[i]);
        i = i + 1;
    }
    assert(views.take(numbers@.len() as int) =~= views);
    total
}

fn saturating_sum(numbers: &Vec<i64>) -> (r: i64)
    ensures
        r == saturating_total(as_ints(numbers@)),
{
    let ghost views = as_ints(numbers@);
    let mut total: i64 = 0;
    let mut i: usize = 0;
    while i < numbers.len()
        invariant
            i <= numbers@.len(),
            views == as_ints(numbers@),
            total == saturating_total(views.take(i as int)),
        decreases numbers@.len() - i,
    {
        proof {
            assert(views.take(i + 1).drop_last() =~= views.take(i as int));
        }
        let x = numbers[i];
        total = if x > 0 && total > i64::MAX - x {
            i64::MAX
        } else if x < 0 && total < i64::MIN - x {
            i64::MIN
        } else {
            total + x
        };
        i = i + 1;
    }
    assert(views.take(numbers@.len() as int) =~= views);
    total
}

/// The least or greatest of non-empty `numbers`.
fn extreme_of(numbers: &Vec<i64>, pick_min: bool) -> (r: i64)
    requires
        numbers@.len() > 0,
    ensures
        r == extreme(as_ints(numbers@), pick_min),
{
    let ghost views = as_ints(numbers@);
    let mut best = numbers[0];
    let mut i: usize = 1;
    assert(views.take(1).len() == 1);
    while i < numbers.len()
        invariant
            1 <= i <= numbers@.len(),
            views == as_ints(numbers@),
            best == extreme(views.take(i as int), pick_min),
        decreases numbers@.len() - i,
    {
        proof {
            assert(views.take(i + 1).drop_last() =~= views.take(i as int));
        }
        let x = numbers[i];
        if pick_min {
            if x < best {
                best = x;
            }
        } else {
            if x > best {
                best = x;
            }
        }
        i = i + 1;
    }
    assert(views.take(numbers@.len() as int) =~= views);
    best
}

/// The earliest or latest of non-empty `days`.
fn extreme_date_of(days: &Vec<Date>, pick_min: bool) -> (r: Date)
    requires
        days@.len() > 0,
    ensures
        r@ == extreme_date(date_views(days@), pick_min),
{
    let ghost views = date_views(days@);
    let mut best = days[0];
    let mut i: usize = 1;
    assert(views.take(1).len() == 1);
    while i < days.len()
        invariant
            1 <= i <= days@.len(),
            views == date_views(days@),
            best@ == extreme_date(views.take(i as int), pick_min),
        decreases days@.len() - i,
    {
        proof {
            assert(views.take(i + 1).drop_last() =~= views.take(i as int));
        }
        let day = days[i];
        if pick_min {
            if day.is_before(&best) {
                best = day;
            }
        } else {
            if best.is_before(&day) {
                best = day;
            }
        }
        i = i + 1;
    }
    assert(views.take(days@.len() as int) =~= views);
    best
}

/// The exact sum of `numbers`, which `i128` always holds.
fn exact_sum(numbers: &Vec<i64>) -> (r: i128)
    ensures
        r == sum_of(as_ints(numbers@)),
        numbers@.len() * i64::MIN <= r <= numbers@.len() * i64::MAX,
{
    let ghost views = as_ints(numbers@);
    let count = numbers.len();
    let mut total: i128 = 0;
    let mut i: usize = 0;
    while i < numbers.len()
        invariant
            i <= numbers@.len(),
            count == numbers@.len(),
            views == as_ints(numbers@),
            total == sum_of(views.take(i as int)),
            i * i64::MIN <= total <= i * i64::MAX,
        decreases numbers@.len() - i,
    {
        proof {
            assert(views.take(i + 1).drop_last() =~= views.take(i as int));
            assert((i + 1) * i64::MIN == i * i64::MIN + i64::MIN) by (nonlinear_arith);
            assert((i + 1) * i64::MAX == i * i64::MAX + i64::MAX) by (nonlinear_arith);
            assert(i * i64::MAX <= usize::MAX * i64::MAX) by (nonlinear_arith)
                requires
                    0 <= i <= usize::MAX,
            ;
            assert(i * i64::MIN >= usize::MAX * i64::MIN) by (nonlinear_arith)
                requires
                    0 <= i <= usize::MAX,
            ;
        }
        total = total + numbers[i] as i128;
        i = i + 1;
    }
    assert(views.take(numbers@.len() as int) =~= views);
    total
}

proof fn lemma_mean_bounds(total: int, n: int, lo: int, hi: int)
    requires
        n > 0,
        lo <= 0 <= hi,
        n * lo <= total <= n * hi,
    ensures
        lo <= div_trunc(total, n) <= hi,
{
    if total >= 0 {
        assert(total / n <= hi) by (nonlinear_arith)
            requires
                n > 0,
                0 <= total <= n * hi,
        ;
        assert(total / n >= 0) by (nonlinear_arith)
            requires
                n > 0,
                0 <= total,
        ;
    } else {
        assert(n * (-lo) == -(n * lo)) by (nonlinear_arith);
        assert((-total) / n <= -lo) by (nonlinear_arith)
            requires
                n > 0,
                0 < -total <= n * (-lo),
        ;
        assert((-total) / n >= 0) by (nonlinear_arith)
            requires
                n > 0,
                0 <= -total,
        ;
    }
}

proof fn lemma_sum_bounds(numbers: Seq<int>, lo: int, hi: int)
    requires
        forall|k: int| 0 <= k < numbers.len() ==> lo <= #[trigger] numbers[k] <= hi,
    ensures
        numbers.len() * lo <= sum_of(numbers) <= numbers.len() * hi,
    decreases numbers.len(),
{
    if numbers.len() > 0 {
        let init = numbers.drop_last();
        assert forall|k: int| 0 <= k < init.len() implies lo <= #[trigger] init[k] <= hi by {
            assert(init[k] == numbers[k]);
        }
        lemma_sum_bounds(init, lo, hi);
        assert(numbers.len() * lo == init.len() * lo + lo) by (nonlinear_arith)
            requires
                numbers.len() == init.len() + 1,
        ;
        assert(numbers.len() * hi == init.len() * hi + hi) by (nonlinear_arith)
            requires
                numbers.len() == init.len() + 1,
        ;
    }
}

/// `total / n`, truncating toward zero.
fn mean_of(total: i128, n: usize) -> (r: i64)
    requires
        n > 0,
        n * i64::MIN <= total <= n * i64::MAX,
    ensures
        r == div_trunc(total as int, n as int),
{
    proof {
        lemma_mean_bounds(total as int, n as int, i64::MIN as int, i64::MAX as int);
    }
    let divisor = n as i128;
    let q: i128 = if total >= 0 {
        total / divisor
    } else {
        -((-total) / divisor)
    };
    q as i64
}

proof fn lemma_leq_total()
    ensures
        total_ordering(leq_i64()),
{
}

/// `numbers` in increasing order.
fn sort_numbers(numbers: &Vec<i64>) -> (r: Vec<i64>)
    ensures
        r@.to_multiset() == numbers@.to_multiset(),
        sorted_by(r@, leq_i64()),
{
    broadcast use vstd::seq_lib::group_to_multiset_ensures;

    let mut out: Vec<i64> = Vec::new();
    let mut i: usize = 0;
    while i < numbers.len()
        invariant
            i <= numbers@.len(),
            out@.to_multiset() == numbers@.take(i as int).to_multiset(),
            sorted_by(out@, leq_i64()),
        decreases numbers@.len() - i,
    {
        let x = numbers[i];
        let mut j: usize = 0;
        while j < out.len() && out[j] <= x
            invariant
                j <= out@.len(),
                forall|k: int| 0 <= k < j ==> out@[k] <= x,
            decreases out@.len() - j,
        {
            j = j + 1;
        }
        let ghost before = out@;
        out.insert(j, x);
        proof {
            assert(out@ =~= before.insert(j as int, x));
            assert(numbers@.take(i + 1) =~= numbers@.take(i as int).push(x));
            vstd::seq_lib::to_multiset_insert(before, j as int, x);
            vstd::seq_lib::to_multiset_build(numbers@.take(i as int), x);
            assert forall|a: int, b: int| 0 <= a < b < out@.len() implies #[trigger] (leq_i64())(
                out@[a],
                out@[b],
            ) by {
                if b < j {
                    assert((leq_i64())(before[a], before[b]));
                } else if b == j {
                    assert(before[a] <= x);
                } else if a == j {
                    assert(j < before.len());
                    assert(!(before[j as int] <= x));
                    if b - 1 > j {
                        assert((leq_i64())(before[j as int], before[b - 1]));
                    }
                } else if a < j {
                    assert(before[a] <= x);
                    assert(!(before[j as int] <= x));
                    if b - 1 > j {
                        assert((leq_i64())(before[j as int], before[b - 1]));
                    }
                } else {
                    assert((leq_i64())(before[a - 1], before[b - 1]));
                }
            }
        }
        i = i + 1;
    }
    assert(numbers@.take(numbers@.len() as int) =~= numbers@);
    out
}

/// The median of `numbers` (non-empty): the middle one, or the mean of the
/// two middle ones truncated toward zero.
fn median_seconds(numbers: &Vec<i64>) -> (r: i64)
    requires
        numbers@.len() > 0,
    ensures
        r == median_of(numbers@.sort_by(leq_i64())),
{
    let sorted = sort_numbers(numbers);
    proof {
        lemma_leq_total();
        numbers@.lemma_sort_by_ensures(leq_i64());
        vstd::seq_lib::lemma_sorted_unique(sorted@, numbers@.sort_by(leq_i64()), leq_i64());
        assert(sorted@.len() == numbers@.len()) by {
            vstd::seq_lib::to_multiset_len(sorted@);
            vstd::seq_lib::to_multiset_len(numbers@);
        }
    }
    let n = sorted.len();
    if n % 2 == 1 {
        sorted[n / 2]
    } else {
        let low = sorted[n / 2 - 1] as i128;
        let high = sorted[n / 2] as i128;
        let total = low + high;
        mean_of(total, 2)
    }
}

fn day_numbers(days: &Vec<Date>) -> (r: Vec<i64>)
    ensures
        as_ints(r@) == date_views(days@).map_values(|d: DateView| ce_day_number(d)),
        forall|k: int| 0 <= k < r@.len() ==> i32::MIN <= #[trigger] r@[k] <= i32::MAX,
{
    let ghost expected = date_views(days@).map_values(|d: DateView| ce_day_number(d));
    let mut out: Vec<i64> = Vec::new();
    let mut i: usize = 0;
    while i < days.len()
        invariant
            i <= days@.len(),
            expected == date_views(days@).map_values(|d: DateView| ce_day_number(d)),
            as_ints(out@) == expected.take(i as int),
            forall|k: int| 0 <= k < out@.len() ==> i32::MIN <= #[trigger] out@[k] <= i32::MAX,
        decreases days@.len() - i,
    {
        let number = day_number(days[i]);
        let ghost before = out@;
        out.push(number as i64);
        proof {
            assert(as_ints(out@) =~= as_ints(before).push(number as int));
            assert(expected.take(i + 1) =~= expected.take(i as int).push(expected[i as int]));
        }
        i = i + 1;
    }
    assert(expected.take(days@.len() as int) =~= expected);
    out
}

proof fn lemma_kind_lengths(values: Seq<FieldValueView>)
    ensures
        integers(values).len() <= values.len(),
        durations(values).len() <= values.len(),
        dates(values).len() <= values.len(),
    decreases values.len(),
{
    if values.len() > 0 {
        lemma_kind_lengths(values.drop_last());
    }
}

proof fn lemma_kinds_nonempty(values: Seq<FieldValueView>)
    requires
        values.len() > 0,
    ensures
        values[0] is Integer ==> integers(values).len() > 0,
        values[0] is Duration ==> durations(values).len() > 0,
        values[0] is Date ==> dates(values).len() > 0,
        integers(values).len() <= values.len(),
        durations(values).len() <= values.len(),
        dates(values).len() <= values.len(),
    decreases values.len(),
{
    lemma_kind_lengths(values);
    if values.len() > 1 {
        lemma_kinds_nonempty(values.drop_last());
        assert(values.drop_last()[0] == values[0]);
    } else {
        assert(values.drop_last().len() == 0);
    }
}

proof fn lemma_has_number(values: Seq<FieldValueView>)
    ensures
        has_number(values) <==> (integers(values).len() > 0 || exists|i: int|
            0 <= i < values.len() && values[i] is Float),
    decreases values.len(),
{
    if values.len() > 0 {
        lemma_has_number(values.drop_last());
        let init = values.drop_last();
        assert forall|i: int| 0 <= i < init.len() implies init[i] == values[i] by {}
        if has_number(values) {
            let i = choose|i: int| 0 <= i < values.len() && (values[i] is Integer || values[i] is Float);
            if i < values.len() - 1 {
                assert(init[i] == values[i]);
            }
        }
    }
}

/// Reduce `values` with `function`: the first value decides which kind of
/// value is reduced.
pub fn apply_aggregate(function: AggregateFunction, values: &Vec<FieldValue>) -> (r: Reduction)
    ensures
        r@ == reduction(function, value_views(values@)),
{
    let ghost views = value_views(values@);
    if values.len() == 0 {
        return Reduction::Nothing;
    }
    proof {
        lemma_kinds_nonempty(views);
        assert(views[0] == values@[0]@);
    }
    match function {
        AggregateFunction::Count => Reduction::Value(FieldValue::Integer(values.len() as i64)),
        AggregateFunction::Sum => match &values[0] {
            FieldValue::Integer(_) => {
                let numbers = integers_of(values);
                Reduction::Value(FieldValue::Integer(wrapping_sum(&numbers)))
            },
            FieldValue::Float(_) => Reduction::Floating,
            FieldValue::Duration(_) => {
                let numbers = durations_of(values);
                Reduction::Value(FieldValue::Duration(saturating_sum(&numbers)))
            },
            _ => Reduction::Nothing,
        },
        AggregateFunction::Min | AggregateFunction::Max => {
            let pick_min = function == AggregateFunction::Min;
            match &values[0] {
                FieldValue::Integer(_) => {
                    let numbers = integers_of(values);
                    Reduction::Value(FieldValue::Integer(extreme_of(&numbers, pick_min)))
                },
                FieldValue::Float(_) => Reduction::Floating,
                FieldValue::Date(_) => {
                    let days = dates_of(values);
                    Reduction::Value(FieldValue::Date(extreme_date_of(&days, pick_min)))
                },
                FieldValue::Duration(_) => {
                    let numbers = durations_of(values);
                    Reduction::Value(FieldValue::Duration(extreme_of(&numbers, pick_min)))
                },
                _ => Reduction::Nothing,
            }
        },
        AggregateFunction::Average => match &values[0] {
            FieldValue::Integer(_) => Reduction::Floating,
            FieldValue::Float(_) => Reduction::Floating,
            FieldValue::Date(_) => {
                let days = dates_of(values);
                let numbers = day_numbers(&days);
                let total = exact_sum(&numbers);
                let mean = mean_of(total, numbers.len());
                proof {
                    let ints = as_ints(numbers@);
                    assert forall|k: int| 0 <= k < ints.len() implies i32::MIN <= #[trigger] ints[k]
                        <= i32::MAX by {
                        assert(ints[k] == numbers@[k] as int);
                    }
                    lemma_sum_bounds(ints, i32::MIN as int, i32::MAX as int);
                    lemma_mean_bounds(total as int, numbers@.len() as int, i32::MIN as int, i32::MAX as int);
                }
                match date_of_day_number(mean as i32) {
                    Some(date) => Reduction::Value(FieldValue::Date(date)),
                    None => Reduction::Nothing,
                }
            },
            FieldValue::Duration(_) => {
                let numbers = durations_of(values);
                let total = exact_sum(&numbers);
                Reduction::Value(FieldValue::Duration(mean_of(total, numbers.len())))
            },
            _ => Reduction::Nothing,
        },
        AggregateFunction::Median => match &values[0] {
            FieldValue::Duration(_) => {
                let numbers = durations_of(values);
                proof {
                    assert(numbers@.map_values(|n: i64| n as int).map_values(|n: int| n as i64) =~= numbers@);
                }
                Reduction::Value(FieldValue::Duration(median_seconds(&numbers)))
            },
            _ => {
                proof {
                    lemma_has_number(views);
                }
                let numbers = integers_of(values);
                let mut float_seen = false;
                let mut i: usize = 0;
                while i < values.len()
                    invariant
                        i <= values@.len(),
                        views == value_views(values@),
                        float_seen <==> exists|k: int| 0 <= k < i && views[k] is Float,
                    decreases values@.len() - i,
                {
                    if let FieldValue::Float(_) = &values[i] {
                        assert(views[i as int] is Float);
                        float_seen = true;
                    }
                    i = i + 1;
                }
                if numbers.len() > 0 || float_seen {
                    Reduction::Floating
                } else {
                    Reduction::Nothing
                }
            },
        },
        _ => {
            let flags = booleans_of(values);
            if flags.len() == 0 {
                return Reduction::Nothing;
            }
            let mut any = false;
            let mut all = true;
            let mut i: usize = 0;
            while i < flags.len()
                invariant
                    i <= flags@.len(),
                    any <==> exists|k: int| 0 <= k < i && flags@[k],
                    all <==> forall|k: int| 0 <= k < i ==> flags@[k],
                decreases flags@.len() - i,
            {
                if flags[i] {
                    any = true;
                } else {
                    all = false;
                }
                i = i + 1;
            }
            let result = match function {
                AggregateFunction::All => all,
                AggregateFunction::Any => any,
                _ => !any,
            };
            Reduction::Value(FieldValue::Boolean(result))
        },
    }
}

// ── Walking up the tree ─────────────────────────────────────────────

/// The item `id` links to through its `over` field, when `id` is an item
/// whose `over` field holds a single link.
pub open spec fn parent_of(items: Seq<WorkItem>, id: Seq<char>, over: Seq<char>) -> Option<Seq<char>> {
    match index_of_name(item_ids(items), id) {
        Some(i) => match items[i].fields.lookup(over) {
            Some(FieldValueView::Link(target)) => Some(target),
            _ => None,
        },
        None => None,
    }
}

/// The ancestors above `node`, each once: the walk stops where a link is
/// missing or comes back to an id already visited.
pub open spec fn chain_from(items: Seq<WorkItem>, over: Seq<char>, node: Seq<char>, visited: Seq<Seq<char>>, fuel: nat) -> Seq<Seq<char>>
    decreases fuel,
{
    if fuel == 0 {
        Seq::empty()
    } else {
        match parent_of(items, node, over) {
            None => Seq::empty(),
            Some(parent) => if visited.contains(parent) {
                Seq::empty()
            } else {
                seq![parent] + chain_from(items, over, parent, visited.push(parent), (fuel - 1) as nat)
            },
        }
    }
}

/// The ancestors of the item `start` through `over`, nearest first. The
/// ids on the walk are distinct, differ from `start`, and all but the last
/// name items, so the walk never needs more steps than there are items.
pub open spec fn chain(items: Seq<WorkItem>, over: Seq<char>, start: Seq<char>) -> Seq<Seq<char>> {
    chain_from(items, over, start, seq![start], items.len() as nat)
}

/// Whether `id` is an item that sets the field `name` itself.
pub open spec fn is_manual(items: Seq<WorkItem>, name: Seq<char>, id: Seq<char>) -> bool {
    match index_of_name(item_ids(items), id) {
        Some(i) => items[i].fields.has(name),
        None => false,
    }
}

/// The position of the first id in `ids` that sets `name` itself.
pub open spec fn manual_stop(items: Seq<WorkItem>, name: Seq<char>, ids: Seq<Seq<char>>) -> Option<int>
    decreases ids.len(),
{
    if ids.len() == 0 {
        None
    } else if is_manual(items, name, ids[0]) {
        Some(0)
    } else {
        match manual_stop(items, name, ids.drop_first()) {
            Some(j) => Some(j + 1),
            None => None,
        }
    }
}

/// The ancestors a hand-written value at `start` rolls up into: the chain
/// up to, not including, the first ancestor with its own value.
pub open spec fn climb(items: Seq<WorkItem>, name: Seq<char>, over: Seq<char>, start: Seq<char>) -> Seq<Seq<char>> {
    let ancestors = chain(items, over, start);
    match manual_stop(items, name, ancestors) {
        Some(j) => ancestors.take(j),
        None => ancestors,
    }
}

/// The first ancestor of `start` with its own value, which conflicts with
/// `start`'s.
pub open spec fn conflict_of(items: Seq<WorkItem>, name: Seq<char>, over: Seq<char>, start: Seq<char>) -> Option<Seq<char>> {
    let ancestors = chain(items, over, start);
    match manual_stop(items, name, ancestors) {
        Some(j) => Some(ancestors[j]),
        None => None,
    }
}

proof fn lemma_manual_stop_after(items: Seq<WorkItem>, name: Seq<char>, walked: Seq<Seq<char>>, rest: Seq<Seq<char>>)
    requires
        forall|k: int| 0 <= k < walked.len() ==> !is_manual(items, name, #[trigger] walked[k]),
    ensures
        manual_stop(items, name, walked + rest) == match manual_stop(items, name, rest) {
            Some(j) => Some(j + walked.len()),
            None => None::<int>,
        },
    decreases walked.len(),
{
    if walked.len() > 0 {
        let tail = walked.drop_first();
        assert forall|k: int| 0 <= k < tail.len() implies !is_manual(items, name, #[trigger] tail[k]) by {
            assert(tail[k] == walked[k + 1]);
        }
        lemma_manual_stop_after(items, name, tail, rest);
        assert((walked + rest).drop_first() =~= tail + rest);
        assert((walked + rest)[0] == walked[0]);
    } else {
        assert(walked + rest =~= rest);
    }
}

/// The id `id` links to through its `over` field.
fn parent_exec(items: &Vec<WorkItem>, id: &str, over: &str) -> (r: Option<WorkItemId>)
    ensures
        match r {
            Some(parent) => parent_of(items@, id@, over@) == Some(parent@),
            None => parent_of(items@, id@, over@) is None,
        },
{
    match find_item(items, id) {
        Some(i) => match items[i].fields.get(over) {
            Some(FieldValue::Link(target)) => Some(target.duplicate()),
            _ => None,
        },
        None => None,
    }
}

/// Whether `id` is an item that sets `name` itself.
fn is_manual_exec(items: &Vec<WorkItem>, name: &str, id: &str) -> (r: bool)
    ensures
        r == is_manual(items@, name@, id@),
{
    match find_item(items, id) {
        Some(i) => items[i].fields.contains_key(name),
        None => false,
    }
}

fn contains_id(ids: &Vec<WorkItemId>, id: &str) -> (r: bool)
    ensures
        r == ids_of(ids@).contains(id@),
{
    let mut i: usize = 0;
    while i < ids.len()
        invariant
            i <= ids@.len(),
            forall|k: int| 0 <= k < i ==> ids@[k]@ != id@,
        decreases ids@.len() - i,
    {
        if str_eq(ids[i].as_str(), id) {
            assert(ids_of(ids@)[i as int] == id@);
            return true;
        }
        i = i + 1;
    }
    assert forall|k: int| 0 <= k < ids_of(ids@).len() implies ids_of(ids@)[k] != id@ by {
        assert(ids_of(ids@)[k] == ids@[k]@);
    }
    false
}

/// Walk up from the item at `start`: the ancestors its value rolls into,
/// and the ancestor with its own value that stops the walk, if any.
fn walk_up(items: &Vec<WorkItem>, name: &str, over: &str, start: usize) -> (r: (Vec<WorkItemId>, Option<WorkItemId>))
    requires
        start < items@.len(),
    ensures
        ids_of(r.0@) == climb(items@, name@, over@, items@[start as int].id@),
        match r.1 {
            Some(id) => conflict_of(items@, name@, over@, items@[start as int].id@) == Some(id@),
            None => conflict_of(items@, name@, over@, items@[start as int].id@) is None,
        },
{
    let ghost start_id = items@[start as int].id@;
    let ghost ancestors = chain(items@, over@, start_id);
    let n = items.len();
    let mut visited: Vec<WorkItemId> = Vec::new();
    visited.push(items[start].id.duplicate());
    let mut walked: Vec<WorkItemId> = Vec::new();
    let mut current = parent_exec(items, items[start].id.as_str(), over);
    let mut steps: usize = 0;
    let mut conflict: Option<WorkItemId> = None;
    proof {
        assert(ids_of(visited@) =~= seq![start_id]);
        assert(ancestors =~= ids_of(walked@) + chain_from(items@, over@, start_id, ids_of(visited@), n as nat));
    }
    loop
        invariant_except_break
            conflict is None,
        invariant
            n == items@.len(),
            start < n,
            start_id == items@[start as int].id@,
            ancestors == chain(items@, over@, start_id),
            steps == walked@.len(),
            steps <= n,
            visited@.len() == steps + 1,
            ids_of(visited@) == seq![start_id] + ids_of(walked@),
            ancestors == ids_of(walked@) + chain_from(
                items@,
                over@,
                ids_of(visited@).last(),
                ids_of(visited@),
                (n - steps) as nat,
            ),
            match current {
                Some(parent) => parent_of(items@, ids_of(visited@).last(), over@) == Some(parent@),
                None => parent_of(items@, ids_of(visited@).last(), over@) is None,
            },
            forall|k: int| 0 <= k < walked@.len() ==> !is_manual(items@, name@, #[trigger] ids_of(walked@)[k]),
        ensures
            forall|k: int| 0 <= k < walked@.len() ==> !is_manual(items@, name@, #[trigger] ids_of(walked@)[k]),
            match conflict {
                Some(id) => {
                    &&& is_manual(items@, name@, id@)
                    &&& ancestors.len() > walked@.len()
                    &&& ancestors.take(walked@.len() as int) == ids_of(walked@)
                    &&& ancestors[walked@.len() as int] == id@
                },
                None => ancestors == ids_of(walked@),
            },
        decreases n - steps,
    {
        let ghost last = ids_of(visited@).last();
        let ghost fuel = (n - steps) as nat;
        if steps >= n {
            proof {
                assert(fuel == 0);
                assert(ancestors =~= ids_of(walked@));
            }
            break;
        }
        let parent = match current {
            None => {
                proof {
                    assert(chain_from(items@, over@, last, ids_of(visited@), fuel) =~= Seq::<Seq<char>>::empty());
                    assert(ancestors =~= ids_of(walked@));
                }
                break;
            },
            Some(parent) => parent,
        };
        if contains_id(&visited, parent.as_str()) {
            proof {
                assert(ancestors =~= ids_of(walked@));
            }
            break;
        }
        let ghost rest = chain_from(items@, over@, parent@, ids_of(visited@).push(parent@), (fuel - 1) as nat);
        proof {
            assert(chain_from(items@, over@, last, ids_of(visited@), fuel) == seq![parent@] + rest);
            assert(ancestors =~= ids_of(walked@) + (seq![parent@] + rest));
        }
        if is_manual_exec(items, name, parent.as_str()) {
            proof {
                assert(ancestors.take(walked@.len() as int) =~= ids_of(walked@));
                assert(ancestors[walked@.len() as int] == parent@);
            }
            conflict = Some(parent);
            break;
        }
        let ghost walked_before = walked@;
        let ghost visited_before = visited@;
        walked.push(parent.duplicate());
        visited.push(parent.duplicate());
        current = parent_exec(items, parent.as_str(), over);
        steps = steps + 1;
        proof {
            assert(ids_of(walked@) =~= ids_of(walked_before).push(parent@));
            assert(ids_of(visited@) =~= ids_of(visited_before).push(parent@));
            assert(ids_of(visited@).last() == parent@);
            assert(ancestors =~= ids_of(walked@) + rest);
            assert forall|k: int| 0 <= k < walked@.len() implies !is_manual(items@, name@, #[trigger] ids_of(walked@)[k]) by {
                if k < walked_before.len() {
                    assert(ids_of(walked@)[k] == ids_of(walked_before)[k]);
                }
            }
        }
    }
    proof {
        let w = ids_of(walked@);
        let rest = ancestors.skip(w.len() as int);
        match &conflict {
            Some(id) => {
                assert(ancestors =~= w + rest);
                assert(rest[0] == id@);
                assert(manual_stop(items@, name@, rest) == Some(0int));
                lemma_manual_stop_after(items@, name@, w, rest);
            },
            None => {
                assert(w + Seq::<Seq<char>>::empty() =~= ancestors);
                lemma_manual_stop_after(items@, name@, w, Seq::<Seq<char>>::empty());
            },
        }
    }
    (walked, conflict)
}

// ── One aggregate field ─────────────────────────────────────────────

/// An aggregate field of the schema, as the roll-up needs it.
#[derive(Debug, Clone)]
pub struct AggregateFieldSpec {
    pub name: String,
    pub function: AggregateFunction,
    /// The link field walked upward.
    pub over: String,
    pub error_on_missing: bool,
}

/// A reduction that needs floating-point arithmetic, handed back to the
/// caller: reduce `values` with `function` and set `field` on `item_id`.
#[derive(Debug, Clone)]
pub struct FloatRollup {
    pub item_id: WorkItemId,
    pub field: String,
    pub function: AggregateFunction,
    pub values: Vec<FieldValue>,
}

/// Which items set the field `name` themselves.
pub open spec fn manual_flags(items: Seq<WorkItem>, name: Seq<char>) -> Seq<bool> {
    Seq::new(items.len(), |i: int| items[i].fields.has(name))
}

/// The (ancestor, value) pairs the first `k` hand-written values (in
/// `order`) contribute.
pub open spec fn contributions(items: Seq<WorkItem>, name: Seq<char>, over: Seq<char>, order: Seq<usize>, k: int) -> Seq<(Seq<char>, FieldValueView)>
    decreases k,
{
    if k <= 0 {
        Seq::empty()
    } else {
        let source = items[order[k - 1] as int];
        let value = source.fields.lookup(name)->0;
        contributions(items, name, over, order, k - 1) + climb(items, name, over, source.id@).map_values(
            |ancestor: Seq<char>| (ancestor, value),
        )
    }
}

/// The values contributed to `target`, in order.
pub open spec fn gathered(pairs: Seq<(Seq<char>, FieldValueView)>, target: Seq<char>) -> Seq<FieldValueView>
    decreases pairs.len(),
{
    if pairs.len() == 0 {
        Seq::empty()
    } else {
        gathered(pairs.drop_last(), target) + if pairs.last().0 == target {
            seq![pairs.last().1]
        } else {
            Seq::empty()
        }
    }
}

pub open spec fn conflict_view(item: WorkItem, field: Seq<char>, ancestor: Seq<char>) -> DiagnosticView {
    DiagnosticView {
        severity: Severity::Error,
        body: DiagnosticBodyView::Item {
            path: item.source_path@,
            item_id: item.id@,
            kind: ItemKindView::AggregateChainConflict { field, conflicting_ancestor_id: ancestor },
        },
    }
}

/// The chain conflicts of the first `k` hand-written values, in `order`.
pub open spec fn conflicts(items: Seq<WorkItem>, name: Seq<char>, over: Seq<char>, order: Seq<usize>, k: int) -> Seq<DiagnosticView>
    decreases k,
{
    if k <= 0 {
        Seq::empty()
    } else {
        let source = items[order[k - 1] as int];
        conflicts(items, name, over, order, k - 1) + match conflict_of(items, name, over, source.id@) {
            Some(ancestor) => seq![conflict_view(source, name, ancestor)],
            None => Seq::empty(),
        }
    }
}

pub open spec fn pair_views(pairs: Seq<(WorkItemId, FieldValue)>) -> Seq<(Seq<char>, FieldValueView)> {
    pairs.map_values(|pair: (WorkItemId, FieldValue)| (pair.0@, pair.1@))
}

impl Store {
    /// Walk every hand-written value of the field up its chain: collect what
    /// each ancestor receives, in id order of the sources, and report each
    /// chain conflict.
    fn gather(&self, spec: &AggregateFieldSpec) -> (r: (Vec<(WorkItemId, FieldValue)>, Vec<crate::diagnostic::Diagnostic>))
        requires
            ids_unique(self@.items),
        ensures
            exists|order: Seq<usize>| {
                &&& lists_in_id_order(item_ids(self@.items), manual_flags(self@.items, spec.name@), order)
                &&& pair_views(r.0@) == contributions(self@.items, spec.name@, spec.over@, order, order.len() as int)
                &&& diagnostic_views(r.1@) == conflicts(self@.items, spec.name@, spec.over@, order, order.len() as int)
            },
    {
        proof {
            self.lemma_view();
        }
        let items = &self.items;
        let n = items.len();
        let mut ids: Vec<WorkItemId> = Vec::new();
        let mut flags: Vec<bool> = Vec::new();
        let mut i: usize = 0;
        while i < n
            invariant
                n == items@.len(),
                i <= n,
                ids@.len() == i,
                flags@.len() == i,
                forall|k: int| 0 <= k < i ==> (#[trigger] ids@[k])@ == items@[k].id@,
                forall|k: int| 0 <= k < i ==> #[trigger] flags@[k] == items@[k].fields.has(spec.name@),
            decreases n - i,
        {
            ids.push(items[i].id.duplicate());
            flags.push(items[i].fields.contains_key(spec.name.as_str()));
            i = i + 1;
        }
        proof {
            assert(crate::order::id_views(ids@) =~= item_ids(items@));
            assert(flags@ =~= manual_flags(items@, spec.name@));
            assert(crate::order::distinct_ids(item_ids(items@))) by {
                assert forall|a: int, b: int| 0 <= a < n && 0 <= b < n && a != b implies item_ids(items@)[a]
                    != item_ids(items@)[b] by {
                    assert(items@[a].id@ != items@[b].id@);
                }
            }
        }
        let order = positions_in_id_order(&ids, &flags);
        let ghost name = spec.name@;
        let ghost over = spec.over@;
        let mut pairs: Vec<(WorkItemId, FieldValue)> = Vec::new();
        let mut found: Vec<crate::diagnostic::Diagnostic> = Vec::new();
        let mut k: usize = 0;
        while k < order.len()
            invariant
                n == items@.len(),
                k <= order@.len(),
                lists_in_id_order(item_ids(items@), manual_flags(items@, name), order@),
                name == spec.name@,
                over == spec.over@,
                pair_views(pairs@) == contributions(items@, name, over, order@, k as int),
                diagnostic_views(found@) == conflicts(items@, name, over, order@, k as int),
            decreases order@.len() - k,
        {
            let p = order[k];
            assert(p < n && manual_flags(items@, name)[p as int]);
            let source = &items[p];
            let value = match source.fields.get(spec.name.as_str()) {
                Some(value) => copy_value(value),
                None => {
                    proof {
                        assert(false);
                    }
                    FieldValue::Boolean(false)
                },
            };
            let (walked, conflict) = walk_up(items, spec.name.as_str(), spec.over.as_str(), p);
            let ghost pairs_before = pair_views(pairs@);
            let mut t: usize = 0;
            while t < walked.len()
                invariant
                    t <= walked@.len(),
                    pair_views(pairs@) == pairs_before + ids_of(walked@).take(t as int).map_values(
                        |ancestor: Seq<char>| (ancestor, value@),
                    ),
                decreases walked@.len() - t,
            {
                let ghost before = pairs@;
                let pair = (walked[t].duplicate(), copy_value(&value));
                pairs.push(pair);
                proof {
                    assert(pairs@ =~= before.push(pair));
                    assert(pair_views(pairs@) =~= pair_views(before).push((pair.0@, pair.1@)));
                    assert(ids_of(walked@).take(t + 1) =~= ids_of(walked@).take(t as int).push(walked@[t as int]@));
                }
                t = t + 1;
            }
            proof {
                assert(ids_of(walked@).take(walked@.len() as int) =~= ids_of(walked@));
                assert(pair_views(pairs@) =~= contributions(items@, name, over, order@, k + 1));
            }
            let ghost found_before = diagnostic_views(found@);
            match conflict {
                Some(ancestor) => {
                    let diagnostic = item_diagnostic(
                        Severity::Error,
                        source.source_path.clone(),
                        source.id.duplicate(),
                        ItemDiagnosticKind::AggregateChainConflict {
                            field: spec.name.clone(),
                            conflicting_ancestor_id: ancestor,
                        },
                    );
                    found.push(diagnostic);
                    assert(diagnostic_views(found@) =~= found_before.push(diagnostic@));
                },
                None => {},
            }
            assert(diagnostic_views(found@) =~= conflicts(items@, name, over, order@, k + 1));
            k = k + 1;
        }
        (pairs, found)
    }
}

// ── Filling and coverage ────────────────────────────────────────────

/// What the item `target` receives from the gathered pairs.
pub open spec fn fill_for(pairs: Seq<(Seq<char>, FieldValueView)>, function: AggregateFunction, target: Seq<char>) -> ReducedView {
    let values = gathered(pairs, target);
    if values.len() == 0 {
        ReducedView::Nothing
    } else {
        reduction(function, values)
    }
}

/// Whether `after` is `before` with the field `name` set to `value` when
/// `value` is some, and unchanged otherwise.
pub open spec fn item_filled(before: WorkItem, after: WorkItem, name: Seq<char>, value: Option<FieldValueView>) -> bool {
    &&& after.id == before.id
    &&& after.body == before.body
    &&& after.source_path == before.source_path
    &&& forall|other: Seq<char>|
        #![trigger after.fields.lookup(other)]
        after.fields.lookup(other) == if other == name && value is Some {
            value
        } else {
            before.fields.lookup(other)
        }
}

/// Which items are leaves of the tree: no item links to them through `over`.
pub open spec fn leaf_flags(items: Seq<WorkItem>, links: Seq<LinkView>, over: Seq<char>) -> Seq<bool> {
    Seq::new(items.len(), |i: int| sources_of(links, over, items[i].id@).len() == 0)
}

/// Whether a hand-written value covers the item `id`: its own, or an
/// ancestor's.
pub open spec fn covered(items: Seq<WorkItem>, name: Seq<char>, over: Seq<char>, id: Seq<char>) -> bool {
    is_manual(items, name, id) || conflict_of(items, name, over, id) is Some
}

pub open spec fn missing_view(item: WorkItem, field: Seq<char>) -> DiagnosticView {
    DiagnosticView {
        severity: Severity::Error,
        body: DiagnosticBodyView::Item {
            path: item.source_path@,
            item_id: item.id@,
            kind: ItemKindView::AggregateMissingValue { field },
        },
    }
}

/// The uncovered leaves among the first `k` of `leaves`.
pub open spec fn uncovered(items: Seq<WorkItem>, name: Seq<char>, over: Seq<char>, leaves: Seq<usize>, k: int) -> Seq<DiagnosticView>
    decreases k,
{
    if k <= 0 {
        Seq::empty()
    } else {
        let leaf = items[leaves[k - 1] as int];
        uncovered(items, name, over, leaves, k - 1) + if covered(items, name, over, leaf.id@) {
            Seq::empty()
        } else {
            seq![missing_view(leaf, name)]
        }
    }
}

/// Whether some link through `field` names `target`.
fn has_sources(links: &Vec<crate::store::LinkRecord>, field: &str, target: &str) -> (r: bool)
    ensures
        r == (sources_of(crate::store::link_views(links@), field@, target@).len() > 0),
{
    let ghost views = crate::store::link_views(links@);
    let mut k: usize = 0;
    while k < links.len()
        invariant
            k <= links@.len(),
            views == crate::store::link_views(links@),
            sources_of(views.take(k as int), field@, target@).len() == 0,
        decreases links@.len() - k,
    {
        let record = &links[k];
        proof {
            assert(views.take(k + 1).drop_last() =~= views.take(k as int));
            assert(views.take(k + 1).last() == (record.source@, record.field@, ids_of(record.targets@)));
        }
        if str_eq(record.field.as_str(), field) {
            let ghost targets = ids_of(record.targets@);
            let mut j: usize = 0;
            while j < record.targets.len()
                invariant
                    j <= record.targets@.len(),
                    k < links@.len(),
                    *record == links@[k as int],
                    record.field@ == field@,
                    views == crate::store::link_views(links@),
                    views.take(k + 1).drop_last() == views.take(k as int),
                    views.take(k + 1).last() == (record.source@, record.field@, ids_of(record.targets@)),
                    targets == ids_of(record.targets@),
                    crate::store::hits(targets.take(j as int), target@, record.source@).len() == 0,
                decreases record.targets@.len() - j,
            {
                proof {
                    assert(targets.take(j + 1).drop_last() =~= targets.take(j as int));
                }
                if str_eq(record.targets[j].as_str(), target) {
                    proof {
                        assert(targets.take(j + 1).last() == target@);
                        assert(crate::store::hits(targets.take(j + 1), target@, record.source@).len() > 0);
                        lemma_hits_grow(targets, j as int + 1, target@, record.source@);
                        assert(targets.take(targets.len() as int) =~= targets);
                        assert(sources_of(views.take(k + 1), field@, target@).len() > 0);
                        lemma_sources_grow(views, k as int + 1, field@, target@);
                        assert(views.take(views.len() as int) =~= views);
                    }
                    return true;
                }
                j = j + 1;
            }
            proof {
                assert(targets.take(targets.len() as int) =~= targets);
            }
        }
        k = k + 1;
    }
    assert(views.take(views.len() as int) =~= views);
    false
}

proof fn lemma_hits_grow(targets: Seq<Seq<char>>, j: int, target: Seq<char>, source: Seq<char>)
    requires
        0 <= j <= targets.len(),
    ensures
        crate::store::hits(targets.take(j), target, source).len() <= crate::store::hits(targets, target, source).len(),
    decreases targets.len() - j,
{
    if j < targets.len() {
        lemma_hits_grow(targets, j + 1, target, source);
        assert(targets.take(j + 1).drop_last() =~= targets.take(j));
    } else {
        assert(targets.take(j) =~= targets);
    }
}

proof fn lemma_sources_grow(links: Seq<LinkView>, k: int, field: Seq<char>, target: Seq<char>)
    requires
        0 <= k <= links.len(),
    ensures
        sources_of(links.take(k), field, target).len() <= sources_of(links, field, target).len(),
    decreases links.len() - k,
{
    if k < links.len() {
        lemma_sources_grow(links, k + 1, field, target);
        assert(links.take(k + 1).drop_last() =~= links.take(k));
    } else {
        assert(links.take(k) =~= links);
    }
}

/// The values the pairs give `target`.
fn gathered_exec(pairs: &Vec<(WorkItemId, FieldValue)>, target: &str) -> (r: Vec<FieldValue>)
    ensures
        value_views(r@) == gathered(pair_views(pairs@), target@),
{
    let ghost views = pair_views(pairs@);
    let mut out: Vec<FieldValue> = Vec::new();
    let mut i: usize = 0;
    while i < pairs.len()
        invariant
            i <= pairs@.len(),
            views == pair_views(pairs@),
            value_views(out@) == gathered(views.take(i as int), target@),
        decreases pairs@.len() - i,
    {
        proof {
            assert(views.take(i + 1).drop_last() =~= views.take(i as int));
            assert(views.take(i + 1).last() == (pairs@[i as int].0@, pairs@[i as int].1@));
        }
        let ghost before = out@;
        if str_eq(pairs[i].0.as_str(), target) {
            let value = copy_value(&pairs[i].1);
            out.push(value);
            assert(value_views(out@) =~= value_views(before).push(value@));
        }
        assert(value_views(out@) =~= gathered(views.take(i + 1), target@));
        i = i + 1;
    }
    assert(views.take(pairs@.len() as int) =~= views);
    out
}

/// The value a reduction sets, if it sets one.
pub open spec fn set_value(reduced: ReducedView) -> Option<FieldValueView> {
    match reduced {
        ReducedView::Value(value) => Some(value),
        _ => None,
    }
}

/// The floating-point reductions of the first `q` items, in item order.
pub open spec fn float_list(items: Seq<WorkItem>, pairs: Seq<(Seq<char>, FieldValueView)>, function: AggregateFunction, q: int) -> Seq<(Seq<char>, Seq<FieldValueView>)>
    decreases q,
{
    if q <= 0 {
        Seq::empty()
    } else {
        let id = items[q - 1].id@;
        float_list(items, pairs, function, q - 1) + if fill_for(pairs, function, id) is Floating {
            seq![(id, gathered(pairs, id))]
        } else {
            Seq::empty()
        }
    }
}

pub open spec fn link_views_of(records: Seq<crate::store::LinkRecord>) -> Seq<LinkView> {
    crate::store::link_views(records)
}

pub open spec fn float_views(list: Seq<FloatRollup>) -> Seq<(Seq<char>, Seq<FieldValueView>)> {
    list.map_values(|f: FloatRollup| (f.item_id@, value_views(f.values@)))
}

/// Whether `after` and `floats` are what rolling up the field `spec`
/// makes of `before`.
pub open spec fn field_pass(before: crate::store::StoreView, spec: AggregateFieldSpec, after: crate::store::StoreView, floats: Seq<FloatRollup>) -> bool {
    &&& after.links == before.links
    &&& after.items.len() == before.items.len()
    &&& ids_unique(after.items)
    &&& exists|order: Seq<usize>, leaves: Seq<usize>|
        #![trigger lists_in_id_order(item_ids(before.items), manual_flags(before.items, spec.name@), order), lists_in_id_order(item_ids(before.items), leaf_flags(before.items, before.links, spec.over@), leaves)]
        {
        &&& lists_in_id_order(item_ids(before.items), manual_flags(before.items, spec.name@), order)
        &&& lists_in_id_order(item_ids(before.items), leaf_flags(before.items, before.links, spec.over@), leaves)
        &&& forall|q: int|
            0 <= q < before.items.len() ==> item_filled(
                before.items[q],
                #[trigger] after.items[q],
                spec.name@,
                set_value(fill_for(contributions(before.items, spec.name@, spec.over@, order, order.len() as int), spec.function, before.items[q].id@)),
            )
        &&& diagnostic_views(after.diagnostics) == diagnostic_views(before.diagnostics)
            + conflicts(before.items, spec.name@, spec.over@, order, order.len() as int) + if spec.error_on_missing {
            uncovered(before.items, spec.name@, spec.over@, leaves, leaves.len() as int)
        } else {
            Seq::empty()
        }
        &&& float_views(floats) == float_list(before.items, contributions(before.items, spec.name@, spec.over@, order, order.len() as int), spec.function, before.items.len() as int)
    }
    &&& forall|i: int| 0 <= i < floats.len() ==> (#[trigger] floats[i]).field@ == spec.name@ && floats[i].function == spec.function
}

impl Store {
    /// Roll up one aggregate field: every item without a hand-written value
    /// that hand-written values climb into gets their reduction; chain
    /// conflicts are reported, and when the field asks for it, so are the
    /// leaves no hand-written value covers (both in id order). Reductions
    /// that need floating point are returned instead of applied.
    pub fn roll_up_field(&mut self, spec: &AggregateFieldSpec) -> (r: Vec<FloatRollup>)
        ensures
            field_pass(old(self)@, *spec, final(self)@, r@),
    {
        proof {
            use_type_invariant(&*self);
            self.lemma_view();
        }
        proof {
            self.lemma_view();
        }
        let ghost items0 = self.items@;
        let ghost links0 = self.links@;
        let ghost diagnostics0 = self.diagnostics@;
        let (pairs, mut found) = self.gather(spec);
        let ghost order = choose|order: Seq<usize>| {
            &&& lists_in_id_order(item_ids(items0), manual_flags(items0, spec.name@), order)
            &&& pair_views(pairs@) == contributions(items0, spec.name@, spec.over@, order, order.len() as int)
            &&& diagnostic_views(found@) == conflicts(items0, spec.name@, spec.over@, order, order.len() as int)
        };
        let n = self.items.len();
        // Coverage, on the items as loaded.
        let mut ids: Vec<WorkItemId> = Vec::new();
        let mut flags: Vec<bool> = Vec::new();
        let mut i: usize = 0;
        while i < n
            invariant
                n == self.items@.len(),
                self.items@ == items0,
                i <= n,
                ids@.len() == i,
                flags@.len() == i,
                forall|k: int| 0 <= k < i ==> (#[trigger] ids@[k])@ == items0[k].id@,
                forall|k: int| 0 <= k < i ==> #[trigger] flags@[k] == (sources_of(
                    crate::store::link_views(self.links@),
                    spec.over@,
                    items0[k].id@,
                ).len() == 0),
            decreases n - i,
        {
            ids.push(self.items[i].id.duplicate());
            let linked = has_sources(&self.links, spec.over.as_str(), self.items[i].id.as_str());
            flags.push(!linked);
            i = i + 1;
        }
        proof {
            assert(crate::order::id_views(ids@) =~= item_ids(items0));
            assert(flags@ =~= leaf_flags(items0, self@.links, spec.over@));
            assert(crate::order::distinct_ids(item_ids(items0))) by {
                assert forall|a: int, b: int| 0 <= a < n && 0 <= b < n && a != b implies item_ids(items0)[a]
                    != item_ids(items0)[b] by {
                    assert(items0[a].id@ != items0[b].id@);
                }
            }
        }
        let leaves = positions_in_id_order(&ids, &flags);
        let ghost conflict_views = diagnostic_views(found@);
        if spec.error_on_missing {
            let mut k: usize = 0;
            while k < leaves.len()
                invariant
                    n == items0.len(),
                    self.items@ == items0,
                    ids_unique(items0),
                    k <= leaves@.len(),
                    lists_in_id_order(item_ids(items0), leaf_flags(items0, self@.links, spec.over@), leaves@),
                    diagnostic_views(found@) == conflict_views + uncovered(items0, spec.name@, spec.over@, leaves@, k as int),
                decreases leaves@.len() - k,
            {
                let leaf = leaves[k];
                assert(leaf < n);
                let is_covered = self.items[leaf].fields.contains_key(spec.name.as_str()) || walk_up(
                    &self.items,
                    spec.name.as_str(),
                    spec.over.as_str(),
                    leaf,
                ).1.is_some();
                proof {
                    lemma_index_of_name(item_ids(items0), items0[leaf as int].id@);
                    if let Some(j) = index_of_name(item_ids(items0), items0[leaf as int].id@) {
                        assert(items0[j].id@ == items0[leaf as int].id@);
                        assert(j == leaf);
                    }
                }
                let ghost before = diagnostic_views(found@);
                if !is_covered {
                    let diagnostic = item_diagnostic(
                        Severity::Error,
                        self.items[leaf].source_path.clone(),
                        self.items[leaf].id.duplicate(),
                        ItemDiagnosticKind::AggregateMissingValue { field: spec.name.clone() },
                    );
                    found.push(diagnostic);
                    assert(diagnostic_views(found@) =~= before.push(diagnostic@));
                }
                assert(diagnostic_views(found@) =~= conflict_views + uncovered(items0, spec.name@, spec.over@, leaves@, k + 1));
                k = k + 1;
            }
        } else {
            assert(diagnostic_views(found@) =~= conflict_views + Seq::<DiagnosticView>::empty());
        }
        // Fill.
        let ghost pair_list = pair_views(pairs@);
        let mut floats: Vec<FloatRollup> = Vec::new();
        let mut q: usize = 0;
        while q < n
            invariant
                n == items0.len(),
                q <= n,
                self.items@.len() == n,
                self.links@ == links0,
                self.diagnostics@ == diagnostics0,
                pair_list == pair_views(pairs@),
                forall|j: int| q <= j < n ==> self.items@[j] == items0[j],
                forall|j: int|
                    0 <= j < q ==> item_filled(
                        items0[j],
                        #[trigger] self.items@[j],
                        spec.name@,
                        set_value(fill_for(pair_list, spec.function, items0[j].id@)),
                    ),
                float_views(floats@) == float_list(items0, pair_list, spec.function, q as int),
                forall|i: int| 0 <= i < floats@.len() ==> (#[trigger] floats@[i]).field@ == spec.name@
                    && floats@[i].function == spec.function,
            decreases n - q,
        {
            let values = gathered_exec(&pairs, self.items[q].id.as_str());
            let ghost id = items0[q as int].id@;
            let ghost floats_before = float_views(floats@);
            if values.len() > 0 {
                match apply_aggregate(spec.function, &values) {
                    Reduction::Value(value) => {
                        let ghost before = self.items@;
                        proof {
                            self.lemma_view();
                        }
                        self.set_item_field(q, spec.name.clone(), value);
                        proof {
                            self.lemma_view();
                        }
                        let ghost item_after = self.items@[q as int];
                        assert(self.items@ =~= before.update(q as int, item_after));
                    },
                    Reduction::Floating => {
                        let pending = FloatRollup {
                            item_id: self.items[q].id.duplicate(),
                            field: spec.name.clone(),
                            function: spec.function,
                            values,
                        };
                        floats.push(pending);
                        assert(float_views(floats@) =~= floats_before.push((pending.item_id@, value_views(pending.values@))));
                    },
                    Reduction::Nothing => {},
                }
            }
            proof {
                assert(float_views(floats@) =~= float_list(items0, pair_list, spec.function, q + 1));
                assert(item_filled(
                    items0[q as int],
                    self.items@[q as int],
                    spec.name@,
                    set_value(fill_for(pair_list, spec.function, id)),
                ));
            }
            q = q + 1;
        }
        let ghost found_views = diagnostic_views(found@);
        proof {
            self.lemma_view();
        }
        self.append_diagnostics(found);
        proof {
            self.lemma_view();
            assert(diagnostic_views(self.diagnostics@) =~= diagnostic_views(diagnostics0) + found_views);
            assert(lists_in_id_order(item_ids(items0), leaf_flags(items0, link_views_of(links0), spec.over@), leaves@));
            assert(ids_unique(self.items@)) by {
                assert forall|a: int, b: int| 0 <= a < n && 0 <= b < n && a != b implies (#[trigger] self.items@[a]).id@
                    != (#[trigger] self.items@[b]).id@ by {
                    assert(items0[a].id@ != items0[b].id@);
                }
            }
            let pairs_spec = contributions(items0, spec.name@, spec.over@, order, order.len() as int);
            assert(pair_list == pairs_spec);
            assert(forall|q: int|
                0 <= q < items0.len() ==> item_filled(
                    items0[q],
                    #[trigger] self@.items[q],
                    spec.name@,
                    set_value(fill_for(pairs_spec, spec.function, items0[q].id@)),
                ));
            let b = old(self)@;
            assert(b.items == items0);
            assert(b.links == link_views_of(links0));
            assert(lists_in_id_order(item_ids(b.items), manual_flags(b.items, spec.name@), order));
            assert(lists_in_id_order(item_ids(b.items), leaf_flags(b.items, b.links, spec.over@), leaves@));
            let after = self@;
            assert(forall|q: int|
                0 <= q < b.items.len() ==> item_filled(
                    b.items[q],
                    #[trigger] after.items[q],
                    spec.name@,
                    set_value(fill_for(contributions(b.items, spec.name@, spec.over@, order, order.len() as int), spec.function, b.items[q].id@)),
                ));
            assert(diagnostic_views(after.diagnostics) == diagnostic_views(b.diagnostics)
                + conflicts(b.items, spec.name@, spec.over@, order, order.len() as int) + if spec.error_on_missing {
                uncovered(b.items, spec.name@, spec.over@, leaves@, leaves@.len() as int)
            } else {
                Seq::empty()
            });
            assert(float_views(floats@) == float_list(b.items, contributions(b.items, spec.name@, spec.over@, order, order.len() as int), spec.function, b.items.len() as int));
        }
        floats
    }
}

// ── The whole schema ────────────────────────────────────────────────

/// An aggregate field spec as (name, function, over, error_on_missing).
pub open spec fn spec_view(spec: AggregateFieldSpec) -> (Seq<char>, AggregateFunction, Seq<char>, bool) {
    (spec.name@, spec.function, spec.over@, spec.error_on_missing)
}

/// The aggregate fields among `fields`, in declaration order; the walk
/// follows `parent` unless the field names another link.
pub open spec fn aggregate_fields(fields: Seq<NamedField>) -> Seq<(Seq<char>, AggregateFunction, Seq<char>, bool)>
    decreases fields.len(),
{
    if fields.len() == 0 {
        Seq::empty()
    } else {
        let last = fields.last();
        aggregate_fields(fields.drop_last()) + match last.definition.aggregate {
            Some(config) => seq![
                (
                    last.name@,
                    config.function,
                    match config.over {
                        Some(over) => over@,
                        None => "parent"@,
                    },
                    config.error_on_missing,
                ),
            ],
            None => Seq::empty(),
        }
    }
}

fn aggregate_specs(schema: &Schema) -> (r: Vec<AggregateFieldSpec>)
    ensures
        r@.map_values(|spec: AggregateFieldSpec| spec_view(spec)) == aggregate_fields(schema.fields@),
{
    let mut out: Vec<AggregateFieldSpec> = Vec::new();
    let mut i: usize = 0;
    while i < schema.fields.len()
        invariant
            i <= schema.fields@.len(),
            out@.map_values(|spec: AggregateFieldSpec| spec_view(spec)) == aggregate_fields(schema.fields@.take(i as int)),
        decreases schema.fields@.len() - i,
    {
        let field = &schema.fields[i];
        proof {
            assert(schema.fields@.take(i + 1).drop_last() =~= schema.fields@.take(i as int));
        }
        let ghost before = out@;
        if let Some(config) = &field.definition.aggregate {
            let over = match &config.over {
                Some(over) => over.clone(),
                None => "parent".to_owned(),
            };
            let spec = AggregateFieldSpec {
                name: field.name.clone(),
                function: config.function,
                over,
                error_on_missing: config.error_on_missing,
            };
            out.push(spec);
            assert(out@.map_values(|spec: AggregateFieldSpec| spec_view(spec)) =~= before.map_values(
                |spec: AggregateFieldSpec| spec_view(spec),
            ).push(spec_view(spec)));
        }
        assert(out@.map_values(|spec: AggregateFieldSpec| spec_view(spec)) =~= aggregate_fields(schema.fields@.take(i + 1)));
        i = i + 1;
    }
    assert(schema.fields@.take(schema.fields@.len() as int) =~= schema.fields@);
    out
}

/// The reductions of all the passes, in pass order.
pub open spec fn all_floats(chunks: Seq<Seq<FloatRollup>>) -> Seq<FloatRollup>
    decreases chunks.len(),
{
    if chunks.len() == 0 {
        Seq::empty()
    } else {
        all_floats(chunks.drop_last()) + chunks.last()
    }
}

/// Whether `states` and `chunks` record rolling up the fields `specs` one
/// after the other, from `states[0]`: pass `k` turns `states[k]` into
/// `states[k + 1]` and hands back `chunks[k]`.
pub open spec fn passes(states: Seq<crate::store::StoreView>, specs: Seq<AggregateFieldSpec>, chunks: Seq<Seq<FloatRollup>>) -> bool {
    &&& states.len() == specs.len() + 1
    &&& chunks.len() == specs.len()
    &&& forall|k: int| 0 <= k < specs.len() ==> field_pass(states[k], #[trigger] specs[k], states[k + 1], chunks[k])
}

impl Store {
    /// Roll up every aggregate field of the schema, in declaration order.
    /// Reductions that need floating point are returned for the caller to
    /// compute and set with [`Store::set_field`]; after that,
    /// [`Store::report_missing_aggregates`] completes the pass.
    pub fn roll_up(&mut self, schema: &Schema) -> (r: Vec<FloatRollup>)
        ensures
            ids_unique(final(self)@.items),
            final(self)@.links == old(self)@.links,
            exists|specs: Seq<AggregateFieldSpec>, states: Seq<crate::store::StoreView>, chunks: Seq<Seq<FloatRollup>>|
                #![trigger passes(states, specs, chunks)]
                {
                &&& specs.map_values(|spec: AggregateFieldSpec| spec_view(spec)) == aggregate_fields(schema.fields@)
                &&& passes(states, specs, chunks)
                &&& states[0] == old(self)@
                &&& states.last() == final(self)@
                &&& r@ == all_floats(chunks)
            },
    {
        proof {
            use_type_invariant(&*self);
            self.lemma_view();
        }
        let specs = aggregate_specs(schema);
        let mut floats: Vec<FloatRollup> = Vec::new();
        let ghost start = self@;
        let ghost mut states: Seq<crate::store::StoreView> = seq![start];
        let ghost mut chunks: Seq<Seq<FloatRollup>> = Seq::empty();
        let mut k: usize = 0;
        while k < specs.len()
            invariant
                k <= specs@.len(),
                ids_unique(self@.items),
                self@.links == start.links,
                states[0] == start,
                states.last() == self@,
                passes(states, specs@.take(k as int), chunks),
                floats@ == all_floats(chunks),
            decreases specs@.len() - k,
        {
            let ghost middle = self@;
            let mut more = self.roll_up_field(&specs[k]);
            let ghost last = more@;
            floats.append(&mut more);
            proof {
                let old_states = states;
                let old_chunks = chunks;
                states = states.push(self@);
                chunks = chunks.push(last);
                assert(chunks.drop_last() =~= old_chunks);
                let taken = specs@.take(k + 1);
                assert forall|j: int| 0 <= j < taken.len() implies field_pass(states[j], #[trigger] taken[j], states[j + 1], chunks[j]) by {
                    if j < k {
                        assert(taken[j] == specs@.take(k as int)[j]);
                        assert(states[j] == old_states[j]);
                        assert(states[j + 1] == old_states[j + 1]);
                        assert(chunks[j] == old_chunks[j]);
                    } else {
                        assert(states[j] == middle);
                    }
                }
            }
            k = k + 1;
        }
        assert(specs@.take(specs@.len() as int) =~= specs@);
        floats
    }

    /// Set `field` on the item `item_id`, if the store holds it; used to
    /// apply the floating-point reductions [`Store::roll_up`] hands back.
    pub fn set_field(&mut self, item_id: &str, field: String, value: FieldValue)
        ensures
            ids_unique(final(self)@.items),
            final(self)@.links == old(self)@.links,
            final(self)@.diagnostics == old(self)@.diagnostics,
            final(self)@.items.len() == old(self)@.items.len(),
            forall|q: int|
                0 <= q < old(self)@.items.len() ==> item_filled(
                    old(self)@.items[q],
                    #[trigger] final(self)@.items[q],
                    field@,
                    if old(self)@.items[q].id@ == item_id@ { Some(value@) } else { None },
                ),
    {
        proof {
            use_type_invariant(&*self);
            self.lemma_view();
        }
        proof {
            self.lemma_view();
        }
        let ghost before = self.items@;
        match find_item(&self.items, item_id) {
            Some(q) => {
                proof {
                    self.lemma_view();
                }
                let ghost value_view = value@;
                let ghost field_view = field@;
                self.set_item_field(q, field, value);
                proof {
                    self.lemma_view();
                }
                let ghost item_after = self.items@[q as int];
                proof {
                    assert(self.items@ =~= before.update(q as int, item_after));
                    lemma_index_of_name(item_ids(before), item_id@);
                    assert(before[q as int].id@ == item_id@);
                    assert forall|j: int| 0 <= j < before.len() && j != q implies before[j].id@ != item_id@ by {
                        assert(before[j].id@ != before[q as int].id@);
                    }
                    assert forall|a: int, b: int|
                        0 <= a < before.len() && 0 <= b < before.len() && a != b implies (#[trigger] self.items@[a]).id@
                            != (#[trigger] self.items@[b]).id@ by {
                        assert(before[a].id@ != before[b].id@);
                    }
                }
            },
            None => {
                proof {
                    lemma_index_of_name(item_ids(before), item_id@);
                    assert forall|j: int| 0 <= j < before.len() implies before[j].id@ != item_id@ by {
                        assert(item_ids(before)[j] == before[j].id@);
                    }
                }
            },
        }
        proof {
            self.lemma_view();
        }
    }
}

// ── Required aggregate fields ───────────────────────────────────────

/// Which items lack the field `name`.
pub open spec fn lacking_flags(items: Seq<WorkItem>, name: Seq<char>) -> Seq<bool> {
    Seq::new(items.len(), |i: int| !items[i].fields.has(name))
}

pub open spec fn missing_required_view(item: WorkItem, field: Seq<char>) -> DiagnosticView {
    DiagnosticView {
        severity: Severity::Error,
        body: DiagnosticBodyView::Item {
            path: item.source_path@,
            item_id: item.id@,
            kind: ItemKindView::MissingRequired { field },
        },
    }
}

/// Whether the field must end up with a value on every item: required, and
/// filled by the roll-up rather than checked when the item is read.
pub open spec fn required_aggregate(field: NamedField) -> bool {
    field.definition.required && field.definition.aggregate is Some
}

/// The reports of the first `k` fields: for each required aggregate field,
/// every item still without a value, in id order (`orders[k]`).
pub open spec fn missing_reports(items: Seq<WorkItem>, fields: Seq<NamedField>, orders: Seq<Seq<usize>>, k: int) -> Seq<DiagnosticView>
    decreases k,
{
    if k <= 0 {
        Seq::empty()
    } else {
        let field = fields[k - 1];
        missing_reports(items, fields, orders, k - 1) + if required_aggregate(field) {
            orders[k - 1].map_values(|p: usize| missing_required_view(items[p as int], field.name@))
        } else {
            Seq::empty()
        }
    }
}

impl Store {
    /// Report every item that still lacks a value for a required aggregate
    /// field, once the roll-up and its floating-point reductions are done.
    pub fn report_missing_aggregates(&mut self, schema: &Schema)
        ensures
            final(self)@.items == old(self)@.items,
            final(self)@.links == old(self)@.links,
            exists|orders: Seq<Seq<usize>>|
                #![trigger missing_reports(old(self)@.items, schema.fields@, orders, schema.fields@.len() as int)]
                {
                &&& orders.len() == schema.fields@.len()
                &&& forall|k: int| 0 <= k < orders.len() ==> lists_in_id_order(
                    item_ids(old(self)@.items),
                    lacking_flags(old(self)@.items, schema.fields@[k].name@),
                    #[trigger] orders[k],
                )
                &&& diagnostic_views(final(self)@.diagnostics) == diagnostic_views(old(self)@.diagnostics)
                    + missing_reports(old(self)@.items, schema.fields@, orders, schema.fields@.len() as int)
            },
    {
        proof {
            use_type_invariant(&*self);
            self.lemma_view();
        }
        proof {
            self.lemma_view();
        }
        let ghost items0 = self.items@;
        let ghost links0 = self.links@;
        let ghost diagnostics0 = diagnostic_views(self.diagnostics@);
        let n = self.items.len();
        let mut ids: Vec<WorkItemId> = Vec::new();
        let mut i: usize = 0;
        while i < n
            invariant
                n == items0.len(),
                self.items@ == items0,
                i <= n,
                ids@.len() == i,
                forall|k: int| 0 <= k < i ==> (#[trigger] ids@[k])@ == items0[k].id@,
            decreases n - i,
        {
            ids.push(self.items[i].id.duplicate());
            i = i + 1;
        }
        proof {
            assert(crate::order::id_views(ids@) =~= item_ids(items0));
            assert(crate::order::distinct_ids(item_ids(items0))) by {
                assert forall|a: int, b: int| 0 <= a < n && 0 <= b < n && a != b implies item_ids(items0)[a]
                    != item_ids(items0)[b] by {
                    assert(items0[a].id@ != items0[b].id@);
                }
            }
        }
        let ghost mut orders: Seq<Seq<usize>> = Seq::empty();
        let mut f: usize = 0;
        while f < schema.fields.len()
            invariant
                n == items0.len(),
                self.items@ == items0,
                self@.items == items0,
                self@.links == old(self)@.links,
                self.links@ == links0,
                old(self)@.links == crate::store::link_views(links0),
                f <= schema.fields@.len(),
                ids@.len() == n,
                crate::order::id_views(ids@) == item_ids(items0),
                crate::order::distinct_ids(item_ids(items0)),
                orders.len() == f,
                forall|k: int| 0 <= k < f ==> lists_in_id_order(
                    item_ids(items0),
                    lacking_flags(items0, schema.fields@[k].name@),
                    #[trigger] orders[k],
                ),
                diagnostic_views(self.diagnostics@) == diagnostics0 + missing_reports(items0, schema.fields@, orders, f as int),
            decreases schema.fields@.len() - f,
        {
            let field = &schema.fields[f];
            let mut flags: Vec<bool> = Vec::new();
            let mut q: usize = 0;
            while q < n
                invariant
                    n == items0.len(),
                    self.items@ == items0,
                    q <= n,
                    flags@.len() == q,
                    forall|k: int| 0 <= k < q ==> #[trigger] flags@[k] == !items0[k].fields.has(field.name@),
                decreases n - q,
            {
                flags.push(!self.items[q].fields.contains_key(field.name.as_str()));
                q = q + 1;
            }
            assert(flags@ =~= lacking_flags(items0, field.name@));
            let order = positions_in_id_order(&ids, &flags);
            let ghost before = diagnostic_views(self.diagnostics@);
            let ghost old_orders = orders;
            proof {
                orders = orders.push(order@);
            }
            if field.definition.required && field.definition.aggregate.is_some() {
                let mut k: usize = 0;
                while k < order.len()
                    invariant
                        n == items0.len(),
                        self.items@ == items0,
                        self@.items == items0,
                        self@.links == old(self)@.links,
                        self.links@ == links0,
                        old(self)@.links == crate::store::link_views(links0),
                        k <= order@.len(),
                        forall|j: int| 0 <= j < order@.len() ==> (#[trigger] order@[j]) < n,
                        diagnostic_views(self.diagnostics@) == before + order@.take(k as int).map_values(
                            |p: usize| missing_required_view(items0[p as int], field.name@),
                        ),
                    decreases order@.len() - k,
                {
                    let p = order[k];
                    let diagnostic = item_diagnostic(
                        Severity::Error,
                        self.items[p].source_path.clone(),
                        self.items[p].id.duplicate(),
                        ItemDiagnosticKind::MissingRequired { field: field.name.clone() },
                    );
                    let ghost mid = diagnostic_views(self.diagnostics@);
                    proof {
                        self.lemma_view();
                    }
                    self.append_diagnostics(vec![diagnostic]);
                    proof {
                        self.lemma_view();
                        assert(diagnostic_views(self.diagnostics@) =~= mid.push(diagnostic@));
                        assert(order@.take(k + 1) =~= order@.take(k as int).push(p));
                        assert(order@.take(k + 1).map_values(|p: usize| missing_required_view(items0[p as int], field.name@))
                            =~= order@.take(k as int).map_values(|p: usize| missing_required_view(items0[p as int], field.name@)).push(
                            missing_required_view(items0[p as int], field.name@),
                        ));
                    }
                    k = k + 1;
                }
                assert(order@.take(order@.len() as int) =~= order@);
            } else {
                assert(diagnostic_views(self.diagnostics@) =~= before + Seq::<DiagnosticView>::empty());
            }
            proof {
                assert(missing_reports(items0, schema.fields@, orders, f + 1) == missing_reports(
                    items0,
                    schema.fields@,
                    old_orders,
                    f as int,
                ) + if required_aggregate(schema.fields@[f as int]) {
                    order@.map_values(|p: usize| missing_required_view(items0[p as int], field.name@))
                } else {
                    Seq::empty()
                }) by {
                    lemma_reports_same(items0, schema.fields@, old_orders, orders, f as int);
                    assert(orders[f as int] == order@);
                    assert(schema.fields@[f as int] == *field);
                    assert(missing_reports(items0, schema.fields@, orders, f + 1) == missing_reports(
                        items0,
                        schema.fields@,
                        orders,
                        f as int,
                    ) + if required_aggregate(schema.fields@[f as int]) {
                        orders[f as int].map_values(|p: usize| missing_required_view(items0[p as int], schema.fields@[f as int].name@))
                    } else {
                        Seq::empty()
                    });
                }
                assert(diagnostic_views(self.diagnostics@) =~= diagnostics0 + missing_reports(items0, schema.fields@, orders, f + 1));
            }
            f = f + 1;
        }
        proof {
            self.lemma_view();
        }
    }

    /// Load the store from what was read and roll up its aggregate fields.
    /// The caller computes the floating-point reductions handed back, sets
    /// them with [`Store::set_field`], and then calls
    /// [`Store::report_missing_aggregates`].
    pub fn load(files: Vec<crate::store::LoadedFile>, schema: &Schema) -> (r: (Store, Vec<FloatRollup>))
        ensures
            ids_unique(r.0@.items),
            exists|assembled: Store, specs: Seq<AggregateFieldSpec>, states: Seq<crate::store::StoreView>, chunks: Seq<Seq<FloatRollup>>|
                #![trigger passes(states, specs, chunks), assembled@]
                {
                &&& assembled@.items == crate::store::accepted(files@, files@.len() as int).0
                &&& diagnostic_views(assembled@.diagnostics) == crate::store::accepted(files@, files@.len() as int).1
                    + crate::store::all_broken_links(assembled@.items, assembled@.items.len() as int)
                &&& assembled@.links == crate::store::all_records(assembled@.items, assembled@.items.len() as int)
                &&& specs.map_values(|spec: AggregateFieldSpec| spec_view(spec)) == aggregate_fields(schema.fields@)
                &&& passes(states, specs, chunks)
                &&& states[0] == assembled@
                &&& states.last() == r.0@
                &&& r.1@ == all_floats(chunks)
            },
    {
        let mut store = Store::assemble(files);
        let ghost assembled = store;
        let floats = store.roll_up(schema);
        (store, floats)
    }
}

proof fn lemma_reports_same(items: Seq<WorkItem>, fields: Seq<NamedField>, a: Seq<Seq<usize>>, b: Seq<Seq<usize>>, k: int)
    requires
        0 <= k,
        k <= a.len(),
        k <= b.len(),
        forall|j: int| 0 <= j < k ==> a[j] == b[j],
    ensures
        missing_reports(items, fields, a, k) == missing_reports(items, fields, b, k),
    decreases k,
{
    if k > 0 {
        lemma_reports_same(items, fields, a, b, k - 1);
    }
}

// ── Laws ────────────────────────────────────────────────────────────

proof fn lemma_climb_not_manual(items: Seq<WorkItem>, name: Seq<char>, over: Seq<char>, start: Seq<char>)
    ensures
        forall|k: int| 0 <= k < climb(items, name, over, start).len() ==> !is_manual(items, name, #[trigger] climb(items, name, over, start)[k]),
{
    let ancestors = chain(items, over, start);
    lemma_manual_stop(items, name, ancestors);
}

proof fn lemma_manual_stop(items: Seq<WorkItem>, name: Seq<char>, ids: Seq<Seq<char>>)
    ensures
        match manual_stop(items, name, ids) {
            Some(j) => 0 <= j < ids.len() && forall|k: int| 0 <= k < j ==> !is_manual(items, name, #[trigger] ids[k]),
            None => forall|k: int| 0 <= k < ids.len() ==> !is_manual(items, name, #[trigger] ids[k]),
        },
    decreases ids.len(),
{
    if ids.len() > 0 && !is_manual(items, name, ids[0]) {
        let rest = ids.drop_first();
        lemma_manual_stop(items, name, rest);
        assert forall|k: int| 0 < k < ids.len() implies ids[k] == rest[k - 1] by {}
    }
}

proof fn lemma_nothing_gathered(items: Seq<WorkItem>, name: Seq<char>, over: Seq<char>, order: Seq<usize>, k: int, target: Seq<char>)
    requires
        is_manual(items, name, target),
        0 <= k <= order.len(),
        forall|j: int| 0 <= j < order.len() ==> (#[trigger] order[j]) < items.len(),
    ensures
        gathered(contributions(items, name, over, order, k), target).len() == 0,
    decreases k,
{
    if k > 0 {
        lemma_nothing_gathered(items, name, over, order, k - 1, target);
        let source = items[order[k - 1] as int];
        let value = source.fields.lookup(name)->0;
        let walked = climb(items, name, over, source.id@);
        lemma_climb_not_manual(items, name, over, source.id@);
        let added = walked.map_values(|ancestor: Seq<char>| (ancestor, value));
        lemma_gathered_concat(contributions(items, name, over, order, k - 1), added, target);
        lemma_gathered_none(added, target);
    }
}

proof fn lemma_gathered_concat(a: Seq<(Seq<char>, FieldValueView)>, b: Seq<(Seq<char>, FieldValueView)>, target: Seq<char>)
    ensures
        gathered(a + b, target) == gathered(a, target) + gathered(b, target),
    decreases b.len(),
{
    if b.len() == 0 {
        assert(a + b =~= a);
        assert(gathered(a, target) + gathered(b, target) =~= gathered(a, target));
    } else {
        lemma_gathered_concat(a, b.drop_last(), target);
        assert((a + b).drop_last() =~= a + b.drop_last());
        assert((a + b).last() == b.last());
    }
}

proof fn lemma_gathered_none(pairs: Seq<(Seq<char>, FieldValueView)>, target: Seq<char>)
    requires
        forall|k: int| 0 <= k < pairs.len() ==> (#[trigger] pairs[k]).0 != target,
    ensures
        gathered(pairs, target).len() == 0,
    decreases pairs.len(),
{
    if pairs.len() > 0 {
        let init = pairs.drop_last();
        assert forall|k: int| 0 <= k < init.len() implies (#[trigger] init[k]).0 != target by {
            assert(init[k] == pairs[k]);
        }
        lemma_gathered_none(init, target);
    }
}

/// A roll-up pass never touches a hand-written value: an item that sets
/// the field keeps exactly what it set.
pub proof fn law_roll_up_keeps_written_values(
    before: crate::store::StoreView,
    spec: AggregateFieldSpec,
    after: crate::store::StoreView,
    floats: Seq<FloatRollup>,
    q: int,
)
    requires
        field_pass(before, spec, after, floats),
        ids_unique(before.items),
        0 <= q < before.items.len(),
        before.items[q].fields.has(spec.name@),
    ensures
        after.items[q].fields.lookup(spec.name@) == before.items[q].fields.lookup(spec.name@),
{
    let items = before.items;
    let (order, leaves) = choose|order: Seq<usize>, leaves: Seq<usize>| {
        &&& lists_in_id_order(item_ids(items), manual_flags(items, spec.name@), order)
        &&& lists_in_id_order(item_ids(items), leaf_flags(items, before.links, spec.over@), leaves)
        &&& forall|q: int|
            0 <= q < items.len() ==> item_filled(
                items[q],
                #[trigger] after.items[q],
                spec.name@,
                set_value(fill_for(contributions(items, spec.name@, spec.over@, order, order.len() as int), spec.function, items[q].id@)),
            )
        &&& diagnostic_views(after.diagnostics) == diagnostic_views(before.diagnostics)
            + conflicts(items, spec.name@, spec.over@, order, order.len() as int) + if spec.error_on_missing {
            uncovered(items, spec.name@, spec.over@, leaves, leaves.len() as int)
        } else {
            Seq::empty()
        }
        &&& float_views(floats) == float_list(items, contributions(items, spec.name@, spec.over@, order, order.len() as int), spec.function, items.len() as int)
    };
    let id = items[q].id@;
    lemma_index_of_name(item_ids(items), id);
    assert(item_ids(items)[q] == id);
    if let Some(j) = index_of_name(item_ids(items), id) {
        if j != q {
            assert(items[j].id@ == items[q].id@);
        }
    }
    assert(is_manual(items, spec.name@, id));
    lemma_nothing_gathered(items, spec.name@, spec.over@, order, order.len() as int, id);
    assert(item_filled(
        items[q],
        after.items[q],
        spec.name@,
        set_value(fill_for(contributions(items, spec.name@, spec.over@, order, order.len() as int), spec.function, id)),
    ));
}

} // verus!
