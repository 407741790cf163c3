//! Effort-timer contracts: which field the timer writes to (resolved
//! against the schema), how a stopped session's elapsed time rounds into
//! the write, and the shapes the timer endpoints exchange.

use vstd::prelude::*;

use crate::diagnostic::Diagnostic;
use crate::duration::{parse_duration, read_duration};
use crate::model::{type_text, FieldType, WorkItemId};
use crate::schema::{config_type, definition_of, Schema};
use crate::text::{concat, str_eq};

verus! {

// ── Rounding ────────────────────────────────────────────────────────

/// The seconds a stop writes for `elapsed` seconds: the nearest whole
/// minute, thirty seconds rounding up, saturating at the integer limits.
pub open spec fn spec_rounded_write_seconds(elapsed: int) -> int {
    let shifted = if elapsed + 30 > u64::MAX { u64::MAX as int } else { elapsed + 30 };
    let rounded = shifted / 60 * 60;
    if rounded > i64::MAX { i64::MAX as int } else { rounded }
}

/// Round a stopped session's elapsed seconds into the seconds actually
/// written: nearest whole minute, thirty seconds rounds up. Zero means the
/// stop writes nothing at all.
pub fn rounded_write_seconds(elapsed_seconds: u64) -> (r: i64)
    ensures
        r as int == spec_rounded_write_seconds(elapsed_seconds as int),
{
    let minutes = elapsed_seconds.saturating_add(30) / 60;
    let seconds = minutes * 60;
    if seconds > i64::MAX as u64 {
        i64::MAX
    } else {
        seconds as i64
    }
}

/// Away from the integer limits the write is a whole number of minutes
/// within half a minute of the elapsed time, half a minute rounding up.
pub proof fn law_rounding_is_nearest_minute(elapsed: u64)
    requires
        elapsed + 30 <= i64::MAX,
    ensures
        spec_rounded_write_seconds(elapsed as int) % 60 == 0,
        elapsed - 30 < spec_rounded_write_seconds(elapsed as int),
        spec_rounded_write_seconds(elapsed as int) <= elapsed + 30,
{
    let shifted = elapsed + 30;
    assert(shifted / 60 * 60 <= shifted) by (nonlinear_arith)
        requires
            shifted >= 0,
    ;
    assert(shifted / 60 * 60 > shifted - 60) by (nonlinear_arith)
        requires
            shifted >= 0,
    ;
    assert((shifted / 60 * 60) % 60 == 0) by (nonlinear_arith)
        requires
            shifted >= 0,
    ;
}

/// Rounding never decreases as the elapsed time grows.
pub proof fn law_rounding_is_monotonic(a: u64, b: u64)
    requires
        a <= b,
    ensures
        spec_rounded_write_seconds(a as int) <= spec_rounded_write_seconds(b as int),
{
    let sa = if a + 30 > u64::MAX { u64::MAX as int } else { a + 30 };
    let sb = if b + 30 > u64::MAX { u64::MAX as int } else { b + 30 };
    assert(sa / 60 <= sb / 60) by (nonlinear_arith)
        requires
            0 <= sa <= sb,
    ;
    assert(sa / 60 * 60 <= sb / 60 * 60) by (nonlinear_arith)
        requires
            sa / 60 <= sb / 60,
    ;
}

// ── The effort field ────────────────────────────────────────────────

/// What `defaults.effort_field` in `config.yaml` resolves to.
#[derive(Debug, Clone, PartialEq, Eq)]
pub enum EffortFieldState {
    /// The key is unset — the normal "no timer" state.
    Unconfigured,
    /// The key names something no timer can write to; `problem` is a
    /// human-readable clause.
    Invalid { field: String, problem: String },
    /// The field the timer writes to.
    Ready { field: String },
}

pub enum EffortFieldStateView {
    Unconfigured,
    Invalid { field: Seq<char>, problem: Seq<char> },
    Ready { field: Seq<char> },
}

impl View for EffortFieldState {
    type V = EffortFieldStateView;

    open spec fn view(&self) -> EffortFieldStateView {
        match self {
            EffortFieldState::Unconfigured => EffortFieldStateView::Unconfigured,
            EffortFieldState::Invalid { field, problem } => EffortFieldStateView::Invalid {
                field: field@,
                problem: problem@,
            },
            EffortFieldState::Ready { field } => EffortFieldStateView::Ready { field: field@ },
        }
    }
}

/// The outcome for `defaults.effort_field`: the key must name an existing
/// schema field of type `duration`, and the virtual `id` is rejected by name
/// before the schema is consulted.
pub open spec fn spec_resolve(effort_field: Option<Seq<char>>, schema: Schema) -> EffortFieldStateView {
    match effort_field {
        None => EffortFieldStateView::Unconfigured,
        Some(field) => if field == "id"@ {
            EffortFieldStateView::Invalid {
                field,
                problem: "the virtual 'id' is unique per item and cannot carry effort"@,
            }
        } else {
            match definition_of(schema.fields@, field) {
                None => EffortFieldStateView::Invalid {
                    field,
                    problem: "schema.yaml defines no field named '"@ + field + "'"@,
                },
                Some(definition) => if config_type(definition.type_config) != FieldType::Duration {
                    EffortFieldStateView::Invalid {
                        field,
                        problem: "field '"@ + field + "' has type "@ + type_text(
                            config_type(definition.type_config),
                        ) + ", but effort needs a duration"@,
                    }
                } else {
                    EffortFieldStateView::Ready { field }
                },
            }
        },
    }
}

impl EffortFieldState {
    /// Resolve `defaults.effort_field` against the schema.
    pub fn resolve(effort_field: Option<&str>, schema: &Schema) -> (r: Self)
        ensures
            r@ == spec_resolve(
                match effort_field {
                    Some(field) => Some(field@),
                    None => None,
                },
                *schema,
            ),
    {
        let field = match effort_field {
            Some(field) => field,
            None => return EffortFieldState::Unconfigured,
        };
        if str_eq(field, "id") {
            return EffortFieldState::Invalid {
                field: field.to_owned(),
                problem: "the virtual 'id' is unique per item and cannot carry effort".to_owned(),
            };
        }
        match schema.field(field) {
            None => {
                let head = concat("schema.yaml defines no field named '", field);
                EffortFieldState::Invalid { field: field.to_owned(), problem: concat(head.as_str(), "'") }
            },
            Some(definition) => {
                let field_type = definition.field_type();
                if field_type != FieldType::Duration {
                    let head = concat("field '", field);
                    let middle = concat(head.as_str(), "' has type ");
                    let typed = concat(middle.as_str(), field_type.name());
                    EffortFieldState::Invalid {
                        field: field.to_owned(),
                        problem: concat(typed.as_str(), ", but effort needs a duration"),
                    }
                } else {
                    EffortFieldState::Ready { field: field.to_owned() }
                }
            },
        }
    }
}

// ── Wire shapes ─────────────────────────────────────────────────────

/// The running half of [`TimerState`] — which item is being timed and how
/// long for.
#[derive(Debug, Clone)]
pub struct RunningTimer {
    pub item_id: WorkItemId,
    /// Wall-clock start, milliseconds since the Unix epoch.
    pub started_at_ms: i64,
    /// Elapsed seconds, computed at response time.
    pub elapsed_seconds: u64,
    /// The item's hand-written effort value in canonical seconds.
    pub effort_before_seconds: Option<i64>,
}

/// The timer's whole client-visible state.
#[derive(Debug, Clone)]
pub struct TimerState {
    pub effort_field: EffortFieldState,
    pub running: Option<RunningTimer>,
}

/// A request to start the timer; `confirmed` is the second leg of the
/// roll-up confirmation round trip.
#[derive(Debug, Clone)]
pub struct StartTimer {
    pub item: String,
    pub confirmed: bool,
}

/// Start's successful reply.
#[derive(Debug, Clone)]
pub enum TimerStartOutcome {
    Started { timer: TimerState },
    /// The item's effort rolls up from children; starting would record a
    /// hand-written value that overrides the roll-up.
    NeedsConfirmation,
}

/// What a field write reports: the file written, the frontmatter value
/// before and after (verbatim scalar text; `None` when absent), the
/// findings of the reload, and whether the write introduced a new one.
#[derive(Debug, Clone)]
pub struct SetOutcome {
    pub path: String,
    pub previous_value: Option<String>,
    pub new_value: Option<String>,
    pub warnings: Vec<Diagnostic>,
    pub info_messages: Vec<String>,
    pub mutation_caused_warning: bool,
}

/// The write a stop performed: the seconds added, the value before and
/// after, and what undo needs (the verbatim before-value, or absence).
#[derive(Debug, Clone)]
pub struct TimerWrite {
    pub added_seconds: i64,
    pub previous_value: Option<String>,
    pub previous_seconds: Option<i64>,
    pub new_seconds: i64,
    pub mutation_caused_warning: bool,
    pub info_messages: Vec<String>,
}

/// `a + b`, held at the integer limits.
pub open spec fn saturated_sum(a: int, b: int) -> int {
    if a + b > i64::MAX {
        i64::MAX as int
    } else if a + b < i64::MIN {
        i64::MIN as int
    } else {
        a + b
    }
}

impl TimerWrite {
    /// Project a duration-delta write into the toast's numbers: the value
    /// before (a duration text by construction of the delta path, or
    /// absent, in which case the write started from zero) and the sum
    /// after, held at the integer limits.
    pub fn from_outcome(added_seconds: i64, outcome: &SetOutcome) -> (r: Self)
        requires
            outcome.previous_value matches Some(text) ==> read_duration(text@) is Some,
        ensures
            r.added_seconds == added_seconds,
            r.previous_value == outcome.previous_value,
            match outcome.previous_value {
                Some(text) => r.previous_seconds matches Some(s) && read_duration(text@) == Some(s as int),
                None => r.previous_seconds is None,
            },
            r.new_seconds == saturated_sum(
                match r.previous_seconds { Some(s) => s as int, None => 0 },
                added_seconds as int,
            ),
            r.mutation_caused_warning == outcome.mutation_caused_warning,
            r.info_messages@ == outcome.info_messages@,
    {
        let previous_seconds = match &outcome.previous_value {
            Some(text) => {
                let parsed = parse_duration(text.as_str());
                match parsed {
                    Some(seconds) => Some(seconds),
                    None => None,
                }
            },
            None => None,
        };
        let base: i64 = match previous_seconds {
            Some(seconds) => seconds,
            None => 0,
        };
        let sum: i128 = base as i128 + added_seconds as i128;
        let new_seconds: i64 = if sum > i64::MAX as i128 {
            i64::MAX
        } else if sum < i64::MIN as i128 {
            i64::MIN
        } else {
            sum as i64
        };
        TimerWrite {
            added_seconds,
            previous_value: outcome.previous_value.clone(),
            previous_seconds,
            new_seconds,
            mutation_caused_warning: outcome.mutation_caused_warning,
            info_messages: outcome.info_messages.clone(),
        }
    }
}

/// The result of a successful stop: the item, the field written, the raw
/// measured seconds, and the write (`None` when the session rounded to
/// zero minutes and nothing was written).
#[derive(Debug, Clone)]
pub struct TimerStopResult {
    pub item_id: WorkItemId,
    pub field: String,
    pub elapsed_seconds: u64,
    pub write: Option<TimerWrite>,
}

} // verus!
