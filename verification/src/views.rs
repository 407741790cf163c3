//! Views: the rendered projections a project declares in `views.yaml`,
//! and the check that turns the flat file layout into typed views: every
//! slot a view type requires must be present, and view ids are unique.

use vstd::prelude::*;

use crate::text::{concat, join, join_strings, str_eq};

verus! {

/// The kind of a view.
#[derive(Debug, Clone, Copy, PartialEq, Eq, Structural)]
pub enum ViewType {
    Board,
    Tree,
    Graph,
    Table,
    Gantt,
    GanttByInitiative,
    GanttByDepth,
    BarChart,
    LineChart,
    Workload,
    Metric,
    Treemap,
    Heatmap,
}

/// How a view type is written in `views.yaml`.
pub open spec fn view_type_text(view_type: ViewType) -> Seq<char> {
    match view_type {
        ViewType::Board => "board"@,
        ViewType::Tree => "tree"@,
        ViewType::Graph => "graph"@,
        ViewType::Table => "table"@,
        ViewType::Gantt => "gantt"@,
        ViewType::GanttByInitiative => "gantt_by_initiative"@,
        ViewType::GanttByDepth => "gantt_by_depth"@,
        ViewType::BarChart => "bar_chart"@,
        ViewType::LineChart => "line_chart"@,
        ViewType::Workload => "workload"@,
        ViewType::Metric => "metric"@,
        ViewType::Treemap => "treemap"@,
        ViewType::Heatmap => "heatmap"@,
    }
}

impl ViewType {
    /// How the type is written in `views.yaml`.
    pub fn name(self) -> (r: &'static str)
        ensures
            r@ == view_type_text(self),
    {
        match self {
            ViewType::Board => "board",
            ViewType::Tree => "tree",
            ViewType::Graph => "graph",
            ViewType::Table => "table",
            ViewType::Gantt => "gantt",
            ViewType::GanttByInitiative => "gantt_by_initiative",
            ViewType::GanttByDepth => "gantt_by_depth",
            ViewType::BarChart => "bar_chart",
            ViewType::LineChart => "line_chart",
            ViewType::Workload => "workload",
            ViewType::Metric => "metric",
            ViewType::Treemap => "treemap",
            ViewType::Heatmap => "heatmap",
        }
    }
}

/// How a chart reduces the items of one group.
#[derive(Debug, Clone, Copy, PartialEq, Eq, Structural)]
pub enum Aggregate {
    Count,
    Sum,
    Avg,
    Min,
    Max,
}

/// The time bucket of a heatmap axis.
#[derive(Debug, Clone, Copy, PartialEq, Eq, Structural)]
pub enum Bucket {
    Day,
    Week,
    Month,
}

#[derive(Debug, Clone, Copy, PartialEq, Eq, Structural)]
pub enum Weekday {
    Monday,
    Tuesday,
    Wednesday,
    Thursday,
    Friday,
    Saturday,
    Sunday,
}

/// One row of a metric view.
#[derive(Debug, Clone)]
pub struct MetricRow {
    pub label: Option<String>,
    pub aggregate: Aggregate,
    pub value: Option<String>,
    pub where_clauses: Vec<String>,
}

/// The type-specific part of a view, with its required slots filled.
#[derive(Debug, Clone)]
pub enum ViewKind {
    Board { field: String },
    Tree { field: String },
    Graph { field: String, group_by: Option<String> },
    Table { columns: Vec<String> },
    Gantt {
        start: String,
        end: Option<String>,
        duration: Option<String>,
        after: Option<String>,
        group: Option<String>,
    },
    GanttByInitiative {
        start: String,
        end: Option<String>,
        duration: Option<String>,
        after: Option<String>,
        root_link: String,
    },
    GanttByDepth {
        start: String,
        end: Option<String>,
        duration: Option<String>,
        after: Option<String>,
        depth_link: String,
    },
    BarChart { group_by: String, aggregate: Aggregate, value: Option<String> },
    LineChart { x: String, y: String, group: Option<String> },
    Workload { start: String, end: String, effort: String, working_days: Option<Vec<Weekday>> },
    Metric { metrics: Vec<MetricRow> },
    Treemap { group: String, size: String },
    Heatmap {
        x: String,
        y: String,
        aggregate: Aggregate,
        value: Option<String>,
        bucket: Option<Bucket>,
    },
}

/// A checked view.
#[derive(Debug, Clone)]
pub struct ViewConfig {
    pub id: String,
    pub where_clauses: Vec<String>,
    pub title: Option<String>,
    pub kind: ViewKind,
}

/// All checked views, and where they are rendered to.
#[derive(Debug, Clone)]
pub struct Views {
    pub output_dir: String,
    pub views: Vec<ViewConfig>,
}

/// A view as written: every type-specific slot is optional.
#[derive(Debug, Clone)]
pub struct RawView {
    pub id: String,
    pub view_type: ViewType,
    pub where_clauses: Vec<String>,
    pub title: Option<String>,
    pub field: Option<String>,
    pub columns: Option<Vec<String>>,
    pub start: Option<String>,
    pub end: Option<String>,
    pub duration: Option<String>,
    pub after: Option<String>,
    pub root_link: Option<String>,
    pub depth_link: Option<String>,
    pub effort: Option<String>,
    pub group: Option<String>,
    pub group_by: Option<String>,
    pub value: Option<String>,
    pub aggregate: Option<Aggregate>,
    pub metrics: Option<Vec<MetricRow>>,
    pub x: Option<String>,
    pub y: Option<String>,
    pub size: Option<String>,
    pub bucket: Option<Bucket>,
    pub working_days: Option<Vec<Weekday>>,
}

/// A `views.yaml` file as written.
#[derive(Debug, Clone)]
pub struct RawViewsFile {
    pub directory: Option<String>,
    pub views: Vec<RawView>,
}

/// A single semantic validation error.
#[derive(Debug, Clone)]
pub enum ViewsValidationError {
    DuplicateId { id: String },
    MissingSlot { id: String, view_type: ViewType, slot: &'static str },
}

pub enum ViewsErrorView {
    DuplicateId { id: Seq<char> },
    MissingSlot { id: Seq<char>, view_type: ViewType, slot: Seq<char> },
}

impl View for ViewsValidationError {
    type V = ViewsErrorView;

    open spec fn view(&self) -> ViewsErrorView {
        match self {
            ViewsValidationError::DuplicateId { id } => ViewsErrorView::DuplicateId { id: id@ },
            ViewsValidationError::MissingSlot { id, view_type, slot } => ViewsErrorView::MissingSlot {
                id: id@,
                view_type: *view_type,
                slot: slot@,
            },
        }
    }
}

pub open spec fn error_text(error: ViewsErrorView) -> Seq<char> {
    match error {
        ViewsErrorView::DuplicateId { id } => "view '"@ + id + "' is declared more than once"@,
        ViewsErrorView::MissingSlot { id, view_type, slot } => "view '"@ + id + "' (type "@
            + view_type_text(view_type) + "): missing required slot '"@ + slot + "'"@,
    }
}

impl ViewsValidationError {
    /// The error's display form.
    pub fn to_text(&self) -> (r: String)
        ensures
            r@ == error_text(self@),
    {
        match self {
            ViewsValidationError::DuplicateId { id } => {
                let head = concat("view '", id.as_str());
                concat(head.as_str(), "' is declared more than once")
            },
            ViewsValidationError::MissingSlot { id, view_type, slot } => {
                let head = concat("view '", id.as_str());
                let opened = concat(head.as_str(), "' (type ");
                let typed = concat(opened.as_str(), view_type.name());
                let middle = concat(typed.as_str(), "): missing required slot '");
                let named = concat(middle.as_str(), slot);
                concat(named.as_str(), "'")
            },
        }
    }
}

// ── Checking one view ───────────────────────────────────────────────

/// The slots a view's type requires, in the order they are checked, each
/// with whether the raw view sets it.
pub open spec fn required_slots(raw: RawView) -> Seq<(Seq<char>, bool)> {
    match raw.view_type {
        ViewType::Board => seq![("field"@, raw.field is Some)],
        ViewType::Tree => seq![("field"@, raw.field is Some)],
        ViewType::Graph => seq![("field"@, raw.field is Some)],
        ViewType::Table => seq![("columns"@, raw.columns is Some)],
        ViewType::Gantt => seq![("start"@, raw.start is Some)],
        ViewType::GanttByInitiative => seq![
            ("start"@, raw.start is Some),
            ("root_link"@, raw.root_link is Some),
        ],
        ViewType::GanttByDepth => seq![
            ("start"@, raw.start is Some),
            ("depth_link"@, raw.depth_link is Some),
        ],
        ViewType::BarChart => seq![
            ("group_by"@, raw.group_by is Some),
            ("aggregate"@, raw.aggregate is Some),
        ],
        ViewType::LineChart => seq![("x"@, raw.x is Some), ("y"@, raw.y is Some)],
        ViewType::Workload => seq![
            ("start"@, raw.start is Some),
            ("end"@, raw.end is Some),
            ("effort"@, raw.effort is Some),
        ],
        ViewType::Metric => seq![("metrics"@, raw.metrics is Some)],
        ViewType::Treemap => seq![("group"@, raw.group is Some), ("size"@, raw.size is Some)],
        ViewType::Heatmap => seq![
            ("x"@, raw.x is Some),
            ("y"@, raw.y is Some),
            ("aggregate"@, raw.aggregate is Some),
        ],
    }
}

/// The first required slot that is not set.
pub open spec fn first_missing(slots: Seq<(Seq<char>, bool)>) -> Option<Seq<char>>
    decreases slots.len(),
{
    if slots.len() == 0 {
        None
    } else if !slots[0].1 {
        Some(slots[0].0)
    } else {
        first_missing(slots.drop_first())
    }
}

/// Whether `kind` is the typed form of `raw`: the variant of its type,
/// each slot carried over as written.
pub open spec fn kind_of(raw: RawView, kind: ViewKind) -> bool {
    match raw.view_type {
        ViewType::Board => kind == ViewKind::Board { field: raw.field->0 },
        ViewType::Tree => kind == ViewKind::Tree { field: raw.field->0 },
        ViewType::Graph => kind == ViewKind::Graph { field: raw.field->0, group_by: raw.group_by },
        ViewType::Table => kind == ViewKind::Table { columns: raw.columns->0 },
        ViewType::Gantt => kind == ViewKind::Gantt {
            start: raw.start->0,
            end: raw.end,
            duration: raw.duration,
            after: raw.after,
            group: raw.group,
        },
        ViewType::GanttByInitiative => kind == ViewKind::GanttByInitiative {
            start: raw.start->0,
            end: raw.end,
            duration: raw.duration,
            after: raw.after,
            root_link: raw.root_link->0,
        },
        ViewType::GanttByDepth => kind == ViewKind::GanttByDepth {
            start: raw.start->0,
            end: raw.end,
            duration: raw.duration,
            after: raw.after,
            depth_link: raw.depth_link->0,
        },
        ViewType::BarChart => kind == ViewKind::BarChart {
            group_by: raw.group_by->0,
            aggregate: raw.aggregate->0,
            value: raw.value,
        },
        ViewType::LineChart => kind == ViewKind::LineChart { x: raw.x->0, y: raw.y->0, group: raw.group },
        ViewType::Workload => kind == ViewKind::Workload {
            start: raw.start->0,
            end: raw.end->0,
            effort: raw.effort->0,
            working_days: raw.working_days,
        },
        ViewType::Metric => kind == ViewKind::Metric { metrics: raw.metrics->0 },
        ViewType::Treemap => kind == ViewKind::Treemap { group: raw.group->0, size: raw.size->0 },
        ViewType::Heatmap => kind == ViewKind::Heatmap {
            x: raw.x->0,
            y: raw.y->0,
            aggregate: raw.aggregate->0,
            value: raw.value,
            bucket: raw.bucket,
        },
    }
}

/// Whether `view` is the checked form of `raw`.
pub open spec fn view_of(raw: RawView, view: ViewConfig) -> bool {
    &&& view.id == raw.id
    &&& view.where_clauses == raw.where_clauses
    &&& view.title == raw.title
    &&& kind_of(raw, view.kind)
}

fn missing_slot(id: &String, view_type: ViewType, slot: &'static str) -> (r: ViewsValidationError)
    ensures
        r@ == (ViewsErrorView::MissingSlot { id: id@, view_type, slot: slot@ }),
{
    ViewsValidationError::MissingSlot { id: id.clone(), view_type, slot }
}

/// Check one raw view: its type's required slots must all be set.
pub fn convert_view(raw: RawView) -> (r: Result<ViewConfig, ViewsValidationError>)
    ensures
        match r {
            Ok(view) => first_missing(required_slots(raw)) is None && view_of(raw, view),
            Err(error) => first_missing(required_slots(raw)) matches Some(slot) && error@
                == (ViewsErrorView::MissingSlot { id: raw.id@, view_type: raw.view_type, slot }),
        },
{
    proof {
        reveal_with_fuel(first_missing, 4);
    }
    let view_type = raw.view_type;
    let kind = match view_type {
        ViewType::Board => match raw.field {
            Some(field) => ViewKind::Board { field },
            None => return Err(missing_slot(&raw.id, view_type, "field")),
        },
        ViewType::Tree => match raw.field {
            Some(field) => ViewKind::Tree { field },
            None => return Err(missing_slot(&raw.id, view_type, "field")),
        },
        ViewType::Graph => match raw.field {
            Some(field) => ViewKind::Graph { field, group_by: raw.group_by },
            None => return Err(missing_slot(&raw.id, view_type, "field")),
        },
        ViewType::Table => match raw.columns {
            Some(columns) => ViewKind::Table { columns },
            None => return Err(missing_slot(&raw.id, view_type, "columns")),
        },
        ViewType::Gantt => match raw.start {
            Some(start) => ViewKind::Gantt {
                start,
                end: raw.end,
                duration: raw.duration,
                after: raw.after,
                group: raw.group,
            },
            None => return Err(missing_slot(&raw.id, view_type, "start")),
        },
        ViewType::GanttByInitiative => {
            let start = match raw.start {
                Some(start) => start,
                None => return Err(missing_slot(&raw.id, view_type, "start")),
            };
            let root_link = match raw.root_link {
                Some(root_link) => root_link,
                None => return Err(missing_slot(&raw.id, view_type, "root_link")),
            };
            ViewKind::GanttByInitiative {
                start,
                end: raw.end,
                duration: raw.duration,
                after: raw.after,
                root_link,
            }
        },
        ViewType::GanttByDepth => {
            let start = match raw.start {
                Some(start) => start,
                None => return Err(missing_slot(&raw.id, view_type, "start")),
            };
            let depth_link = match raw.depth_link {
                Some(depth_link) => depth_link,
                None => return Err(missing_slot(&raw.id, view_type, "depth_link")),
            };
            ViewKind::GanttByDepth {
                start,
                end: raw.end,
                duration: raw.duration,
                after: raw.after,
                depth_link,
            }
        },
        ViewType::BarChart => {
            let group_by = match raw.group_by {
                Some(group_by) => group_by,
                None => return Err(missing_slot(&raw.id, view_type, "group_by")),
            };
            let aggregate = match raw.aggregate {
                Some(aggregate) => aggregate,
                None => return Err(missing_slot(&raw.id, view_type, "aggregate")),
            };
            ViewKind::BarChart { group_by, aggregate, value: raw.value }
        },
        ViewType::LineChart => {
            let x = match raw.x {
                Some(x) => x,
                None => return Err(missing_slot(&raw.id, view_type, "x")),
            };
            let y = match raw.y {
                Some(y) => y,
                None => return Err(missing_slot(&raw.id, view_type, "y")),
            };
            ViewKind::LineChart { x, y, group: raw.group }
        },
        ViewType::Workload => {
            let start = match raw.start {
                Some(start) => start,
                None => return Err(missing_slot(&raw.id, view_type, "start")),
            };
            let end = match raw.end {
                Some(end) => end,
                None => return Err(missing_slot(&raw.id, view_type, "end")),
            };
            let effort = match raw.effort {
                Some(effort) => effort,
                None => return Err(missing_slot(&raw.id, view_type, "effort")),
            };
            ViewKind::Workload { start, end, effort, working_days: raw.working_days }
        },
        ViewType::Metric => match raw.metrics {
            Some(metrics) => ViewKind::Metric { metrics },
            None => return Err(missing_slot(&raw.id, view_type, "metrics")),
        },
        ViewType::Treemap => {
            let group = match raw.group {
                Some(group) => group,
                None => return Err(missing_slot(&raw.id, view_type, "group")),
            };
            let size = match raw.size {
                Some(size) => size,
                None => return Err(missing_slot(&raw.id, view_type, "size")),
            };
            ViewKind::Treemap { group, size }
        },
        ViewType::Heatmap => {
            let x = match raw.x {
                Some(x) => x,
                None => return Err(missing_slot(&raw.id, view_type, "x")),
            };
            let y = match raw.y {
                Some(y) => y,
                None => return Err(missing_slot(&raw.id, view_type, "y")),
            };
            let aggregate = match raw.aggregate {
                Some(aggregate) => aggregate,
                None => return Err(missing_slot(&raw.id, view_type, "aggregate")),
            };
            ViewKind::Heatmap { x, y, aggregate, value: raw.value, bucket: raw.bucket }
        },
    };
    Ok(ViewConfig { id: raw.id, where_clauses: raw.where_clauses, title: raw.title, kind })
}

// ── Checking a views file ───────────────────────────────────────────

/// Whether a view before position `i` has the id of the view at `i`.
pub open spec fn declared_before(views: Seq<RawView>, i: int) -> bool {
    exists|j: int| 0 <= j < i && (#[trigger] views[j]).id@ == views[i].id@
}

/// The errors of the first `n` views, in order: a repeated id, or the first
/// missing slot of a view whose id is new.
pub open spec fn view_errors(views: Seq<RawView>, n: int) -> Seq<ViewsErrorView>
    decreases n,
{
    if n <= 0 {
        Seq::empty()
    } else {
        let i = n - 1;
        view_errors(views, i) + if declared_before(views, i) {
            seq![ViewsErrorView::DuplicateId { id: views[i].id@ }]
        } else {
            match first_missing(required_slots(views[i])) {
                Some(slot) => seq![
                    ViewsErrorView::MissingSlot { id: views[i].id@, view_type: views[i].view_type, slot },
                ],
                None => Seq::empty(),
            }
        }
    }
}

/// The positions of the first `n` views that check out.
pub open spec fn kept_views(views: Seq<RawView>, n: int) -> Seq<int>
    decreases n,
{
    if n <= 0 {
        Seq::empty()
    } else {
        let i = n - 1;
        if !declared_before(views, i) && first_missing(required_slots(views[i])) is None {
            kept_views(views, i).push(i)
        } else {
            kept_views(views, i)
        }
    }
}

pub open spec fn errors_view(errors: Seq<ViewsValidationError>) -> Seq<ViewsErrorView> {
    errors.map_values(|e: ViewsValidationError| e@)
}

/// Where views are rendered when the file names no directory.
pub open spec fn output_dir_of(directory: Option<String>) -> Seq<char> {
    match directory {
        Some(dir) => dir@,
        None => "views"@,
    }
}

/// Check a views file as written. Every problem is reported at once; when
/// there is none, the checked views come in file order.
pub fn validate_views(file: RawViewsFile) -> (r: Result<Views, Vec<ViewsValidationError>>)
    ensures
        match r {
            Ok(views) => {
                &&& view_errors(file.views@, file.views@.len() as int).len() == 0
                &&& views.output_dir@ == output_dir_of(file.directory)
                &&& views.views@.len() == kept_views(file.views@, file.views@.len() as int).len()
                &&& forall|k: int|
                    0 <= k < views.views@.len() ==> view_of(
                        file.views@[kept_views(file.views@, file.views@.len() as int)[k]],
                        #[trigger] views.views@[k],
                    )
            },
            Err(errors) => view_errors(file.views@, file.views@.len() as int).len() > 0
                && errors_view(errors@) == view_errors(file.views@, file.views@.len() as int),
        },
{
    let ghost input = file.views@;
    let mut errors: Vec<ViewsValidationError> = Vec::new();
    let mut seen: Vec<String> = Vec::new();
    let mut views: Vec<ViewConfig> = Vec::new();
    let mut rest = file.views;
    let total = rest.len();
    let mut done: usize = 0;
    assert(rest@ =~= input.subrange(0, input.len() as int));
    while rest.len() > 0
        invariant
            total == input.len(),
            done + rest@.len() == input.len(),
            rest@ == input.subrange(done as int, input.len() as int),
            seen@.len() == done,
            forall|j: int| 0 <= j < done ==> (#[trigger] seen@[j])@ == input[j].id@,
            errors_view(errors@) == view_errors(input, done as int),
            views@.len() == kept_views(input, done as int).len(),
            forall|k: int|
                0 <= k < views@.len() ==> view_of(input[kept_views(input, done as int)[k]], #[trigger] views@[k]),
        decreases rest@.len(),
    {
        let raw = rest.remove(0);
        assert(raw == input[done as int]);
        proof {
            assert(rest@ =~= input.subrange(done + 1, input.len() as int));
        }
        let mut duplicate = false;
        let mut j: usize = 0;
        while j < seen.len()
            invariant
                j <= seen@.len(),
                seen@.len() == done,
                done < input.len(),
                raw == input[done as int],
                forall|q: int| 0 <= q < done ==> (#[trigger] seen@[q])@ == input[q].id@,
                duplicate <==> exists|q: int| 0 <= q < j && (#[trigger] input[q]).id@ == raw.id@,
            decreases seen@.len() - j,
        {
            if str_eq(seen[j].as_str(), raw.id.as_str()) {
                assert(input[j as int].id@ == raw.id@);
                duplicate = true;
            }
            j = j + 1;
        }
        assert(duplicate == declared_before(input, done as int));
        seen.push(raw.id.clone());
        let ghost errors_before = errors_view(errors@);
        let ghost kept_before = kept_views(input, done as int);
        if duplicate {
            errors.push(ViewsValidationError::DuplicateId { id: raw.id.clone() });
            assert(errors_view(errors@) =~= errors_before.push(errors@.last()@));
        } else {
            match convert_view(raw) {
                Ok(view) => {
                    views.push(view);
                    assert(errors_view(errors@) =~= errors_before + Seq::<ViewsErrorView>::empty());
                    proof {
                        let kept = kept_views(input, done + 1);
                        assert(kept == kept_before.push(done as int));
                        assert forall|k: int| 0 <= k < views@.len() implies view_of(
                            input[kept[k]],
                            #[trigger] views@[k],
                        ) by {
                            if k < views@.len() - 1 {
                                assert(kept[k] == kept_before[k]);
                            }
                        }
                    }
                },
                Err(error) => {
                    errors.push(error);
                    assert(errors_view(errors@) =~= errors_before.push(errors@.last()@));
                },
            }
        }
        done = done + 1;
    }
    if errors.len() > 0 {
        return Err(errors);
    }
    let output_dir = match file.directory {
        Some(dir) => dir,
        None => "views".to_owned(),
    };
    Ok(Views { output_dir, views })
}

/// The display form of a failed check: one `  - error` line per error.
pub open spec fn errors_text(errors: Seq<ViewsErrorView>) -> Seq<char> {
    join(errors.map_values(|e: ViewsErrorView| "  - "@ + error_text(e)), "\n"@)
}

/// Format all validation errors, one per line.
pub fn format_errors(errors: &[ViewsValidationError]) -> (r: String)
    ensures
        r@ == errors_text(errors@.map_values(|e: ViewsValidationError| e@)),
{
    let ghost views = errors@.map_values(|e: ViewsValidationError| e@);
    let ghost f = |e: ViewsErrorView| "  - "@ + error_text(e);
    let mut lines: Vec<String> = Vec::new();
    let mut i: usize = 0;
    while i < errors.len()
        invariant
            i <= errors@.len(),
            views == errors@.map_values(|e: ViewsValidationError| e@),
            f == (|e: ViewsErrorView| "  - "@ + error_text(e)),
            lines@.map_values(|p: String| p@) == views.take(i as int).map_values(f),
        decreases errors@.len() - i,
    {
        let line = concat("  - ", errors[i].to_text().as_str());
        let ghost before = lines@;
        lines.push(line);
        proof {
            assert(views.take(i + 1) =~= views.take(i as int).push(views[i as int]));
            assert(lines@.map_values(|p: String| p@) =~= before.map_values(|p: String| p@).push(line@));
            assert(views.take(i + 1).map_values(f) =~= views.take(i as int).map_values(f).push(
                f(views[i as int]),
            ));
        }
        i = i + 1;
    }
    assert(views.take(errors@.len() as int) =~= views);
    join_strings(lines.as_slice(), "\n")
}

// ── Laws ────────────────────────────────────────────────────────────

proof fn lemma_no_view_errors_each(views: Seq<RawView>, n: int, k: int)
    requires
        0 <= k < n,
        view_errors(views, n).len() == 0,
    ensures
        !declared_before(views, k),
        first_missing(required_slots(views[k])) is None,
    decreases n,
{
    if k < n - 1 {
        lemma_no_view_errors_each(views, n - 1, k);
    }
}

/// A views file the check accepts declares every id once, and every view
/// in it has all the slots its type requires.
pub proof fn law_accepted_views_are_complete_and_distinct(views: Seq<RawView>, i: int, j: int)
    requires
        view_errors(views, views.len() as int).len() == 0,
        0 <= i < views.len(),
        0 <= j < views.len(),
        i != j,
    ensures
        views[i].id@ != views[j].id@,
        first_missing(required_slots(views[i])) is None,
{
    lemma_no_view_errors_each(views, views.len() as int, i);
    if i < j {
        lemma_no_view_errors_each(views, views.len() as int, j);
    }
}


/// A checked view keeps everything its raw form says: its id, filters and
/// title, the variant of its type, each required slot with the value
/// written, and each optional slot exactly as written (set or not).
pub proof fn law_checked_views_keep_every_slot(raw: RawView, view: ViewConfig)
    requires
        first_missing(required_slots(raw)) is None,
        view_of(raw, view),
    ensures
        view.id == raw.id,
        view.where_clauses == raw.where_clauses,
        view.title == raw.title,
        raw.view_type == ViewType::Board ==> (view.kind matches ViewKind::Board { field } && raw.field == Some(field)),
        raw.view_type == ViewType::Tree ==> (view.kind matches ViewKind::Tree { field } && raw.field == Some(field)),
        raw.view_type == ViewType::Graph ==> (view.kind matches ViewKind::Graph { field, group_by } && raw.field == Some(
            field,
        ) && group_by == raw.group_by),
        raw.view_type == ViewType::Table ==> (view.kind matches ViewKind::Table { columns } && raw.columns == Some(columns)),
        raw.view_type == ViewType::Gantt ==> (view.kind matches ViewKind::Gantt { start, end, duration, after, group }
            && raw.start == Some(start) && end == raw.end && duration == raw.duration && after == raw.after && group
            == raw.group),
        raw.view_type == ViewType::GanttByInitiative ==> (view.kind matches ViewKind::GanttByInitiative {
            start,
            end,
            duration,
            after,
            root_link,
        } && raw.start == Some(start) && end == raw.end && duration == raw.duration && after == raw.after
            && raw.root_link == Some(root_link)),
        raw.view_type == ViewType::GanttByDepth ==> (view.kind matches ViewKind::GanttByDepth {
            start,
            end,
            duration,
            after,
            depth_link,
        } && raw.start == Some(start) && end == raw.end && duration == raw.duration && after == raw.after
            && raw.depth_link == Some(depth_link)),
        raw.view_type == ViewType::BarChart ==> (view.kind matches ViewKind::BarChart { group_by, aggregate, value }
            && raw.group_by == Some(group_by) && raw.aggregate == Some(aggregate) && value == raw.value),
        raw.view_type == ViewType::LineChart ==> (view.kind matches ViewKind::LineChart { x, y, group } && raw.x == Some(x)
            && raw.y == Some(y) && group == raw.group),
        raw.view_type == ViewType::Workload ==> (view.kind matches ViewKind::Workload { start, end, effort, working_days }
            && raw.start == Some(start) && raw.end == Some(end) && raw.effort == Some(effort) && working_days
            == raw.working_days),
        raw.view_type == ViewType::Metric ==> (view.kind matches ViewKind::Metric { metrics } && raw.metrics == Some(metrics)),
        raw.view_type == ViewType::Treemap ==> (view.kind matches ViewKind::Treemap { group, size } && raw.group == Some(
            group,
        ) && raw.size == Some(size)),
        raw.view_type == ViewType::Heatmap ==> (view.kind matches ViewKind::Heatmap { x, y, aggregate, value, bucket }
            && raw.x == Some(x) && raw.y == Some(y) && raw.aggregate == Some(aggregate) && value == raw.value && bucket
            == raw.bucket),
{
    reveal_with_fuel(first_missing, 4);
}
} // verus!
