//! What a blank required field is reported as, once every fill mechanism
//! has had its chance: the cause a mechanism can name (a computed field's
//! absent inputs, a pull's incomplete link targets, a conditional field's
//! unmatched branches), or the plain missing-required finding.
//!
//! What the expression evaluator knows (which inputs a computed or
//! conditional field lacks on the item) is handed in as plain values.

use vstd::prelude::*;

use crate::derive::{conversion_failed, link_targets, missing_inputs, spec_conversion_failed};
use crate::diagnostic::{
    diagnostic_views, item_diagnostic, Diagnostic, DiagnosticBodyView, DiagnosticView, ItemDiagnosticKind, ItemKindView,
};
use crate::model::{ids_of, lemma_index_of_name, texts_of, Severity, WorkItem, WorkItemId};
use crate::store::{find_item, item_ids, targets_of};
use crate::text::concat;

verus! {

/// A way a field can be filled.
#[derive(Debug, Clone, Copy, PartialEq, Eq, Structural)]
pub enum FillMechanism {
    Compute,
    Pull,
    When,
    Aggregate,
}

/// A pull as the required check needs it.
#[derive(Debug, Clone)]
pub struct PullSource {
    pub over: String,
    pub field: String,
    pub error_on_missing: bool,
}

/// A required field and how it could have been filled.
#[derive(Debug, Clone)]
pub struct RequiredField {
    pub name: String,
    /// Its derivation config failed the schema-level check and never ran.
    pub disabled: bool,
    /// Its fill mechanisms, in the order their causes are tried.
    pub mechanisms: Vec<FillMechanism>,
    /// The link an aggregate on the field rolls up over.
    pub aggregate_over: Option<String>,
    pub pull: Option<PullSource>,
}

/// What the check concluded about one blank required field.
pub enum Finding {
    /// Report this against the item.
    Report(ItemDiagnosticKind),
    /// An earlier pass already reported the same cause against the item.
    AlreadyReported,
}

pub enum FindingView {
    Report(ItemKindView),
    AlreadyReported,
}

impl View for Finding {
    type V = FindingView;

    open spec fn view(&self) -> FindingView {
        match self {
            Finding::Report(kind) => FindingView::Report(kind@),
            Finding::AlreadyReported => FindingView::AlreadyReported,
        }
    }
}

/// The cause one mechanism names, if it has one.
pub open spec fn mechanism_cause(
    mechanism: FillMechanism,
    field: RequiredField,
    item: WorkItem,
    items: Seq<WorkItem>,
    compute_missing: Seq<Seq<char>>,
    when_missing: Seq<Seq<char>>,
) -> Option<FindingView> {
    match mechanism {
        FillMechanism::Aggregate => None,
        FillMechanism::Compute => if compute_missing.len() > 0 {
            Some(
                FindingView::Report(
                    ItemKindView::ComputeMissingInputs { field: field.name@, missing_inputs: compute_missing },
                ),
            )
        } else {
            None
        },
        FillMechanism::Pull => match field.pull {
            Some(pull) => {
                let missing = missing_inputs(items, link_targets(item, pull.over@), pull.field@);
                if missing.len() == 0 {
                    None
                } else if pull.error_on_missing {
                    Some(FindingView::AlreadyReported)
                } else {
                    Some(
                        FindingView::Report(
                            ItemKindView::PullMissingInputs { field: field.name@, missing_inputs: missing },
                        ),
                    )
                }
            },
            None => None,
        },
        FillMechanism::When => Some(
            FindingView::Report(ItemKindView::WhenUnmatched { field: field.name@, missing_inputs: when_missing }),
        ),
    }
}

/// The first cause among `mechanisms`, front to back.
pub open spec fn first_cause(
    mechanisms: Seq<FillMechanism>,
    field: RequiredField,
    item: WorkItem,
    items: Seq<WorkItem>,
    compute_missing: Seq<Seq<char>>,
    when_missing: Seq<Seq<char>>,
) -> Option<FindingView>
    decreases mechanisms.len(),
{
    if mechanisms.len() == 0 {
        None
    } else {
        match mechanism_cause(mechanisms[0], field, item, items, compute_missing, when_missing) {
            Some(finding) => Some(finding),
            None => first_cause(mechanisms.skip(1), field, item, items, compute_missing, when_missing),
        }
    }
}

pub open spec fn fills_on_the_item(mechanism: FillMechanism) -> bool {
    mechanism == FillMechanism::Compute || mechanism == FillMechanism::Pull || mechanism == FillMechanism::When
}

/// Some mechanism fills the field on the item itself (compute, pull or
/// when).
pub open spec fn has_item_filler(mechanisms: Seq<FillMechanism>) -> bool {
    exists|i: int| 0 <= i < mechanisms.len() && fills_on_the_item(#[trigger] mechanisms[i])
}

/// What a blank required field is reported as: the plain finding when its
/// config never ran, or when it aggregates and the item is not a leaf (the
/// same-item and pull passes never run there); else the first cause a
/// mechanism names; else the plain finding.
pub open spec fn spec_finding(
    field: RequiredField,
    item: WorkItem,
    items: Seq<WorkItem>,
    is_leaf: bool,
    compute_missing: Seq<Seq<char>>,
    when_missing: Seq<Seq<char>>,
) -> FindingView {
    let generic = FindingView::Report(ItemKindView::MissingRequired { field: field.name@ });
    let mechanisms = field.mechanisms@;
    if field.disabled {
        generic
    } else if has_item_filler(mechanisms) && field.aggregate_over is Some && !is_leaf {
        generic
    } else {
        match first_cause(mechanisms, field, item, items, compute_missing, when_missing) {
            Some(finding) => finding,
            None => generic,
        }
    }
}

/// The pull's link targets that have no source value, as `target.field`.
pub fn pull_missing_inputs(item: &WorkItem, over: &str, field: &str, items: &Vec<WorkItem>) -> (r: Vec<String>)
    ensures
        texts_of(r@) == missing_inputs(items@, link_targets(*item, over@), field@),
{
    let targets = match item.fields.get(over) {
        Some(value) => targets_of(value),
        None => Vec::new(),
    };
    let ghost target_views = ids_of(targets@);
    assert(target_views == link_targets(*item, over@)) by {
        if item.fields.lookup(over@) is None {
            assert(ids_of(targets@) =~= Seq::<Seq<char>>::empty());
        }
    }
    let mut missing: Vec<String> = Vec::new();
    let mut t: usize = 0;
    while t < targets.len()
        invariant
            t <= targets@.len(),
            target_views == ids_of(targets@),
            texts_of(missing@) == missing_inputs(items@, target_views.take(t as int), field@),
        decreases targets@.len() - t,
    {
        let ghost before = texts_of(missing@);
        proof {
            assert(target_views.take(t + 1).drop_last() =~= target_views.take(t as int));
            assert(target_views.take(t + 1).last() == targets@[t as int]@);
            lemma_index_of_name(item_ids(items@), targets@[t as int]@);
        }
        let present = match find_item(items, targets[t].as_str()) {
            Some(i) => {
                assert(item_ids(items@)[i as int] == items@[i as int].id@);
                items[i].fields.contains_key(field)
            },
            None => false,
        };
        if present {
            assert(texts_of(missing@) =~= before + Seq::<Seq<char>>::empty());
        } else {
            let name = concat(targets[t].as_str(), ".");
            let name = concat(name.as_str(), field);
            missing.push(name);
            assert(texts_of(missing@) =~= before.push(name@));
        }
        t = t + 1;
    }
    assert(target_views.take(targets@.len() as int) =~= target_views);
    missing
}

fn copy_texts(values: &Vec<String>) -> (r: Vec<String>)
    ensures
        texts_of(r@) == texts_of(values@),
{
    let mut out: Vec<String> = Vec::new();
    let mut i: usize = 0;
    while i < values.len()
        invariant
            i <= values@.len(),
            texts_of(out@) == texts_of(values@).take(i as int),
        decreases values@.len() - i,
    {
        let ghost before = texts_of(out@);
        out.push(values[i].clone());
        assert(texts_of(out@) =~= before.push(values@[i as int]@));
        assert(texts_of(values@).take(i + 1) =~= texts_of(values@).take(i as int).push(values@[i as int]@));
        i = i + 1;
    }
    assert(texts_of(values@).take(values@.len() as int) =~= texts_of(values@));
    out
}

/// Decide what one blank required field of `item` is reported as.
/// `is_leaf` says whether the item has no children along the field's
/// aggregate link; `compute_missing` and `when_missing` are the inputs the
/// field's expression or conditions lack on the item.
pub fn finding(
    item: &WorkItem,
    items: &Vec<WorkItem>,
    field: &RequiredField,
    is_leaf: bool,
    compute_missing: &Vec<String>,
    when_missing: &Vec<String>,
) -> (r: Finding)
    ensures
        r@ == spec_finding(*field, *item, items@, is_leaf, texts_of(compute_missing@), texts_of(when_missing@)),
{
    let generic = Finding::Report(ItemDiagnosticKind::MissingRequired { field: field.name.clone() });
    if field.disabled {
        return generic;
    }
    let mut has_same_item_or_pull = false;
    let mut i: usize = 0;
    while i < field.mechanisms.len()
        invariant
            i <= field.mechanisms@.len(),
            has_same_item_or_pull == exists|k: int| 0 <= k < i && fills_on_the_item(#[trigger] field.mechanisms@[k]),
        decreases field.mechanisms@.len() - i,
    {
        let m = field.mechanisms[i];
        if m == FillMechanism::Compute || m == FillMechanism::Pull || m == FillMechanism::When {
            has_same_item_or_pull = true;
        }
        i = i + 1;
    }
    if has_same_item_or_pull && field.aggregate_over.is_some() && !is_leaf {
        return generic;
    }
    let ghost ms = field.mechanisms@;
    let ghost cm = texts_of(compute_missing@);
    let ghost wm = texts_of(when_missing@);
    let mut j: usize = 0;
    assert(ms.skip(0) =~= ms);
    while j < field.mechanisms.len()
        invariant
            j <= ms.len(),
            ms == field.mechanisms@,
            cm == texts_of(compute_missing@),
            wm == texts_of(when_missing@),
            first_cause(ms, *field, *item, items@, cm, wm) == first_cause(ms.skip(j as int), *field, *item, items@, cm, wm),
            !field.disabled,
            !(has_item_filler(ms) && field.aggregate_over is Some && !is_leaf),
        decreases ms.len() - j,
    {
        let m = field.mechanisms[j];
        let ghost rest = ms.skip(j as int);
        proof {
            assert(rest.len() > 0);
            assert(rest[0] == m);
            assert(rest.skip(1) =~= ms.skip(j + 1));
            assert(first_cause(rest, *field, *item, items@, cm, wm) == match mechanism_cause(m, *field, *item, items@, cm, wm) {
                Some(finding) => Some(finding),
                None => first_cause(ms.skip(j + 1), *field, *item, items@, cm, wm),
            });
        }
        match m {
            FillMechanism::Aggregate => {},
            FillMechanism::Compute => {
                assert(cm.len() == compute_missing@.len());
                if compute_missing.len() > 0 {
                    let copied = copy_texts(compute_missing);
                    assert(texts_of(copied@) == cm);
                    assert(mechanism_cause(m, *field, *item, items@, cm, wm) == Some(FindingView::Report(
                        ItemKindView::ComputeMissingInputs { field: field.name@, missing_inputs: cm },
                    )));
                    assert(first_cause(ms, *field, *item, items@, cm, wm) == Some(FindingView::Report(
                        ItemKindView::ComputeMissingInputs { field: field.name@, missing_inputs: cm },
                    )));
                    let name = field.name.clone();
                    let result = Finding::Report(
                        ItemDiagnosticKind::ComputeMissingInputs { field: name, missing_inputs: copied },
                    );
                    assert(result@ == FindingView::Report(
                        ItemKindView::ComputeMissingInputs { field: field.name@, missing_inputs: cm },
                    ));
                    return result;
                }
            },
            FillMechanism::Pull => {
                if let Some(pull) = &field.pull {
                    let missing = pull_missing_inputs(item, pull.over.as_str(), pull.field.as_str(), items);
                    assert(texts_of(missing@).len() == missing@.len());
                    if missing.len() > 0 {
                        if pull.error_on_missing {
                            return Finding::AlreadyReported;
                        }
                        return Finding::Report(
                            ItemDiagnosticKind::PullMissingInputs { field: field.name.clone(), missing_inputs: missing },
                        );
                    }
                }
            },
            FillMechanism::When => {
                return Finding::Report(
                    ItemDiagnosticKind::WhenUnmatched { field: field.name.clone(), missing_inputs: copy_texts(when_missing) },
                );
            },
        }
        j = j + 1;
    }
    generic
}


// ── The check over every item ───────────────────────────────────────

/// What the fill passes leave to say about item `p`'s required field `f`:
/// whether the item is a leaf of the field's aggregate link, and the
/// inputs its expression or conditions lack there.
#[derive(Debug, Clone)]
pub struct BlankContext {
    pub is_leaf: bool,
    pub compute_missing: Vec<String>,
    pub when_missing: Vec<String>,
}

pub open spec fn missing_required_view(item: WorkItem, kind: ItemKindView) -> DiagnosticView {
    DiagnosticView {
        severity: Severity::Error,
        body: DiagnosticBodyView::Item { path: item.source_path@, item_id: item.id@, kind },
    }
}

/// The report, if any, of item `item`'s required field `field`.
pub open spec fn blank_report(
    item: WorkItem,
    items: Seq<WorkItem>,
    field: RequiredField,
    context: BlankContext,
    failures: Seq<(WorkItemId, Vec<String>)>,
) -> Seq<DiagnosticView> {
    if item.fields.has(field.name@) || spec_conversion_failed(failures, item.id@, field.name@) {
        Seq::empty()
    } else {
        match spec_finding(
            field,
            item,
            items,
            context.is_leaf,
            texts_of(context.compute_missing@),
            texts_of(context.when_missing@),
        ) {
            FindingView::Report(kind) => seq![missing_required_view(item, kind)],
            FindingView::AlreadyReported => Seq::empty(),
        }
    }
}

/// The reports of the first `n` required fields of item `p`.
pub open spec fn item_reports(
    items: Seq<WorkItem>,
    p: int,
    fields: Seq<RequiredField>,
    contexts: Seq<Vec<BlankContext>>,
    failures: Seq<(WorkItemId, Vec<String>)>,
    n: int,
) -> Seq<DiagnosticView>
    decreases n,
{
    if n <= 0 {
        Seq::empty()
    } else {
        item_reports(items, p, fields, contexts, failures, n - 1) + blank_report(
            items[p],
            items,
            fields[n - 1],
            contexts[p]@[n - 1],
            failures,
        )
    }
}

/// The reports of the first `k` items, item by item, field by field.
pub open spec fn all_reports(
    items: Seq<WorkItem>,
    fields: Seq<RequiredField>,
    contexts: Seq<Vec<BlankContext>>,
    failures: Seq<(WorkItemId, Vec<String>)>,
    k: int,
) -> Seq<DiagnosticView>
    decreases k,
{
    if k <= 0 {
        Seq::empty()
    } else {
        all_reports(items, fields, contexts, failures, k - 1) + item_reports(
            items,
            k - 1,
            fields,
            contexts,
            failures,
            fields.len() as int,
        )
    }
}

/// Check every required field on every item, once every fill mechanism
/// has had its chance: item first (in the order given), fields in schema
/// order. A field the item carries, or one coercion recorded as written
/// but invalid, is silent; otherwise the finding decides.
/// `contexts[p][f]` is what the fill passes leave to say about item `p`'s
/// field `f`.
pub fn check(
    items: &Vec<WorkItem>,
    fields: &Vec<RequiredField>,
    contexts: &Vec<Vec<BlankContext>>,
    failures: &Vec<(WorkItemId, Vec<String>)>,
) -> (r: Vec<Diagnostic>)
    requires
        contexts@.len() == items@.len(),
        forall|p: int| 0 <= p < contexts@.len() ==> (#[trigger] contexts@[p])@.len() == fields@.len(),
    ensures
        diagnostic_views(r@) == all_reports(items@, fields@, contexts@, failures@, items@.len() as int),
{
    let mut out: Vec<Diagnostic> = Vec::new();
    let mut p: usize = 0;
    while p < items.len()
        invariant
            p <= items@.len(),
            contexts@.len() == items@.len(),
            forall|q: int| 0 <= q < contexts@.len() ==> (#[trigger] contexts@[q])@.len() == fields@.len(),
            diagnostic_views(out@) == all_reports(items@, fields@, contexts@, failures@, p as int),
        decreases items@.len() - p,
    {
        let item = &items[p];
        let ghost item_base = diagnostic_views(out@);
        let mut f: usize = 0;
        while f < fields.len()
            invariant
                f <= fields@.len(),
                p < items@.len(),
                *item == items@[p as int],
                contexts@.len() == items@.len(),
                contexts@[p as int]@.len() == fields@.len(),
                diagnostic_views(out@) == item_base + item_reports(items@, p as int, fields@, contexts@, failures@, f as int),
            decreases fields@.len() - f,
        {
            let field = &fields[f];
            let context = &contexts[p][f];
            let ghost before = diagnostic_views(out@);
            if !item.fields.contains_key(field.name.as_str())
                && !conversion_failed(failures, item.id.as_str(), field.name.as_str()) {
                match finding(item, items, field, context.is_leaf, &context.compute_missing, &context.when_missing) {
                    Finding::Report(kind) => {
                        let diagnostic = item_diagnostic(Severity::Error, item.source_path.clone(), item.id.duplicate(), kind);
                        out.push(diagnostic);
                        assert(diagnostic_views(out@) =~= before.push(diagnostic@));
                    },
                    Finding::AlreadyReported => {
                        assert(diagnostic_views(out@) =~= before + Seq::<DiagnosticView>::empty());
                    },
                }
            } else {
                assert(diagnostic_views(out@) =~= before + Seq::<DiagnosticView>::empty());
            }
            f = f + 1;
        }
        assert(diagnostic_views(out@) =~= all_reports(items@, fields@, contexts@, failures@, p + 1));
        p = p + 1;
    }
    out
}

} // verus!
