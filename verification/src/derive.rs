//! The derive passes' plumbing over plain values: the evaluation order of
//! the (item, field) nodes, the guard that decides which slots a pass may
//! fill, the pull reduction, and the report of a dependency cycle that no
//! single link field explains.
//!
//! Nodes are numbered so that ascending node id is the evaluation
//! priority; an edge `(u, v)` says that node `u` must be evaluated before
//! node `v`. The walk is Kahn's: among the nodes whose inputs are all
//! evaluated, the smallest goes next. Nodes on a dependency loop never
//! become ready and are left out.

use vstd::prelude::*;
use vstd::arithmetic::div_mod::lemma_small_mod;

use crate::diagnostic::{
    diagnostic_views,    item_diagnostic, Diagnostic, DiagnosticBodyView, DiagnosticView, ItemDiagnosticKind, ItemKindView,
};
use crate::model::{
    ids_of, index_of_name, lemma_index_of_name, texts_of, FieldType, FieldValue, FieldValueView, Severity,
    WorkItem, WorkItemId,
};
use crate::rollup::{item_filled, apply_aggregate, copy_value, reduction, value_views, ReducedView, Reduction};
use crate::schema::AggregateFunction;
use crate::store::{field_targets, find_item, item_ids, targets_of};
use crate::text::{concat, contains_text, decimal, decimal_text, str_eq};

verus! {

// ── Scheduling ──────────────────────────────────────────────────────

/// Every input of `v` (every source of an edge into `v`) is in `done`.
pub open spec fn inputs_done(edges: Seq<(usize, usize)>, done: Seq<usize>, v: usize) -> bool {
    forall|e: int| 0 <= e < edges.len() && (#[trigger] edges[e]).1 == v ==> done.contains(edges[e].0)
}

/// `v` is ready after `done`: not evaluated yet, and all its inputs are.
pub open spec fn is_ready(edges: Seq<(usize, usize)>, done: Seq<usize>, v: usize) -> bool {
    !done.contains(v) && inputs_done(edges, done, v)
}

/// `order` is the walk over `n` nodes: every node in it was ready when
/// its turn came and was the smallest ready node then, and when the walk
/// stops no node is ready.
pub open spec fn kahn_order(n: nat, edges: Seq<(usize, usize)>, order: Seq<usize>) -> bool {
    &&& forall|k: int| 0 <= k < order.len() ==> (#[trigger] order[k]) < n
    &&& forall|k: int| 0 <= k < order.len() ==> is_ready(edges, order.take(k), #[trigger] order[k])
    &&& forall|k: int, v: usize|
        0 <= k < order.len() && v < order[k] ==> !#[trigger] is_ready(edges, order.take(k), v)
    &&& forall|v: usize| v < n ==> !#[trigger] is_ready(edges, order, v)
}

/// The number of `false` flags.
pub open spec fn count_false(flags: Seq<bool>) -> nat
    decreases flags.len(),
{
    if flags.len() == 0 {
        0
    } else {
        count_false(flags.drop_last()) + if flags.last() {
            0nat
        } else {
            1nat
        }
    }
}

proof fn lemma_count_false_set(flags: Seq<bool>, i: int)
    requires
        0 <= i < flags.len(),
        !flags[i],
    ensures
        count_false(flags.update(i, true)) + 1 == count_false(flags),
    decreases flags.len(),
{
    let after = flags.update(i, true);
    if i == flags.len() - 1 {
        assert(after.drop_last() =~= flags.drop_last());
    } else {
        assert(after.drop_last() =~= flags.drop_last().update(i, true));
        lemma_count_false_set(flags.drop_last(), i);
    }
}

fn ready_exec(edges: &Vec<(usize, usize)>, done: &Vec<bool>, v: usize) -> (r: bool)
    requires
        v < done@.len(),
        forall|e: int| 0 <= e < edges@.len() ==> (#[trigger] edges@[e]).0 < done@.len(),
    ensures
        r == (!done@[v as int] && forall|e: int|
            0 <= e < edges@.len() && (#[trigger] edges@[e]).1 == v ==> done@[edges@[e].0 as int]),
{
    if done[v] {
        return false;
    }
    let mut e: usize = 0;
    while e < edges.len()
        invariant
            e <= edges@.len(),
            v < done@.len(),
            forall|f: int| 0 <= f < edges@.len() ==> (#[trigger] edges@[f]).0 < done@.len(),
            forall|f: int| 0 <= f < e && (#[trigger] edges@[f]).1 == v ==> done@[edges@[f].0 as int],
        decreases edges@.len() - e,
    {
        let (from, to) = edges[e];
        if to == v && !done[from] {
            return false;
        }
        e = e + 1;
    }
    true
}

/// The evaluation order of `node_count` nodes under `edges`: repeatedly
/// the smallest node whose inputs are all evaluated. Nodes that wait on a
/// dependency loop are never reached and do not appear.
pub fn schedule(node_count: usize, edges: &Vec<(usize, usize)>) -> (order: Vec<usize>)
    requires
        forall|e: int| 0 <= e < edges@.len() ==> (#[trigger] edges@[e]).0 < node_count && edges@[e].1
            < node_count,
    ensures
        kahn_order(node_count as nat, edges@, order@),
{
    let mut done: Vec<bool> = Vec::new();
    let mut i: usize = 0;
    while i < node_count
        invariant
            i <= node_count,
            done@.len() == i,
            forall|w: int| 0 <= w < i ==> !(#[trigger] done@[w]),
            count_false(done@) == i,
        decreases node_count - i,
    {
        let ghost before = done@;
        done.push(false);
        assert(done@.drop_last() =~= before);
        i = i + 1;
    }
    let mut order: Vec<usize> = Vec::new();
    loop
        invariant
            done@.len() == node_count,
            forall|e: int| 0 <= e < edges@.len() ==> (#[trigger] edges@[e]).0 < node_count && edges@[e].1
                < node_count,
            forall|w: usize| w < node_count ==> (#[trigger] done@[w as int]) == order@.contains(w),
            order@.len() + count_false(done@) == node_count,
            forall|k: int| 0 <= k < order@.len() ==> (#[trigger] order@[k]) < node_count,
            forall|k: int| 0 <= k < order@.len() ==> is_ready(edges@, order@.take(k), #[trigger] order@[k]),
            forall|k: int, v: usize|
                0 <= k < order@.len() && v < order@[k] ==> !#[trigger] is_ready(edges@, order@.take(k), v),
        ensures
            kahn_order(node_count as nat, edges@, order@),
        decreases count_false(done@),
    {
        // The smallest ready node, if any.
        let mut v: usize = 0;
        let mut found = false;
        while v < node_count
            invariant_except_break
                !found,
            invariant
                v <= node_count,
                done@.len() == node_count,
                forall|e: int| 0 <= e < edges@.len() ==> (#[trigger] edges@[e]).0 < node_count && edges@[e].1
                    < node_count,
                forall|w: usize| w < node_count ==> (#[trigger] done@[w as int]) == order@.contains(w),
                forall|w: usize| w < v ==> !#[trigger] is_ready(edges@, order@, w),
            ensures
                found ==> v < node_count && !done@[v as int] && forall|e: int|
                    0 <= e < edges@.len() && (#[trigger] edges@[e]).1 == v ==> done@[edges@[e].0 as int],
                !found ==> forall|w: usize| w < node_count ==> !#[trigger] is_ready(edges@, order@, w),
            decreases node_count - v,
        {
            if ready_exec(edges, &done, v) {
                found = true;
                break;
            }
            proof {
                assert(!is_ready(edges@, order@, v)) by {
                    if is_ready(edges@, order@, v) {
                        assert forall|e: int| 0 <= e < edges@.len() && (#[trigger] edges@[e]).1 == v implies done@[edges@[e].0 as int] by {
                            assert(order@.contains(edges@[e].0));
                        }
                    }
                }
            }
            v = v + 1;
        }
        if !found {
            break;
        }
        let ghost old_order = order@;
        let ghost old_done = done@;
        proof {
            assert(is_ready(edges@, old_order, v)) by {
                assert forall|e: int| 0 <= e < edges@.len() && (#[trigger] edges@[e]).1 == v implies old_order.contains(edges@[e].0) by {
                    assert(done@[edges@[e].0 as int]);
                }
            }
            lemma_count_false_set(old_done, v as int);
        }
        done.set(v, true);
        order.push(v);
        proof {
            assert(order@.take(old_order.len() as int) =~= old_order);
            assert forall|k: int| 0 <= k < old_order.len() implies order@.take(k) == old_order.take(k) by {
                assert(order@.take(k) =~= old_order.take(k));
            }
            assert forall|w: usize| w < node_count implies (#[trigger] done@[w as int]) == order@.contains(w) by {
                if w == v {
                    assert(order@[old_order.len() as int] == v);
                } else {
                    if order@.contains(w) {
                        let j = choose|j: int| 0 <= j < order@.len() && order@[j] == w;
                        assert(old_order[j] == w);
                    }
                    if old_order.contains(w) {
                        let j = choose|j: int| 0 <= j < old_order.len() && old_order[j] == w;
                        assert(order@[j] == w);
                    }
                }
            }
            assert forall|k: int| 0 <= k < order@.len() implies is_ready(edges@, order@.take(k), #[trigger] order@[k]) by {
                if k < old_order.len() {
                    assert(order@[k] == old_order[k]);
                    assert(order@.take(k) == old_order.take(k));
                }
            }
            assert forall|k: int, w: usize| 0 <= k < order@.len() && w < order@[k] implies !#[trigger] is_ready(
                edges@,
                order@.take(k),
                w,
            ) by {
                if k < old_order.len() {
                    assert(order@[k] == old_order[k]);
                    assert(order@.take(k) == old_order.take(k));
                }
            }
        }
    }
    order
}


// ── Filling a slot ──────────────────────────────────────────────────

/// Whether coercion recorded `field` of the item `id` as written but
/// invalid.
pub open spec fn spec_conversion_failed(failures: Seq<(WorkItemId, Vec<String>)>, id: Seq<char>, field: Seq<char>) -> bool {
    exists|i: int| 0 <= i < failures.len() && (#[trigger] failures[i]).0@ == id && texts_of(failures[i].1@).contains(field)
}

/// Whether coercion recorded `field_name` of `item_id` as written but
/// invalid: a slot no pass may fill.
pub fn conversion_failed(failures: &Vec<(WorkItemId, Vec<String>)>, item_id: &str, field_name: &str) -> (r: bool)
    ensures
        r == spec_conversion_failed(failures@, item_id@, field_name@),
{
    let mut i: usize = 0;
    while i < failures.len()
        invariant
            i <= failures@.len(),
            forall|k: int| 0 <= k < i ==> !((#[trigger] failures@[k]).0@ == item_id@ && texts_of(failures@[k].1@).contains(field_name@)),
        decreases failures@.len() - i,
    {
        if str_eq(failures[i].0.as_str(), item_id) && contains_text(&failures[i].1, field_name) {
            return true;
        }
        i = i + 1;
    }
    false
}

/// Write a derived value into `field` of `item`, unless the item already
/// carries the field (a written value wins) or coercion recorded the slot
/// as written but invalid (the file must be fixed, not overridden).
/// Returns whether the value was written.
pub fn fill_slot(item: &mut WorkItem, field: &str, failed: bool, value: Option<FieldValue>) -> (filled: bool)
    ensures
        filled == (!old(item).fields.has(field@) && !failed && value is Some),
        !filled ==> *final(item) == *old(item),
        filled ==> final(item).fields.lookup(field@) == Some(value->0@),
        forall|other: Seq<char>| other != field@ ==> final(item).fields.lookup(other) == old(item).fields.lookup(other),
        final(item).id == old(item).id,
        final(item).body == old(item).body,
        final(item).source_path == old(item).source_path,
{
    if failed || item.fields.contains_key(field) {
        return false;
    }
    match value {
        Some(value) => {
            item.fields.insert(field.to_owned(), value);
            true
        },
        None => false,
    }
}

// ── Pull ────────────────────────────────────────────────────────────

/// The value of `field` on the item `id`, if there is such an item and it
/// carries the field.
pub open spec fn target_value(items: Seq<WorkItem>, id: Seq<char>, field: Seq<char>) -> Option<FieldValueView> {
    match index_of_name(item_ids(items), id) {
        Some(i) => items[i].fields.lookup(field),
        None => None,
    }
}

/// The values of `field` on the `targets` that carry it, in order.
pub open spec fn pulled_values(items: Seq<WorkItem>, targets: Seq<Seq<char>>, field: Seq<char>) -> Seq<FieldValueView>
    decreases targets.len(),
{
    if targets.len() == 0 {
        Seq::empty()
    } else {
        pulled_values(items, targets.drop_last(), field) + match target_value(items, targets.last(), field) {
            Some(value) => seq![value],
            None => Seq::empty(),
        }
    }
}

/// The targets lacking `field`, each as `target.field`, in order.
pub open spec fn missing_inputs(items: Seq<WorkItem>, targets: Seq<Seq<char>>, field: Seq<char>) -> Seq<Seq<char>>
    decreases targets.len(),
{
    if targets.len() == 0 {
        Seq::empty()
    } else {
        missing_inputs(items, targets.drop_last(), field) + match target_value(items, targets.last(), field) {
            Some(_) => Seq::empty(),
            None => seq![targets.last() + "."@ + field],
        }
    }
}

/// What one item's pull produced.
#[derive(Debug)]
pub enum PullOutcome {
    /// The reduced value.
    Value(FieldValue),
    /// The reduction of these values needs floating-point arithmetic.
    Floating(Vec<FieldValue>),
    /// Link targets lacking the source field, as `target.field`: no value.
    MissingInputs(Vec<String>),
    /// No targets, or nothing to reduce: no value.
    Skip,
}

pub enum PullOutcomeView {
    Value(FieldValueView),
    Floating(Seq<FieldValueView>),
    MissingInputs(Seq<Seq<char>>),
    Skip,
}

impl View for PullOutcome {
    type V = PullOutcomeView;

    open spec fn view(&self) -> PullOutcomeView {
        match self {
            PullOutcome::Value(value) => PullOutcomeView::Value(value@),
            PullOutcome::Floating(values) => PullOutcomeView::Floating(value_views(values@)),
            PullOutcome::MissingInputs(missing) => PullOutcomeView::MissingInputs(texts_of(missing@)),
            PullOutcome::Skip => PullOutcomeView::Skip,
        }
    }
}

/// The ids `item`'s link field `over` points at.
pub open spec fn link_targets(item: WorkItem, over: Seq<char>) -> Seq<Seq<char>> {
    match item.fields.lookup(over) {
        Some(value) => field_targets(value),
        None => Seq::empty(),
    }
}

/// A pull: read `field` from every target of `item`'s link `over` and
/// reduce the values with `function`. No targets, or an incomplete
/// target, means no value; an integer result lands in a float field as
/// that integer.
pub open spec fn pull_outcome(
    over: Seq<char>,
    field: Seq<char>,
    function: AggregateFunction,
    declared: FieldType,
    item: WorkItem,
    items: Seq<WorkItem>,
) -> PullOutcomeView {
    let targets = link_targets(item, over);
    let values = pulled_values(items, targets, field);
    if targets.len() == 0 {
        PullOutcomeView::Skip
    } else if missing_inputs(items, targets, field).len() > 0 {
        PullOutcomeView::MissingInputs(missing_inputs(items, targets, field))
    } else {
        match reduction(function, values) {
            ReducedView::Value(FieldValueView::Integer(n)) => if declared == FieldType::Float {
                PullOutcomeView::Value(FieldValueView::Float(decimal(n)))
            } else {
                PullOutcomeView::Value(FieldValueView::Integer(n))
            },
            ReducedView::Value(value) => PullOutcomeView::Value(value),
            ReducedView::Floating => PullOutcomeView::Floating(values),
            ReducedView::Nothing => PullOutcomeView::Skip,
        }
    }
}

/// Evaluate a pull of `field` over the link `over` for `item`.
pub fn evaluate_pull(
    over: &str,
    field: &str,
    function: AggregateFunction,
    declared: FieldType,
    item: &WorkItem,
    items: &Vec<WorkItem>,
) -> (r: PullOutcome)
    ensures
        r@ == pull_outcome(over@, field@, function, declared, *item, items@),
{
    let targets = match item.fields.get(over) {
        Some(value) => targets_of(value),
        None => Vec::new(),
    };
    let ghost target_views = ids_of(targets@);
    assert(target_views == link_targets(*item, over@)) by {
        if item.fields.lookup(over@) is None {
            assert(ids_of(targets@) =~= Seq::<Seq<char>>::empty());
        }
    }
    if targets.len() == 0 {
        return PullOutcome::Skip;
    }
    let mut values: Vec<FieldValue> = Vec::new();
    let mut missing: Vec<String> = Vec::new();
    let mut t: usize = 0;
    while t < targets.len()
        invariant
            t <= targets@.len(),
            target_views == ids_of(targets@),
            value_views(values@) == pulled_values(items@, target_views.take(t as int), field@),
            texts_of(missing@) == missing_inputs(items@, target_views.take(t as int), field@),
        decreases targets@.len() - t,
    {
        let ghost before_values = value_views(values@);
        let ghost before_missing = texts_of(missing@);
        proof {
            assert(target_views.take(t + 1).drop_last() =~= target_views.take(t as int));
            assert(target_views.take(t + 1).last() == targets@[t as int]@);
            lemma_index_of_name(item_ids(items@), targets@[t as int]@);
        }
        let found = match find_item(items, targets[t].as_str()) {
            Some(i) => {
                assert(item_ids(items@)[i as int] == items@[i as int].id@);
                items[i].fields.get(field)
            },
            None => None,
        };
        match found {
            Some(value) => {
                values.push(copy_value(value));
                assert(value_views(values@) =~= before_values.push(value@));
                assert(texts_of(missing@) =~= before_missing + Seq::<Seq<char>>::empty());
            },
            None => {
                let name = concat(targets[t].as_str(), ".");
                let name = concat(name.as_str(), field);
                missing.push(name);
                assert(texts_of(missing@) =~= before_missing.push(name@));
                assert(value_views(values@) =~= before_values + Seq::<FieldValueView>::empty());
            },
        }
        t = t + 1;
    }
    assert(target_views.take(targets@.len() as int) =~= target_views);
    if missing.len() > 0 {
        return PullOutcome::MissingInputs(missing);
    }
    match apply_aggregate(function, &values) {
        Reduction::Value(FieldValue::Integer(n)) => {
            if matches!(declared, FieldType::Float) {
                PullOutcome::Value(FieldValue::Float(decimal_text(n)))
            } else {
                PullOutcome::Value(FieldValue::Integer(n))
            }
        },
        Reduction::Value(value) => PullOutcome::Value(value),
        Reduction::Floating => PullOutcome::Floating(values),
        Reduction::Nothing => PullOutcome::Skip,
    }
}


// ── Laws of the pull pass ───────────────────────────────────────────

/// A pull whose link targets do not all carry the source field fills
/// nothing, whatever the complete targets hold: all or nothing.
pub proof fn law_incomplete_pull_fills_nothing(
    items: Seq<WorkItem>,
    over: Seq<char>,
    field: Seq<char>,
    function: AggregateFunction,
    declared: FieldType,
    item: WorkItem,
)
    requires
        missing_inputs(items, link_targets(item, over), field).len() > 0,
    ensures
        pull_outcome(over, field, function, declared, item, items) == PullOutcomeView::MissingInputs(
            missing_inputs(items, link_targets(item, over), field),
        ),
{
    assert(link_targets(item, over).len() > 0) by {
        if link_targets(item, over).len() == 0 {
            assert(missing_inputs(items, link_targets(item, over), field) =~= Seq::<Seq<char>>::empty());
        }
    }
}

/// A node of the pass leaves the items as they are unless its pull yields
/// a value, which then fills exactly its slot.
pub proof fn law_pass_step_fills_only_its_slot(
    before: Seq<WorkItem>,
    after: Seq<WorkItem>,
    node: usize,
    fields: Seq<PullField>,
    failures: Seq<(WorkItemId, Vec<String>)>,
)
    requires
        pull_step(before, after, node, fields, failures),
    ensures
        match node_outcome(before, node, fields, failures) {
            Some(PullOutcomeView::Value(value)) => after[node_item(node, before.len() as int)].fields.lookup(
                fields[node_slot(node, before.len() as int)].name@,
            ) == Some(value),
            _ => after == before,
        },
{
    let p = node_item(node, before.len() as int);
    if let Some(PullOutcomeView::Value(value)) = node_outcome(before, node, fields, failures) {
        let name = fields[node_slot(node, before.len() as int)].name@;
        assert(after[p].fields.lookup(name) == if name == name { Some(value) } else { before[p].fields.lookup(name) });
    }
}

// ── Cycles ──────────────────────────────────────────────────────────

/// One field taking part in derivation, as the cycle report needs it: its
/// name, the link an aggregate rolls up over, and the link a pull reads
/// through.
#[derive(Debug, Clone)]
pub struct DeriveField {
    pub name: String,
    pub aggregate_over: Option<String>,
    pub pull_over: Option<String>,
}

/// Which link field a cross-item edge followed, and in which direction.
pub enum Provenance {
    PullForward(Seq<char>),
    AggregateReverse(Seq<char>),
}

/// The provenance of the edge from `cycle[i]` to the next node (the last
/// node's edge closes the loop): none for a same-item edge, the aggregate's
/// link for an edge within one field, the pull's link otherwise.
pub open spec fn edge_provenance(cycle: Seq<usize>, fields: Seq<DeriveField>, item_count: int, i: int) -> Option<Provenance> {
    let from = cycle[i] as int;
    let to = cycle[(i + 1) % (cycle.len() as int)] as int;
    if from % item_count == to % item_count {
        None
    } else if from / item_count == to / item_count {
        match fields[to / item_count].aggregate_over {
            Some(over) => Some(Provenance::AggregateReverse(over@)),
            None => None,
        }
    } else {
        match fields[to / item_count].pull_over {
            Some(over) => Some(Provenance::PullForward(over@)),
            None => None,
        }
    }
}

/// The loop needs two different link provenances to close.
pub open spec fn needs_two_links(cycle: Seq<usize>, fields: Seq<DeriveField>, item_count: int) -> bool {
    exists|i: int, j: int|
        0 <= i < cycle.len() && 0 <= j < cycle.len() && edge_provenance(cycle, fields, item_count, i) is Some
            && edge_provenance(cycle, fields, item_count, j) is Some && #[trigger] edge_provenance(
            cycle,
            fields,
            item_count,
            i,
        ) != #[trigger] edge_provenance(cycle, fields, item_count, j)
}

/// A node as `item.field`.
pub open spec fn node_name(ids: Seq<WorkItemId>, fields: Seq<DeriveField>, item_count: int, node: usize) -> Seq<char> {
    ids[node as int % item_count]@ + "."@ + fields[node as int / item_count].name@
}

/// The nodes around the loop as `item.field`, the first repeated last.
pub open spec fn cycle_chain(cycle: Seq<usize>, ids: Seq<WorkItemId>, fields: Seq<DeriveField>, item_count: int) -> Seq<Seq<char>> {
    cycle.map_values(|node: usize| node_name(ids, fields, item_count, node)).push(
        node_name(ids, fields, item_count, cycle[0]),
    )
}

/// The report of a loop, pinned to the item of its first node: none when
/// a single link field explains it (that is the link cycle check's
/// finding) or when that item is not among `items`.
pub open spec fn cycle_report(
    cycle: Seq<usize>,
    fields: Seq<DeriveField>,
    ids: Seq<WorkItemId>,
    item_count: int,
    items: Seq<WorkItem>,
) -> Option<DiagnosticView> {
    let first = ids[cycle[0] as int % item_count]@;
    if !needs_two_links(cycle, fields, item_count) {
        None
    } else {
        match index_of_name(item_ids(items), first) {
            Some(i) => Some(
                DiagnosticView {
                    severity: Severity::Error,
                    body: DiagnosticBodyView::Item {
                        path: items[i].source_path@,
                        item_id: first,
                        kind: ItemKindView::DeriveCycle { chain: cycle_chain(cycle, ids, fields, item_count) },
                    },
                },
            ),
            None => None,
        }
    }
}

pub open spec fn well_numbered(cycle: Seq<usize>, fields: Seq<DeriveField>, item_count: usize) -> bool {
    &&& cycle.len() > 0
    &&& item_count > 0
    &&& forall|k: int| 0 <= k < cycle.len() ==> (#[trigger] cycle[k]) as int / (item_count as int) < fields.len()
}

fn provenance_exec(cycle: &Vec<usize>, fields: &Vec<DeriveField>, item_count: usize, i: usize) -> (r: Option<(bool, String)>)
    requires
        well_numbered(cycle@, fields@, item_count),
        i < cycle@.len(),
    ensures
        match r {
            Some((pull, over)) => edge_provenance(cycle@, fields@, item_count as int, i as int) == Some(
                if pull {
                    Provenance::PullForward(over@)
                } else {
                    Provenance::AggregateReverse(over@)
                },
            ),
            None => edge_provenance(cycle@, fields@, item_count as int, i as int) is None,
        },
{
    let next = if i == cycle.len() - 1 {
        0
    } else {
        i + 1
    };
    proof {
        if i + 1 < cycle@.len() {
            lemma_small_mod((i + 1) as nat, cycle@.len() as nat);
        } else {
            assert((cycle@.len() as int) % (cycle@.len() as int) == 0) by (nonlinear_arith)
                requires cycle@.len() > 0;
        }
    }
    assert(next as int == (i as int + 1) % (cycle@.len() as int));
    let from = cycle[i];
    let to = cycle[next];
    if from % item_count == to % item_count {
        return None;
    }
    let field = &fields[to / item_count];
    if from / item_count == to / item_count {
        match &field.aggregate_over {
            Some(over) => Some((false, over.clone())),
            None => None,
        }
    } else {
        match &field.pull_over {
            Some(over) => Some((true, over.clone())),
            None => None,
        }
    }
}

pub open spec fn provenance_of(pull: bool, over: Seq<char>) -> Provenance {
    if pull {
        Provenance::PullForward(over)
    } else {
        Provenance::AggregateReverse(over)
    }
}

fn node_text(ids: &Vec<WorkItemId>, fields: &Vec<DeriveField>, item_count: usize, node: usize) -> (r: String)
    requires
        item_count > 0,
        ids@.len() == item_count,
        (node as int) / (item_count as int) < fields@.len(),
    ensures
        r@ == node_name(ids@, fields@, item_count as int, node),
{
    let head = concat(ids[node % item_count].as_str(), ".");
    concat(head.as_str(), fields[node / item_count].name.as_str())
}

/// The report of one dependency loop (its nodes in dependency order, the
/// closing edge implied), or `None` when a single link field explains it
/// or the item of its first node is not among `items`.
pub fn cycle_diagnostic(
    cycle: &Vec<usize>,
    fields: &Vec<DeriveField>,
    ids: &Vec<WorkItemId>,
    item_count: usize,
    items: &Vec<WorkItem>,
) -> (r: Option<Diagnostic>)
    requires
        well_numbered(cycle@, fields@, item_count),
        ids@.len() == item_count,
    ensures
        match r {
            Some(diagnostic) => cycle_report(cycle@, fields@, ids@, item_count as int, items@) == Some(diagnostic@),
            None => cycle_report(cycle@, fields@, ids@, item_count as int, items@) is None,
        },
{
    let ghost ic = item_count as int;
    let mut first: Option<(bool, String)> = None;
    let ghost mut first_at: int = 0;
    let mut two = false;
    let ghost mut other_at: int = 0;
    let mut i: usize = 0;
    while i < cycle.len()
        invariant_except_break
            !two,
            (first matches Some(p) ==> forall|k: int| 0 <= k < i && edge_provenance(cycle@, fields@, ic, k) is Some
                ==> #[trigger] edge_provenance(cycle@, fields@, ic, k) == Some(provenance_of(p.0, p.1@))),
        invariant
            i <= cycle@.len(),
            ic == item_count as int,
            well_numbered(cycle@, fields@, item_count),
            first is None ==> forall|k: int| 0 <= k < i ==> #[trigger] edge_provenance(cycle@, fields@, ic, k) is None,
            (first matches Some(p) ==> 0 <= first_at < cycle@.len() && edge_provenance(cycle@, fields@, ic, first_at)
                == Some(provenance_of(p.0, p.1@))),
        ensures
            two ==> 0 <= first_at < cycle@.len() && 0 <= other_at < cycle@.len() && edge_provenance(cycle@, fields@, ic, first_at) is Some
                && edge_provenance(cycle@, fields@, ic, other_at) is Some
                && edge_provenance(cycle@, fields@, ic, first_at) != edge_provenance(cycle@, fields@, ic, other_at),
            !two && first is None ==> forall|k: int| 0 <= k < cycle@.len() ==> #[trigger] edge_provenance(cycle@, fields@, ic, k) is None,
            !two ==> (first matches Some(p) ==> forall|k: int| 0 <= k < cycle@.len() && edge_provenance(cycle@, fields@, ic, k) is Some
                ==> #[trigger] edge_provenance(cycle@, fields@, ic, k) == Some(provenance_of(p.0, p.1@))),
        decreases cycle@.len() - i,
    {
        match provenance_exec(cycle, fields, item_count, i) {
            Some((pull, over)) => {
                match &first {
                    None => {
                        proof {
                            first_at = i as int;
                        }
                        first = Some((pull, over));
                    },
                    Some((first_pull, first_over)) => {
                        if pull != *first_pull || !str_eq(over.as_str(), first_over.as_str()) {
                            proof {
                                other_at = i as int;
                                assert(provenance_of(pull, over@) != provenance_of(*first_pull, first_over@));
                            }
                            two = true;
                            break;
                        }
                    },
                }
            },
            None => {},
        }
        i = i + 1;
    }
    if !two {
        proof {
            assert(!needs_two_links(cycle@, fields@, ic)) by {
                if needs_two_links(cycle@, fields@, ic) {
                    let (a, b) = choose|a: int, b: int|
                        0 <= a < cycle@.len() && 0 <= b < cycle@.len() && edge_provenance(cycle@, fields@, ic, a) is Some
                            && edge_provenance(cycle@, fields@, ic, b) is Some && #[trigger] edge_provenance(
                            cycle@,
                            fields@,
                            ic,
                            a,
                        ) != #[trigger] edge_provenance(cycle@, fields@, ic, b);
                    assert(edge_provenance(cycle@, fields@, ic, a) is Some);
                    assert(edge_provenance(cycle@, fields@, ic, b) is Some);
                }
            }
        }
        return None;
    }
    proof {
        assert(needs_two_links(cycle@, fields@, ic)) by {
            let a = first_at;
            let b = other_at;
            assert(edge_provenance(cycle@, fields@, ic, a) != edge_provenance(cycle@, fields@, ic, b));
        }
    }
    let mut chain: Vec<String> = Vec::new();
    let mut k: usize = 0;
    while k < cycle.len()
        invariant
            k <= cycle@.len(),
            ic == item_count as int,
            well_numbered(cycle@, fields@, item_count),
            ids@.len() == item_count,
            texts_of(chain@) == cycle@.take(k as int).map_values(|node: usize| node_name(ids@, fields@, ic, node)),
        decreases cycle@.len() - k,
    {
        let ghost before = texts_of(chain@);
        let text = node_text(ids, fields, item_count, cycle[k]);
        chain.push(text);
        assert(texts_of(chain@) =~= before.push(text@));
        assert(cycle@.take(k + 1).map_values(|node: usize| node_name(ids@, fields@, ic, node)) =~= cycle@.take(
            k as int,
        ).map_values(|node: usize| node_name(ids@, fields@, ic, node)).push(node_name(ids@, fields@, ic, cycle@[k as int])));
        k = k + 1;
    }
    assert(cycle@.take(cycle@.len() as int) =~= cycle@);
    let closing = node_text(ids, fields, item_count, cycle[0]);
    let ghost body = texts_of(chain@);
    chain.push(closing);
    assert(texts_of(chain@) =~= body.push(closing@));
    let first_id = &ids[cycle[0] % item_count];
    proof {
        lemma_index_of_name(item_ids(items@), first_id@);
    }
    match find_item(items, first_id.as_str()) {
        Some(position) => {
            assert(item_ids(items@)[position as int] == items@[position as int].id@);
            Some(
                item_diagnostic(
                    Severity::Error,
                    items[position].source_path.clone(),
                    first_id.duplicate(),
                    ItemDiagnosticKind::DeriveCycle { chain },
                ),
            )
        },
        None => None,
    }
}

// ── The pull pass ───────────────────────────────────────────────────

/// A field filled by pulling `source` from the targets of the link `over`,
/// reduced with `function`.
#[derive(Debug, Clone)]
pub struct PullField {
    pub name: String,
    pub over: String,
    pub source: String,
    pub function: AggregateFunction,
    pub declared: FieldType,
    /// Report an item whose link targets lack the source field.
    pub error_on_missing: bool,
}

/// A pulled reduction that needs floating-point arithmetic, left to the
/// caller: the item, the field and the values to reduce.
#[derive(Debug, Clone)]
pub struct FloatPull {
    pub item_id: WorkItemId,
    pub field: String,
    pub values: Vec<FieldValue>,
}

pub open spec fn is_pull_field(fields: Seq<PullField>, name: Seq<char>) -> bool {
    exists|s: int| 0 <= s < fields.len() && (#[trigger] fields[s]).name@ == name
}

/// What a derive pass keeps: the same items in the same places, every
/// value written before unchanged, no slot that coercion recorded as
/// written but invalid filled, and no field outside the pass touched.
pub open spec fn keeps_written(
    before: Seq<WorkItem>,
    after: Seq<WorkItem>,
    fields: Seq<PullField>,
    failures: Seq<(WorkItemId, Vec<String>)>,
) -> bool {
    &&& after.len() == before.len()
    &&& forall|p: int| 0 <= p < before.len() ==> (#[trigger] after[p]).id == before[p].id && after[p].body
        == before[p].body && after[p].source_path == before[p].source_path
    &&& forall|p: int, name: Seq<char>|
        0 <= p < before.len() && before[p].fields.has(name) ==> #[trigger] after[p].fields.lookup(name)
            == before[p].fields.lookup(name)
    &&& forall|p: int, name: Seq<char>|
        0 <= p < before.len() && !before[p].fields.has(name) && spec_conversion_failed(failures, before[p].id@, name)
            ==> !#[trigger] after[p].fields.has(name)
    &&& forall|p: int, name: Seq<char>|
        0 <= p < before.len() && !is_pull_field(fields, name) ==> #[trigger] after[p].fields.lookup(name)
            == before[p].fields.lookup(name)
}

/// Position of the first pulled field named `name`.
pub open spec fn first_slot(fields: Seq<PullField>, name: Seq<char>) -> Option<int>
    decreases fields.len(),
{
    if fields.len() == 0 {
        None
    } else {
        match first_slot(fields.drop_last(), name) {
            Some(s) => Some(s),
            None => if fields.last().name@ == name {
                Some(fields.len() - 1)
            } else {
                None
            },
        }
    }
}

proof fn lemma_first_slot(fields: Seq<PullField>, name: Seq<char>)
    ensures
        first_slot(fields, name) matches Some(s) ==> 0 <= s < fields.len() && fields[s].name@ == name
            && forall|j: int| 0 <= j < s ==> (#[trigger] fields[j]).name@ != name,
        first_slot(fields, name) is None ==> forall|j: int| 0 <= j < fields.len() ==> (#[trigger] fields[j]).name@ != name,
    decreases fields.len(),
{
    if fields.len() > 0 {
        let init = fields.drop_last();
        lemma_first_slot(init, name);
        assert forall|j: int| 0 <= j < init.len() implies init[j] == fields[j] by {}
    }
}

fn slot_of(fields: &Vec<PullField>, name: &str) -> (r: Option<usize>)
    ensures
        match r {
            Some(s) => first_slot(fields@, name@) == Some(s as int),
            None => first_slot(fields@, name@) is None,
        },
{
    proof {
        lemma_first_slot(fields@, name@);
    }
    let mut s: usize = 0;
    while s < fields.len()
        invariant
            s <= fields@.len(),
            forall|j: int| 0 <= j < s ==> (#[trigger] fields@[j]).name@ != name@,
        decreases fields@.len() - s,
    {
        if str_eq(fields[s].name.as_str(), name) {
            proof {
                lemma_first_slot(fields@, name@);
                if let Some(k) = first_slot(fields@, name@) {
                    if k < s {
                        assert(fields@[k].name@ != name@);
                    }
                    if s < k {
                        assert(fields@[s as int].name@ != name@);
                    }
                }
            }
            return Some(s);
        }
        s = s + 1;
    }
    proof {
        lemma_first_slot(fields@, name@);
        if let Some(k) = first_slot(fields@, name@) {
            assert(fields@[k].name@ != name@);
        }
    }
    None
}

proof fn lemma_node_bound(slot: int, slots: int, position: int, count: int)
    requires
        0 <= slot < slots,
        0 <= position < count,
    ensures
        slot * count + position < slots * count,
{
    assert(slot * count + position < slots * count) by (nonlinear_arith)
        requires
            0 <= slot < slots,
            0 <= position < count,
    ;
}

/// The edges from the source node of each link target in `targets` to
/// `node`: the target's node for the source slot `source`, unless it is
/// `node` itself; targets that are no item give none.
pub open spec fn target_edges(items: Seq<WorkItem>, source: int, node: int, targets: Seq<Seq<char>>) -> Seq<(usize, usize)>
    decreases targets.len(),
{
    if targets.len() == 0 {
        Seq::empty()
    } else {
        target_edges(items, source, node, targets.drop_last()) + match index_of_name(item_ids(items), targets.last()) {
            Some(position) => if source * items.len() + position != node {
                seq![((source * items.len() + position) as usize, node as usize)]
            } else {
                Seq::empty()
            },
            None => Seq::empty(),
        }
    }
}

/// The edges into the nodes of slot `slot` for the first `n` items: an
/// item lacking the field waits for its link targets' source values.
pub open spec fn slot_edges(items: Seq<WorkItem>, fields: Seq<PullField>, slot: int, source: int, n: int) -> Seq<(usize, usize)>
    decreases n,
{
    if n <= 0 {
        Seq::empty()
    } else {
        slot_edges(items, fields, slot, source, n - 1) + if !items[n - 1].fields.has(fields[slot].name@) {
            target_edges(
                items,
                source,
                slot * items.len() + (n - 1),
                link_targets(items[n - 1], fields[slot].over@),
            )
        } else {
            Seq::empty()
        }
    }
}

/// The edges of the pull pass for the first `m` pulled fields, field by
/// field, item by item, target by target. A field whose source is no
/// pulled field waits for nothing.
pub open spec fn pull_edges_of(items: Seq<WorkItem>, fields: Seq<PullField>, m: int) -> Seq<(usize, usize)>
    decreases m,
{
    if m <= 0 {
        Seq::empty()
    } else {
        pull_edges_of(items, fields, m - 1) + match first_slot(fields, fields[m - 1].source@) {
            Some(source) => slot_edges(items, fields, m - 1, source, items.len() as int),
            None => Seq::empty(),
        }
    }
}

/// The edges of the pull pass.
fn pull_edges(items: &Vec<WorkItem>, fields: &Vec<PullField>) -> (edges: Vec<(usize, usize)>)
    requires
        fields@.len() * items@.len() <= usize::MAX,
    ensures
        edges@ == pull_edges_of(items@, fields@, fields@.len() as int),
        forall|e: int| 0 <= e < edges@.len() ==> (#[trigger] edges@[e]).0 < fields@.len() * items@.len()
            && edges@[e].1 < fields@.len() * items@.len(),
{
    let count = items.len();
    let mut edges: Vec<(usize, usize)> = Vec::new();
    let mut s: usize = 0;
    while s < fields.len()
        invariant
            s <= fields@.len(),
            count == items@.len(),
            fields@.len() * items@.len() <= usize::MAX,
            edges@ == pull_edges_of(items@, fields@, s as int),
            forall|e: int| 0 <= e < edges@.len() ==> (#[trigger] edges@[e]).0 < fields@.len() * items@.len()
                && edges@[e].1 < fields@.len() * items@.len(),
        decreases fields@.len() - s,
    {
        let ghost field_base = edges@;
        match slot_of(fields, fields[s].source.as_str()) {
            Some(source_slot) => {
                proof {
                    lemma_first_slot(fields@, fields@[s as int].source@);
                }
                let mut p: usize = 0;
                while p < count
                    invariant
                        p <= count,
                        s < fields@.len(),
                        source_slot < fields@.len(),
                        count == items@.len(),
                        fields@.len() * items@.len() <= usize::MAX,
                        edges@ == field_base + slot_edges(items@, fields@, s as int, source_slot as int, p as int),
                        forall|e: int| 0 <= e < edges@.len() ==> (#[trigger] edges@[e]).0 < fields@.len() * items@.len()
                            && edges@[e].1 < fields@.len() * items@.len(),
                    decreases count - p,
                {
                    let ghost item_base = edges@;
                    if !items[p].fields.contains_key(fields[s].name.as_str()) {
                        let targets = match items[p].fields.get(fields[s].over.as_str()) {
                            Some(value) => targets_of(value),
                            None => Vec::new(),
                        };
                        let ghost target_views = ids_of(targets@);
                        assert(target_views == link_targets(items@[p as int], fields@[s as int].over@)) by {
                            if items@[p as int].fields.lookup(fields@[s as int].over@) is None {
                                assert(ids_of(targets@) =~= Seq::<Seq<char>>::empty());
                            }
                        }
                        proof {
                            lemma_node_bound(s as int, fields@.len() as int, p as int, count as int);
                        }
                        let node = s * count + p;
                        let mut t: usize = 0;
                        while t < targets.len()
                            invariant
                                t <= targets@.len(),
                                s < fields@.len(),
                                source_slot < fields@.len(),
                                count == items@.len(),
                                node == s * count + p,
                                node < fields@.len() * items@.len(),
                                fields@.len() * items@.len() <= usize::MAX,
                                target_views == ids_of(targets@),
                                edges@ == item_base + target_edges(items@, source_slot as int, node as int, target_views.take(t as int)),
                                forall|e: int| 0 <= e < edges@.len() ==> (#[trigger] edges@[e]).0 < fields@.len()
                                    * items@.len() && edges@[e].1 < fields@.len() * items@.len(),
                            decreases targets@.len() - t,
                        {
                            let ghost before = edges@;
                            proof {
                                assert(target_views.take(t + 1).drop_last() =~= target_views.take(t as int));
                                assert(target_views.take(t + 1).last() == targets@[t as int]@);
                                lemma_index_of_name(item_ids(items@), targets@[t as int]@);
                            }
                            match find_item(items, targets[t].as_str()) {
                                Some(target_position) => {
                                    proof {
                                        lemma_node_bound(source_slot as int, fields@.len() as int, target_position as int, count as int);
                                    }
                                    let source_node = source_slot * count + target_position;
                                    if source_node != node {
                                        edges.push((source_node, node));
                                        assert(edges@ =~= before.push((source_node, node)));
                                    } else {
                                        assert(edges@ =~= before + Seq::<(usize, usize)>::empty());
                                    }
                                },
                                None => {
                                    assert(edges@ =~= before + Seq::<(usize, usize)>::empty());
                                },
                            }
                            t = t + 1;
                        }
                        assert(target_views.take(targets@.len() as int) =~= target_views);
                    } else {
                        assert(edges@ =~= item_base + Seq::<(usize, usize)>::empty());
                    }
                    p = p + 1;
                }
            },
            None => {
                assert(edges@ =~= field_base + Seq::<(usize, usize)>::empty());
            },
        }
        s = s + 1;
    }
    edges
}

proof fn lemma_node_parts(node: int, slots: int, count: int)
    requires
        0 <= node < slots * count,
        count > 0,
    ensures
        0 <= node / count < slots,
        0 <= node % count < count,
{
    assert(0 <= node / count < slots) by (nonlinear_arith)
        requires
            0 <= node < slots * count,
            count > 0,
    ;
    assert(0 <= node % count < count) by (nonlinear_arith)
        requires
            count > 0,
    ;
}

// ── The pass, node by node ──────────────────────────────────────────

/// The slot and the item of a node, with `count` items.
pub open spec fn node_slot(node: usize, count: int) -> int {
    node as int / count
}

pub open spec fn node_item(node: usize, count: int) -> int {
    node as int % count
}

/// What evaluating `node` over `items` yields: nothing when the item
/// already carries the field or coercion recorded it as written but
/// invalid, else the pull's outcome.
pub open spec fn node_outcome(
    items: Seq<WorkItem>,
    node: usize,
    fields: Seq<PullField>,
    failures: Seq<(WorkItemId, Vec<String>)>,
) -> Option<PullOutcomeView> {
    let field = fields[node_slot(node, items.len() as int)];
    let item = items[node_item(node, items.len() as int)];
    if item.fields.has(field.name@) || spec_conversion_failed(failures, item.id@, field.name@) {
        None
    } else {
        Some(pull_outcome(field.over@, field.source@, field.function, field.declared, item, items))
    }
}

/// Evaluating `node` takes `before` to `after`: a value fills the item's
/// field, and nothing else changes.
pub open spec fn pull_step(
    before: Seq<WorkItem>,
    after: Seq<WorkItem>,
    node: usize,
    fields: Seq<PullField>,
    failures: Seq<(WorkItemId, Vec<String>)>,
) -> bool {
    let p = node_item(node, before.len() as int);
    match node_outcome(before, node, fields, failures) {
        Some(PullOutcomeView::Value(value)) => {
            &&& after.len() == before.len()
            &&& forall|q: int| 0 <= q < before.len() && q != p ==> #[trigger] after[q] == before[q]
            &&& item_filled(before[p], after[p], fields[node_slot(node, before.len() as int)].name@, Some(value))
        },
        _ => after == before,
    }
}

/// The report of an incomplete pull, pinned to the item.
pub open spec fn pull_missing_view(item: WorkItem, field: Seq<char>, missing: Seq<Seq<char>>) -> DiagnosticView {
    DiagnosticView {
        severity: Severity::Error,
        body: DiagnosticBodyView::Item {
            path: item.source_path@,
            item_id: item.id@,
            kind: ItemKindView::PullMissingInputs { field, missing_inputs: missing },
        },
    }
}

/// What evaluating `node` reports: an incomplete pull, when its field asks.
pub open spec fn node_reports(
    items: Seq<WorkItem>,
    node: usize,
    fields: Seq<PullField>,
    failures: Seq<(WorkItemId, Vec<String>)>,
) -> Seq<DiagnosticView> {
    let field = fields[node_slot(node, items.len() as int)];
    match node_outcome(items, node, fields, failures) {
        Some(PullOutcomeView::MissingInputs(missing)) => if field.error_on_missing {
            seq![pull_missing_view(items[node_item(node, items.len() as int)], field.name@, missing)]
        } else {
            Seq::empty()
        },
        _ => Seq::empty(),
    }
}

/// What evaluating `node` leaves to floating-point arithmetic.
pub open spec fn node_floats(
    items: Seq<WorkItem>,
    node: usize,
    fields: Seq<PullField>,
    failures: Seq<(WorkItemId, Vec<String>)>,
) -> Seq<(Seq<char>, Seq<char>, Seq<FieldValueView>)> {
    match node_outcome(items, node, fields, failures) {
        Some(PullOutcomeView::Floating(values)) => seq![
            (
                items[node_item(node, items.len() as int)].id@,
                fields[node_slot(node, items.len() as int)].name@,
                values,
            ),
        ],
        _ => Seq::empty(),
    }
}

pub open spec fn float_pull_views(floats: Seq<FloatPull>) -> Seq<(Seq<char>, Seq<char>, Seq<FieldValueView>)> {
    floats.map_values(|pull: FloatPull| (pull.item_id@, pull.field@, value_views(pull.values@)))
}

/// `states` are the items before each node of `order` and after the last.
pub open spec fn pass_trace(
    states: Seq<Seq<WorkItem>>,
    order: Seq<usize>,
    fields: Seq<PullField>,
    failures: Seq<(WorkItemId, Vec<String>)>,
) -> bool {
    &&& states.len() == order.len() + 1
    &&& forall|k: int| 0 <= k < order.len() ==> #[trigger] pull_step(states[k], states[k + 1], order[k], fields, failures)
}

/// The reports of the first `k` nodes, in order.
pub open spec fn trace_reports(
    states: Seq<Seq<WorkItem>>,
    order: Seq<usize>,
    fields: Seq<PullField>,
    failures: Seq<(WorkItemId, Vec<String>)>,
    k: int,
) -> Seq<DiagnosticView>
    decreases k,
{
    if k <= 0 {
        Seq::empty()
    } else {
        trace_reports(states, order, fields, failures, k - 1) + node_reports(states[k - 1], order[k - 1], fields, failures)
    }
}

/// The floating-point reductions of the first `k` nodes, in order.
pub open spec fn trace_floats(
    states: Seq<Seq<WorkItem>>,
    order: Seq<usize>,
    fields: Seq<PullField>,
    failures: Seq<(WorkItemId, Vec<String>)>,
    k: int,
) -> Seq<(Seq<char>, Seq<char>, Seq<FieldValueView>)>
    decreases k,
{
    if k <= 0 {
        Seq::empty()
    } else {
        trace_floats(states, order, fields, failures, k - 1) + node_floats(states[k - 1], order[k - 1], fields, failures)
    }
}

/// The nodes an edge leads to from `u`, in edge order.
pub open spec fn successors(edges: Seq<(usize, usize)>, u: usize) -> Seq<usize>
    decreases edges.len(),
{
    if edges.len() == 0 {
        Seq::empty()
    } else {
        successors(edges.drop_last(), u) + if edges.last().0 == u {
            seq![edges.last().1]
        } else {
            Seq::empty()
        }
    }
}

/// The pulled fields as the loop report sees them.
pub open spec fn pull_derive_fields(fields: Seq<PullField>) -> Seq<DeriveField> {
    fields.map_values(|field: PullField| DeriveField { name: field.name, aggregate_over: None, pull_over: Some(field.over) })
}

/// The loop reports of the pass: the walk over the nodes the schedule
/// never reached, along the pass's edges.
pub open spec fn pass_loops(
    tail: Seq<DiagnosticView>,
    items: Seq<WorkItem>,
    edges: Seq<(usize, usize)>,
    order: Seq<usize>,
    fields: Seq<PullField>,
) -> bool {
    let count = items.len();
    let n = (fields.len() * count) as nat;
    if count == 0 {
        tail.len() == 0
    } else {
        walk_reports(
            tail,
            Seq::new(n, |u: int| successors(edges, u as usize)),
            Seq::new(n, |u: int| order.contains(u as usize)),
            pull_derive_fields(fields),
            Seq::new(count, |p: int| items[p].id),
            count as int,
            items,
        )
    }
}

/// The whole outcome of the pass: the schedule, the items node by node,
/// and what was reported and left to floating point.
pub open spec fn pass_outcome(
    before: Seq<WorkItem>,
    after: Seq<WorkItem>,
    reports: Seq<DiagnosticView>,
    floats: Seq<(Seq<char>, Seq<char>, Seq<FieldValueView>)>,
    fields: Seq<PullField>,
    failures: Seq<(WorkItemId, Vec<String>)>,
    order: Seq<usize>,
    states: Seq<Seq<WorkItem>>,
    tail: Seq<DiagnosticView>,
) -> bool {
    let edges = pull_edges_of(before, fields, fields.len() as int);
    &&& kahn_order((fields.len() * before.len()) as nat, edges, order)
    &&& pass_trace(states, order, fields, failures)
    &&& states[0] == before
    &&& states[order.len() as int] == after
    &&& reports == trace_reports(states, order, fields, failures, order.len() as int) + tail
    &&& floats == trace_floats(states, order, fields, failures, order.len() as int)
    &&& pass_loops(tail, after, edges, order, fields)
}

proof fn lemma_step_keeps(
    before: Seq<WorkItem>,
    after: Seq<WorkItem>,
    node: usize,
    fields: Seq<PullField>,
    failures: Seq<(WorkItemId, Vec<String>)>,
)
    requires
        pull_step(before, after, node, fields, failures),
        before.len() > 0,
        0 <= node_slot(node, before.len() as int) < fields.len(),
        0 <= node_item(node, before.len() as int) < before.len(),
    ensures
        keeps_written(before, after, fields, failures),
{
    let p = node_item(node, before.len() as int);
    let s = node_slot(node, before.len() as int);
    match node_outcome(before, node, fields, failures) {
        Some(PullOutcomeView::Value(value)) => {
            let name = fields[s].name@;
            assert forall|q: int| 0 <= q < before.len() implies (#[trigger] after[q]).id == before[q].id && after[q].body
                == before[q].body && after[q].source_path == before[q].source_path by {
                if q != p {
                    assert(after[q] == before[q]);
                }
            }
            assert forall|q: int, other: Seq<char>|
                0 <= q < before.len() && before[q].fields.has(other) implies #[trigger] after[q].fields.lookup(other)
                    == before[q].fields.lookup(other) by {
                if q != p {
                    assert(after[q] == before[q]);
                } else {
                    assert(after[q].fields.lookup(other) == if other == name { Some(value) } else { before[q].fields.lookup(other) });
                }
            }
            assert forall|q: int, other: Seq<char>|
                0 <= q < before.len() && !before[q].fields.has(other) && spec_conversion_failed(failures, before[q].id@, other)
                    implies !#[trigger] after[q].fields.has(other) by {
                if q != p {
                    assert(after[q] == before[q]);
                } else {
                    assert(after[q].fields.lookup(other) == if other == name { Some(value) } else { before[q].fields.lookup(other) });
                }
            }
            assert forall|q: int, other: Seq<char>|
                0 <= q < before.len() && !is_pull_field(fields, other) implies #[trigger] after[q].fields.lookup(other)
                    == before[q].fields.lookup(other) by {
                if q != p {
                    assert(after[q] == before[q]);
                } else {
                    assert(other != name);
                    assert(after[q].fields.lookup(other) == before[q].fields.lookup(other));
                }
            }
        },
        _ => {},
    }
}

proof fn lemma_keeps_chain(
    a: Seq<WorkItem>,
    b: Seq<WorkItem>,
    c: Seq<WorkItem>,
    fields: Seq<PullField>,
    failures: Seq<(WorkItemId, Vec<String>)>,
)
    requires
        keeps_written(a, b, fields, failures),
        keeps_written(b, c, fields, failures),
    ensures
        keeps_written(a, c, fields, failures),
{
    assert forall|q: int| 0 <= q < a.len() implies (#[trigger] c[q]).id == a[q].id && c[q].body == a[q].body
        && c[q].source_path == a[q].source_path by {
        assert(b[q].id == a[q].id);
    }
    assert forall|q: int, name: Seq<char>|
        0 <= q < a.len() && a[q].fields.has(name) implies #[trigger] c[q].fields.lookup(name) == a[q].fields.lookup(name) by {
        assert(b[q].fields.lookup(name) == a[q].fields.lookup(name));
    }
    assert forall|q: int, name: Seq<char>|
        0 <= q < a.len() && !a[q].fields.has(name) && spec_conversion_failed(failures, a[q].id@, name) implies !#[trigger] c[q].fields.has(
        name,
    ) by {
        assert(!b[q].fields.has(name));
        assert(b[q].id == a[q].id);
        if c[q].fields.has(name) {
            assert(c[q].fields.lookup(name) == b[q].fields.lookup(name));
        }
    }
    assert forall|q: int, name: Seq<char>|
        0 <= q < a.len() && !is_pull_field(fields, name) implies #[trigger] c[q].fields.lookup(name) == a[q].fields.lookup(name) by {
        assert(b[q].fields.lookup(name) == a[q].fields.lookup(name));
    }
}

/// Evaluate one node of the pass over `items`.
fn pull_node(
    items: &mut Vec<WorkItem>,
    node: usize,
    fields: &Vec<PullField>,
    failures: &Vec<(WorkItemId, Vec<String>)>,
    diagnostics: &mut Vec<Diagnostic>,
    floats: &mut Vec<FloatPull>,
)
    requires
        old(items)@.len() > 0,
        (node as int) < fields@.len() * old(items)@.len(),
    ensures
        pull_step(old(items)@, final(items)@, node, fields@, failures@),
        diagnostic_views(final(diagnostics)@) == diagnostic_views(old(diagnostics)@) + node_reports(
            old(items)@,
            node,
            fields@,
            failures@,
        ),
        float_pull_views(final(floats)@) == float_pull_views(old(floats)@) + node_floats(old(items)@, node, fields@, failures@),
{
    let count = items.len();
    proof {
        lemma_node_parts(node as int, fields@.len() as int, count as int);
    }
    let slot = node / count;
    let p = node % count;
    let ghost before = items@;
    let ghost diagnostics_before = diagnostic_views(diagnostics@);
    let ghost floats_before = float_pull_views(floats@);
    let field = &fields[slot];
    let had = items[p].fields.contains_key(field.name.as_str());
    let failed = conversion_failed(failures, items[p].id.as_str(), field.name.as_str());
    if had || failed {
        assert(diagnostic_views(diagnostics@) =~= diagnostics_before + Seq::<DiagnosticView>::empty());
        assert(float_pull_views(floats@) =~= floats_before + Seq::<(Seq<char>, Seq<char>, Seq<FieldValueView>)>::empty());
        return;
    }
    let outcome = evaluate_pull(field.over.as_str(), field.source.as_str(), field.function, field.declared, &items[p], items);
    match outcome {
        PullOutcome::Value(value) => {
            let ghost value_view = value@;
            let mut item = items.remove(p);
            let filled = fill_slot(&mut item, field.name.as_str(), failed, Some(value));
            items.insert(p, item);
            proof {
                assert(items@ =~= before.update(p as int, item));
            }
            assert(diagnostic_views(diagnostics@) =~= diagnostics_before + Seq::<DiagnosticView>::empty());
            assert(float_pull_views(floats@) =~= floats_before + Seq::<(Seq<char>, Seq<char>, Seq<FieldValueView>)>::empty());
        },
        PullOutcome::MissingInputs(missing) => {
            if field.error_on_missing {
                let diagnostic = item_diagnostic(
                    Severity::Error,
                    items[p].source_path.clone(),
                    items[p].id.duplicate(),
                    ItemDiagnosticKind::PullMissingInputs { field: field.name.clone(), missing_inputs: missing },
                );
                diagnostics.push(diagnostic);
                assert(diagnostic_views(diagnostics@) =~= diagnostics_before.push(diagnostic@));
            } else {
                assert(diagnostic_views(diagnostics@) =~= diagnostics_before + Seq::<DiagnosticView>::empty());
            }
            assert(float_pull_views(floats@) =~= floats_before + Seq::<(Seq<char>, Seq<char>, Seq<FieldValueView>)>::empty());
        },
        PullOutcome::Floating(values) => {
            let pending = FloatPull { item_id: items[p].id.duplicate(), field: field.name.clone(), values };
            floats.push(pending);
            assert(float_pull_views(floats@) =~= floats_before.push(
                (pending.item_id@, pending.field@, value_views(pending.values@)),
            ));
            assert(diagnostic_views(diagnostics@) =~= diagnostics_before + Seq::<DiagnosticView>::empty());
        },
        PullOutcome::Skip => {
            assert(diagnostic_views(diagnostics@) =~= diagnostics_before + Seq::<DiagnosticView>::empty());
            assert(float_pull_views(floats@) =~= floats_before + Seq::<(Seq<char>, Seq<char>, Seq<FieldValueView>)>::empty());
        },
    }
}

/// Run the pull pass: evaluate every (field, item) node in the order of
/// [`schedule`] over the pass's edges (field order first, then item
/// order), filling each absent, validly written slot with its pull's
/// value as the items stand at its turn. Returns the reports of
/// incomplete pulls that asked for them followed by those of the
/// dependency loops no single link explains, and the reductions left to
/// floating-point arithmetic.
pub fn run_pull_pass(
    items: &mut Vec<WorkItem>,
    fields: &Vec<PullField>,
    failures: &Vec<(WorkItemId, Vec<String>)>,
) -> (r: (Vec<Diagnostic>, Vec<FloatPull>))
    requires
        fields@.len() * old(items)@.len() <= usize::MAX,
    ensures
        keeps_written(old(items)@, final(items)@, fields@, failures@),
        exists|order: Seq<usize>, states: Seq<Seq<WorkItem>>, tail: Seq<DiagnosticView>|
            #[trigger] pass_outcome(
                old(items)@,
                final(items)@,
                diagnostic_views(r.0@),
                float_pull_views(r.1@),
                fields@,
                failures@,
                order,
                states,
                tail,
            ),
{
    let count = items.len();
    let edges = pull_edges(items, fields);
    let order = schedule(fields.len() * count, &edges);
    let ghost start = items@;
    let ghost mut states: Seq<Seq<WorkItem>> = seq![items@];
    let mut diagnostics: Vec<Diagnostic> = Vec::new();
    let mut floats: Vec<FloatPull> = Vec::new();
    proof {
        assert(diagnostic_views(diagnostics@) =~= Seq::<DiagnosticView>::empty());
        assert(float_pull_views(floats@) =~= Seq::<(Seq<char>, Seq<char>, Seq<FieldValueView>)>::empty());
    }
    let mut k: usize = 0;
    while k < order.len()
        invariant
            k <= order@.len(),
            count == items@.len(),
            start == old(items)@,
            fields@.len() * count <= usize::MAX,
            forall|j: int| 0 <= j < order@.len() ==> (#[trigger] order@[j]) < fields@.len() * count,
            keeps_written(start, items@, fields@, failures@),
            states.len() == k + 1,
            states[0] == start,
            states[k as int] == items@,
            forall|j: int| 0 <= j < k ==> #[trigger] pull_step(states[j], states[j + 1], order@[j], fields@, failures@),
            forall|j: int| 0 <= j <= k ==> (#[trigger] states[j]).len() == count,
            diagnostic_views(diagnostics@) == trace_reports(states, order@, fields@, failures@, k as int),
            float_pull_views(floats@) == trace_floats(states, order@, fields@, failures@, k as int),
        decreases order@.len() - k,
    {
        let node = order[k];
        assert(order@[k as int] < fields@.len() * count);
        proof {
            lemma_node_parts(node as int, fields@.len() as int, count as int);
        }
        let ghost before = items@;
        pull_node(items, node, fields, failures, &mut diagnostics, &mut floats);
        proof {
            lemma_step_keeps(before, items@, node, fields@, failures@);
            lemma_keeps_chain(start, before, items@, fields@, failures@);
            let old_states = states;
            states = states.push(items@);
            assert forall|j: int| 0 <= j < k + 1 implies #[trigger] pull_step(states[j], states[j + 1], order@[j], fields@, failures@) by {
                if j < k {
                    assert(states[j] == old_states[j]);
                    assert(states[j + 1] == old_states[j + 1]);
                }
            }
            assert forall|j: int| 0 <= j <= k + 1 implies (#[trigger] states[j]).len() == count by {
                if j <= k {
                    assert(states[j] == old_states[j]);
                }
            }
            lemma_trace_prefix(old_states, states, order@, fields@, failures@, k as int);
            assert(trace_reports(states, order@, fields@, failures@, k as int) == trace_reports(old_states, order@, fields@, failures@, k as int));
            assert(trace_floats(states, order@, fields@, failures@, k as int) == trace_floats(old_states, order@, fields@, failures@, k as int));
            assert(states[k as int] == before);
            assert(states[k + 1] == items@);
        }
        k = k + 1;
    }
    let ghost reports = diagnostic_views(diagnostics@);
    // Nodes the walk never reached wait on a loop: report the loops no
    // single link explains.
    let node_count = fields.len() * count;
    let mut evaluated: Vec<bool> = Vec::new();
    let mut dependents: Vec<Vec<usize>> = Vec::new();
    let mut u: usize = 0;
    while u < node_count
        invariant
            u <= node_count,
            node_count == fields@.len() * count,
            evaluated@.len() == u,
            dependents@.len() == u,
            forall|v: int| 0 <= v < u ==> #[trigger] evaluated@[v] == order@.contains(v as usize),
            forall|v: int| 0 <= v < u ==> (#[trigger] dependents@[v])@ == successors(edges@, v as usize),
            forall|e: int| 0 <= e < edges@.len() ==> (#[trigger] edges@[e]).0 < node_count && edges@[e].1 < node_count,
            forall|v: int, j: int| 0 <= v < u && 0 <= j < dependents@[v]@.len() ==> #[trigger] dependents@[v]@[j] < node_count,
        decreases node_count - u,
    {
        let mut reached = false;
        let mut j: usize = 0;
        while j < order.len()
            invariant
                j <= order@.len(),
                reached == exists|i: int| 0 <= i < j && order@[i] == u,
            decreases order@.len() - j,
        {
            if order[j] == u {
                reached = true;
            }
            j = j + 1;
        }
        let ghost evaluated_before = evaluated@;
        evaluated.push(reached);
        let mut next: Vec<usize> = Vec::new();
        let mut e: usize = 0;
        while e < edges.len()
            invariant
                e <= edges@.len(),
                next@ == successors(edges@.take(e as int), u),
                forall|f: int| 0 <= f < edges@.len() ==> (#[trigger] edges@[f]).0 < node_count && edges@[f].1 < node_count,
                forall|i: int| 0 <= i < next@.len() ==> #[trigger] next@[i] < node_count,
            decreases edges@.len() - e,
        {
            assert(edges@.take(e + 1).drop_last() =~= edges@.take(e as int));
            if edges[e].0 == u {
                next.push(edges[e].1);
            }
            e = e + 1;
        }
        assert(edges@.take(edges@.len() as int) =~= edges@);
        let ghost before = dependents@;
        dependents.push(next);
        proof {
            assert forall|v: int| 0 <= v < u + 1 implies #[trigger] evaluated@[v] == order@.contains(v as usize) by {
                if v < u {
                    assert(evaluated@[v] == evaluated_before[v]);
                }
            }
            assert forall|v: int| 0 <= v < u + 1 implies (#[trigger] dependents@[v])@ == successors(edges@, v as usize) by {
                if v < u {
                    assert(dependents@[v] == before[v]);
                }
            }
            assert forall|v: int, j: int| 0 <= v < u + 1 && 0 <= j < dependents@[v]@.len() implies #[trigger] dependents@[v]@[j] < node_count by {
                if v < u {
                    assert(dependents@[v] == before[v]);
                }
            }
        }
        u = u + 1;
    }
    let ghost mut tail: Seq<DiagnosticView> = Seq::empty();
    if count > 0 {
        let mut ids: Vec<WorkItemId> = Vec::new();
        let mut p: usize = 0;
        while p < count
            invariant
                p <= count,
                count == items@.len(),
                ids@ == Seq::new(p as nat, |q: int| items@[q].id),
            decreases count - p,
        {
            ids.push(items[p].id.duplicate());
            p = p + 1;
            assert(ids@ =~= Seq::new(p as nat, |q: int| items@[q].id));
        }
        let mut derive_fields: Vec<DeriveField> = Vec::new();
        let mut s: usize = 0;
        while s < fields.len()
            invariant
                s <= fields@.len(),
                derive_fields@ == pull_derive_fields(fields@.take(s as int)),
            decreases fields@.len() - s,
        {
            let entry = DeriveField { name: fields[s].name.clone(), aggregate_over: None, pull_over: Some(fields[s].over.clone()) };
            derive_fields.push(entry);
            assert(fields@.take(s + 1) =~= fields@.take(s as int).push(fields@[s as int]));
            s = s + 1;
            assert(derive_fields@ =~= pull_derive_fields(fields@.take(s as int)));
        }
        assert(fields@.take(fields@.len() as int) =~= fields@);
        proof {
            assert(adjacency(dependents@) =~= Seq::new(node_count as nat, |u: int| successors(edges@, u as usize)));
            assert(evaluated@ =~= Seq::new(node_count as nat, |u: int| order@.contains(u as usize)));
        }
        let mut loops = derive_cycle_diagnostics(&derive_fields, &ids, count, &dependents, &evaluated, items);
        proof {
            tail = diagnostic_views(loops@);
        }
        let ghost before_append = diagnostic_views(diagnostics@);
        diagnostics.append(&mut loops);
        assert(diagnostic_views(diagnostics@) =~= before_append + tail);
    } else {
        assert(diagnostic_views(diagnostics@) =~= reports + tail);
    }
    proof {
        let edges_spec = pull_edges_of(old(items)@, fields@, fields@.len() as int);
        assert(edges@ == edges_spec);
        assert(kahn_order((fields@.len() * old(items)@.len()) as nat, edges_spec, order@));
        assert(pass_trace(states, order@, fields@, failures@));
        assert(states[order@.len() as int] == items@);
        assert(diagnostic_views(diagnostics@) == trace_reports(states, order@, fields@, failures@, order@.len() as int) + tail);
        assert(float_pull_views(floats@) == trace_floats(states, order@, fields@, failures@, order@.len() as int));
        assert(pass_loops(tail, items@, edges_spec, order@, fields@));
        assert(pass_outcome(
            old(items)@,
            items@,
            diagnostic_views(diagnostics@),
            float_pull_views(floats@),
            fields@,
            failures@,
            order@,
            states,
            tail,
        ));
    }
    let r = (diagnostics, floats);
    proof {
        assert(pass_outcome(
            old(items)@,
            items@,
            diagnostic_views(r.0@),
            float_pull_views(r.1@),
            fields@,
            failures@,
            order@,
            states,
            tail,
        ));
    }
    r
}

proof fn lemma_trace_prefix(
    a: Seq<Seq<WorkItem>>,
    b: Seq<Seq<WorkItem>>,
    order: Seq<usize>,
    fields: Seq<PullField>,
    failures: Seq<(WorkItemId, Vec<String>)>,
    k: int,
)
    requires
        0 <= k,
        k < a.len(),
        k < b.len(),
        forall|j: int| 0 <= j <= k ==> a[j] == b[j],
    ensures
        trace_reports(a, order, fields, failures, k) == trace_reports(b, order, fields, failures, k),
        trace_floats(a, order, fields, failures, k) == trace_floats(b, order, fields, failures, k),
    decreases k,
{
    if k > 0 {
        lemma_trace_prefix(a, b, order, fields, failures, k - 1);
        assert(a[k - 1] == b[k - 1]);
    }
}

// ── Finding the loops ───────────────────────────────────────────────

/// `cycle` is a dependency loop among nodes not evaluated: each node
/// leads to the next, and the last back to the first.
pub open spec fn is_loop(cycle: Seq<usize>, dependents: Seq<Vec<usize>>, evaluated: Seq<bool>) -> bool {
    &&& cycle.len() > 0
    &&& forall|k: int| 0 <= k < cycle.len() ==> (#[trigger] cycle[k]) < evaluated.len() && !evaluated[cycle[k] as int]
    &&& forall|k: int| 0 <= k < cycle.len() ==> dependents[#[trigger] cycle[k] as int]@.contains(
        cycle[(k + 1) % (cycle.len() as int)],
    )
}

/// The work left for nodes not visited yet: their edges and two steps each.
pub open spec fn unvisited_work(states: Seq<u8>, dependents: Seq<Vec<usize>>, i: int) -> nat
    decreases i,
{
    if i <= 0 {
        0
    } else {
        unvisited_work(states, dependents, i - 1) + if states[i - 1] == 0u8 {
            (dependents[i - 1]@.len() + 2) as nat
        } else {
            0nat
        }
    }
}

/// The work left for the frames of the walk: their children not tried yet
/// and one step each.
pub open spec fn frame_work(stack: Seq<(usize, usize)>, dependents: Seq<Vec<usize>>) -> int
    decreases stack.len(),
{
    if stack.len() == 0 {
        0
    } else {
        frame_work(stack.drop_last(), dependents) + dependents[stack.last().0 as int]@.len() - stack.last().1 + 1
    }
}

proof fn lemma_unvisited_set(states: Seq<u8>, dependents: Seq<Vec<usize>>, v: int, value: u8, i: int)
    requires
        0 <= v < states.len(),
        states.len() == dependents.len(),
        0 <= i <= states.len(),
        value != 0u8,
    ensures
        unvisited_work(states.update(v, value), dependents, i) == unvisited_work(states, dependents, i) - if v < i
            && states[v] == 0u8 {
            (dependents[v]@.len() + 2) as int
        } else {
            0int
        },
    decreases i,
{
    if i > 0 {
        lemma_unvisited_set(states, dependents, v, value, i - 1);
    }
}

proof fn lemma_frame_work_nonnegative(stack: Seq<(usize, usize)>, dependents: Seq<Vec<usize>>)
    requires
        forall|k: int| 0 <= k < stack.len() ==> (#[trigger] stack[k]).0 < dependents.len() && stack[k].1
            <= dependents[stack[k].0 as int]@.len(),
    ensures
        frame_work(stack, dependents) >= 0,
    decreases stack.len(),
{
    if stack.len() > 0 {
        let init = stack.drop_last();
        assert forall|k: int| 0 <= k < init.len() implies (#[trigger] init[k]).0 < dependents.len() && init[k].1
            <= dependents[init[k].0 as int]@.len() by {
            assert(init[k] == stack[k]);
        }
        lemma_frame_work_nonnegative(init, dependents);
        assert(stack.last() == stack[stack.len() - 1]);
    }
}

proof fn lemma_node_slot(node: int, slots: int, count: int)
    requires
        0 <= node < slots * count,
        count > 0,
    ensures
        node / count < slots,
{
    lemma_node_parts(node, slots, count);
}

/// The adjacency lists as sequences.
pub open spec fn adjacency(dependents: Seq<Vec<usize>>) -> Seq<Seq<usize>> {
    dependents.map_values(|next: Vec<usize>| next@)
}

/// Position of the first frame of `stack` at `node`.
pub open spec fn first_frame(stack: Seq<(usize, usize)>, node: usize) -> Option<int>
    decreases stack.len(),
{
    if stack.len() == 0 {
        None
    } else {
        match first_frame(stack.drop_last(), node) {
            Some(k) => Some(k),
            None => if stack.last().0 == node {
                Some(stack.len() - 1)
            } else {
                None
            },
        }
    }
}

proof fn lemma_first_frame(stack: Seq<(usize, usize)>, node: usize)
    ensures
        first_frame(stack, node) matches Some(k) ==> 0 <= k < stack.len() && stack[k].0 == node && forall|j: int|
            0 <= j < k ==> (#[trigger] stack[j]).0 != node,
        first_frame(stack, node) is None ==> forall|j: int| 0 <= j < stack.len() ==> (#[trigger] stack[j]).0 != node,
    decreases stack.len(),
{
    if stack.len() > 0 {
        let init = stack.drop_last();
        lemma_first_frame(init, node);
        assert forall|j: int| 0 <= j < init.len() implies init[j] == stack[j] by {}
    }
}

/// The nodes of the frames from `k` to the top.
pub open spec fn frames_from(stack: Seq<(usize, usize)>, k: int) -> Seq<usize> {
    stack.subrange(k, stack.len() as int).map_values(|frame: (usize, usize)| frame.0)
}

/// What the walk reports when the top of `stack` leads to `child`, a node
/// with a frame on the stack: the report of the loop from that frame to
/// the top, when it has one.
pub open spec fn loop_found(
    stack: Seq<(usize, usize)>,
    child: usize,
    fields: Seq<DeriveField>,
    ids: Seq<WorkItemId>,
    item_count: int,
    items: Seq<WorkItem>,
) -> Seq<DiagnosticView> {
    match first_frame(stack, child) {
        Some(k) => match cycle_report(frames_from(stack, k), fields, ids, item_count, items) {
            Some(report) => seq![report],
            None => Seq::empty(),
        },
        None => Seq::empty(),
    }
}

/// The state of the depth-first walk: the next start node, each node's
/// state (0 unseen, 1 on the stack, 2 finished), the frames (node, next
/// child to try), and the reports so far.
pub struct Walk {
    pub start: int,
    pub states: Seq<u8>,
    pub stack: Seq<(usize, usize)>,
    pub found: Seq<DiagnosticView>,
}

/// One step of the walk over the nodes not evaluated.
pub open spec fn walk_step(
    w: Walk,
    adjacent: Seq<Seq<usize>>,
    evaluated: Seq<bool>,
    fields: Seq<DeriveField>,
    ids: Seq<WorkItemId>,
    item_count: int,
    items: Seq<WorkItem>,
) -> Walk {
    if w.stack.len() == 0 {
        if w.start >= evaluated.len() {
            w
        } else if !evaluated[w.start] && w.states[w.start] == 0u8 {
            Walk {
                start: w.start + 1,
                states: w.states.update(w.start, 1u8),
                stack: seq![(w.start as usize, 0usize)],
                found: w.found,
            }
        } else {
            Walk { start: w.start + 1, ..w }
        }
    } else {
        let top = w.stack.len() - 1;
        let (node, index) = w.stack[top];
        if index < adjacent[node as int].len() {
            let stack = w.stack.update(top, (node, (index + 1) as usize));
            let child = adjacent[node as int][index as int];
            if evaluated[child as int] {
                Walk { stack, ..w }
            } else if w.states[child as int] == 0u8 {
                Walk { states: w.states.update(child as int, 1u8), stack: stack.push((child, 0usize)), ..w }
            } else if w.states[child as int] == 1u8 {
                Walk { stack, found: w.found + loop_found(stack, child, fields, ids, item_count, items), ..w }
            } else {
                Walk { stack, ..w }
            }
        } else {
            Walk { states: w.states.update(node as int, 2u8), stack: w.stack.drop_last(), ..w }
        }
    }
}

/// The walk after `t` steps.
pub open spec fn walk_run(
    w: Walk,
    t: nat,
    adjacent: Seq<Seq<usize>>,
    evaluated: Seq<bool>,
    fields: Seq<DeriveField>,
    ids: Seq<WorkItemId>,
    item_count: int,
    items: Seq<WorkItem>,
) -> Walk
    decreases t,
{
    if t == 0 {
        w
    } else {
        walk_run(
            walk_step(w, adjacent, evaluated, fields, ids, item_count, items),
            (t - 1) as nat,
            adjacent,
            evaluated,
            fields,
            ids,
            item_count,
            items,
        )
    }
}

proof fn lemma_walk_run_step(
    w: Walk,
    t: nat,
    adjacent: Seq<Seq<usize>>,
    evaluated: Seq<bool>,
    fields: Seq<DeriveField>,
    ids: Seq<WorkItemId>,
    item_count: int,
    items: Seq<WorkItem>,
)
    ensures
        walk_run(w, t + 1, adjacent, evaluated, fields, ids, item_count, items) == walk_step(
            walk_run(w, t, adjacent, evaluated, fields, ids, item_count, items),
            adjacent,
            evaluated,
            fields,
            ids,
            item_count,
            items,
        ),
    decreases t,
{
    let next = walk_step(w, adjacent, evaluated, fields, ids, item_count, items);
    assert(walk_run(w, t + 1, adjacent, evaluated, fields, ids, item_count, items) == walk_run(
        next,
        t,
        adjacent,
        evaluated,
        fields,
        ids,
        item_count,
        items,
    ));
    if t > 0 {
        assert(walk_run(w, t, adjacent, evaluated, fields, ids, item_count, items) == walk_run(
            next,
            (t - 1) as nat,
            adjacent,
            evaluated,
            fields,
            ids,
            item_count,
            items,
        ));
        lemma_walk_run_step(
            walk_step(w, adjacent, evaluated, fields, ids, item_count, items),
            (t - 1) as nat,
            adjacent,
            evaluated,
            fields,
            ids,
            item_count,
            items,
        );
    }
}

/// The walk before its first step.
pub open spec fn walk_start(n: nat) -> Walk {
    Walk { start: 0, states: Seq::new(n, |i: int| 0u8), stack: Seq::empty(), found: Seq::empty() }
}

pub open spec fn walk_done(w: Walk, n: int) -> bool {
    w.stack.len() == 0 && w.start >= n
}

/// The reports of the whole walk: those of the state in which it stops.
pub open spec fn walk_reports(
    result: Seq<DiagnosticView>,
    adjacent: Seq<Seq<usize>>,
    evaluated: Seq<bool>,
    fields: Seq<DeriveField>,
    ids: Seq<WorkItemId>,
    item_count: int,
    items: Seq<WorkItem>,
) -> bool {
    exists|t: nat|
        #![trigger walk_run(walk_start(evaluated.len()), t, adjacent, evaluated, fields, ids, item_count, items)]
        walk_done(walk_run(walk_start(evaluated.len()), t, adjacent, evaluated, fields, ids, item_count, items), evaluated.len() as int)
            && walk_run(walk_start(evaluated.len()), t, adjacent, evaluated, fields, ids, item_count, items).found == result
}

/// The frames from one at `child` to the top, whose node leads to
/// `child`, form a loop.
proof fn lemma_frames_loop(
    stack: Seq<(usize, usize)>,
    position: int,
    child: usize,
    dependents: Seq<Vec<usize>>,
    evaluated: Seq<bool>,
)
    requires
        0 <= position < stack.len(),
        stack[position].0 == child,
        forall|k: int| 0 <= k < stack.len() ==> (#[trigger] stack[k]).0 < evaluated.len() && !evaluated[stack[k].0 as int],
        forall|k: int| 0 <= k < stack.len() - 1 ==> dependents[(#[trigger] stack[k]).0 as int]@.contains(stack[k + 1].0),
        dependents[stack[stack.len() - 1].0 as int]@.contains(child),
    ensures
        is_loop(frames_from(stack, position), dependents, evaluated),
{
    let c = frames_from(stack, position);
    let len = c.len() as int;
    assert forall|j: int| 0 <= j < len implies (#[trigger] c[j]) < evaluated.len() && !evaluated[c[j] as int] by {
        assert(c[j] == stack[position + j].0);
    }
    assert forall|j: int| 0 <= j < len implies dependents[#[trigger] c[j] as int]@.contains(c[(j + 1) % len]) by {
        assert(c[j] == stack[position + j].0);
        if j + 1 < len {
            lemma_small_mod((j + 1) as nat, len as nat);
            assert(c[j + 1] == stack[position + j + 1].0);
        } else {
            assert((len % len) == 0) by (nonlinear_arith)
                requires
                    len > 0,
            ;
            assert(position + j == stack.len() - 1);
            assert(c[0] == child);
        }
    }
}

/// The report of the loop the walk closes when the top of `stack` leads to
/// `child`, a node with a frame on the stack: the frames from `child`'s
/// first frame to the top.
#[verifier::rlimit(60)]
fn loop_report(
    stack: &Vec<(usize, usize)>,
    child: usize,
    fields: &Vec<DeriveField>,
    ids: &Vec<WorkItemId>,
    item_count: usize,
    dependents: &Vec<Vec<usize>>,
    evaluated: &Vec<bool>,
    items: &Vec<WorkItem>,
) -> (r: Option<Diagnostic>)
    requires
        stack@.len() > 0,
        item_count > 0,
        ids@.len() == item_count,
        dependents@.len() == evaluated@.len(),
        evaluated@.len() <= fields@.len() * item_count,
        forall|k: int| 0 <= k < stack@.len() ==> (#[trigger] stack@[k]).0 < evaluated@.len() && !evaluated@[stack@[k].0 as int],
        forall|k: int| 0 <= k < stack@.len() - 1 ==> dependents@[(#[trigger] stack@[k]).0 as int]@.contains(stack@[k + 1].0),
        dependents@[stack@[stack@.len() - 1].0 as int]@.contains(child),
    ensures
        r matches Some(diagnostic) ==> reports_loop(diagnostic, fields@, ids@, item_count, dependents@, evaluated@, items@),
        match r {
            Some(diagnostic) => loop_found(stack@, child, fields@, ids@, item_count as int, items@) == seq![diagnostic@],
            None => loop_found(stack@, child, fields@, ids@, item_count as int, items@) == Seq::<DiagnosticView>::empty(),
        },
{
    proof {
        lemma_first_frame(stack@, child);
    }
    let mut position: usize = 0;
    let mut found = false;
    while position < stack.len()
        invariant_except_break
            !found,
        invariant
            position <= stack@.len(),
            forall|j: int| 0 <= j < position ==> (#[trigger] stack@[j]).0 != child,
        ensures
            found ==> position < stack@.len() && stack@[position as int].0 == child,
            found ==> forall|j: int| 0 <= j < position ==> (#[trigger] stack@[j]).0 != child,
            !found ==> forall|j: int| 0 <= j < stack@.len() ==> (#[trigger] stack@[j]).0 != child,
        decreases stack@.len() - position,
    {
        if stack[position].0 == child {
            found = true;
            break;
        }
        position = position + 1;
    }
    if !found {
        proof {
            if let Some(k) = first_frame(stack@, child) {
                assert(stack@[k].0 == child);
            }
        }
        return None;
    }
    proof {
        if let Some(k) = first_frame(stack@, child) {
            if k < position {
                assert(stack@[k].0 != child);
            }
            if position < k {
                assert(stack@[position as int].0 != child);
            }
        }
        assert(first_frame(stack@, child) == Some(position as int));
    }
    let mut cycle: Vec<usize> = Vec::new();
    let mut k: usize = position;
    while k < stack.len()
        invariant
            position <= k <= stack@.len(),
            position < stack@.len(),
            cycle@.len() == k - position,
            forall|j: int| 0 <= j < cycle@.len() ==> #[trigger] cycle@[j] == stack@[position + j].0,
        decreases stack@.len() - k,
    {
        cycle.push(stack[k].0);
        k = k + 1;
    }
    proof {
        assert(cycle@ =~= frames_from(stack@, position as int));
        lemma_frames_loop(stack@, position as int, child, dependents@, evaluated@);
        assert forall|j: int| 0 <= j < cycle@.len() implies (#[trigger] cycle@[j]) as int / (item_count as int) < fields@.len() by {
            lemma_node_slot(cycle@[j] as int, fields@.len() as int, item_count as int);
        }
    }
    let r = cycle_diagnostic(&cycle, fields, ids, item_count, items);
    proof {
        assert(is_loop(cycle@, dependents@, evaluated@));
        if r is Some {
            assert(cycle_report(cycle@, fields@, ids@, item_count as int, items@) == Some(r->0@));
        }
    }
    r
}

/// `diagnostic` is the report of some dependency loop.
pub open spec fn reports_loop(
    diagnostic: Diagnostic,
    fields: Seq<DeriveField>,
    ids: Seq<WorkItemId>,
    item_count: usize,
    dependents: Seq<Vec<usize>>,
    evaluated: Seq<bool>,
    items: Seq<WorkItem>,
) -> bool {
    exists|cycle: Seq<usize>|
        is_loop(cycle, dependents, evaluated) && #[trigger] cycle_report(cycle, fields, ids, item_count as int, items)
            == Some(diagnostic@)
}

/// Find the dependency loops among the nodes not evaluated, walking them
/// depth first from each unseen node in turn and reporting a loop each
/// time the walk reaches a node whose frame is still on the stack (the
/// loop from that frame to the top), unless a single link field explains
/// it. The reports are exactly those of that walk, and each is the report
/// of a genuine loop.
#[verifier::rlimit(60)]
pub fn derive_cycle_diagnostics(
    fields: &Vec<DeriveField>,
    ids: &Vec<WorkItemId>,
    item_count: usize,
    dependents: &Vec<Vec<usize>>,
    evaluated: &Vec<bool>,
    items: &Vec<WorkItem>,
) -> (r: Vec<Diagnostic>)
    requires
        item_count > 0,
        ids@.len() == item_count,
        dependents@.len() == evaluated@.len(),
        evaluated@.len() <= fields@.len() * item_count,
        forall|v: int, j: int|
            0 <= v < dependents@.len() && 0 <= j < dependents@[v]@.len() ==> #[trigger] dependents@[v]@[j]
                < evaluated@.len(),
    ensures
        walk_reports(diagnostic_views(r@), adjacency(dependents@), evaluated@, fields@, ids@, item_count as int, items@),
        forall|i: int| 0 <= i < r@.len() ==> reports_loop(#[trigger] r@[i], fields@, ids@, item_count, dependents@, evaluated@, items@),
{
    let n = evaluated.len();
    let ghost adj = adjacency(dependents@);
    let ghost ic = item_count as int;
    let mut states: Vec<u8> = Vec::new();
    let mut v: usize = 0;
    while v < n
        invariant
            v <= n,
            states@ == Seq::new(v as nat, |i: int| 0u8),
        decreases n - v,
    {
        states.push(0u8);
        v = v + 1;
        assert(states@ =~= Seq::new(v as nat, |i: int| 0u8));
    }
    let mut out: Vec<Diagnostic> = Vec::new();
    let mut stack: Vec<(usize, usize)> = Vec::new();
    let mut start: usize = 0;
    let ghost mut t: nat = 0;
    proof {
        assert(diagnostic_views(out@) =~= Seq::<DiagnosticView>::empty());
    }
    loop
        invariant
            n == evaluated@.len(),
            start <= n,
            states@.len() == n,
            item_count > 0,
            ic == item_count as int,
            ids@.len() == item_count,
            dependents@.len() == n,
            adj == adjacency(dependents@),
            n <= fields@.len() * item_count,
            forall|v: int, j: int|
                0 <= v < dependents@.len() && 0 <= j < dependents@[v]@.len() ==> #[trigger] dependents@[v]@[j] < n,
            forall|k: int| 0 <= k < stack@.len() ==> (#[trigger] stack@[k]).0 < n && !evaluated@[stack@[k].0 as int]
                && stack@[k].1 <= dependents@[stack@[k].0 as int]@.len(),
            forall|k: int| 0 <= k < stack@.len() - 1 ==> dependents@[(#[trigger] stack@[k]).0 as int]@.contains(
                stack@[k + 1].0,
            ),
            forall|k: int| 0 <= k < stack@.len() ==> states@[(#[trigger] stack@[k]).0 as int] != 0u8,
            forall|i: int| 0 <= i < out@.len() ==> reports_loop(#[trigger] out@[i], fields@, ids@, item_count, dependents@, evaluated@, items@),
            walk_run(walk_start(n as nat), t, adj, evaluated@, fields@, ids@, ic, items@) == (Walk {
                start: start as int,
                states: states@,
                stack: stack@,
                found: diagnostic_views(out@),
            }),
        ensures
            walk_done(walk_run(walk_start(n as nat), t, adj, evaluated@, fields@, ids@, ic, items@), n as int),
            walk_run(walk_start(n as nat), t, adj, evaluated@, fields@, ids@, ic, items@).found == diagnostic_views(out@),
            forall|i: int| 0 <= i < out@.len() ==> reports_loop(#[trigger] out@[i], fields@, ids@, item_count, dependents@, evaluated@, items@),
        decreases n - start, unvisited_work(states@, dependents@, n as int) + frame_work(stack@, dependents@),
    {
        proof {
            lemma_frame_work_nonnegative(stack@, dependents@);
            lemma_walk_run_step(walk_start(n as nat), t, adj, evaluated@, fields@, ids@, ic, items@);
        }
        let ghost before = Walk { start: start as int, states: states@, stack: stack@, found: diagnostic_views(out@) };
        if stack.len() == 0 {
            if start >= n {
                break;
            }
            if !evaluated[start] && states[start] == 0 {
                proof {
                    lemma_unvisited_set(states@, dependents@, start as int, 1u8, n as int);
                }
                states.set(start, 1u8);
                stack.push((start, 0));
                assert(stack@ =~= seq![(start, 0usize)]);
            }
            start = start + 1;
            proof {
                t = t + 1;
                assert(walk_step(before, adj, evaluated@, fields@, ids@, ic, items@) == (Walk {
                    start: start as int,
                    states: states@,
                    stack: stack@,
                    found: diagnostic_views(out@),
                }));
            }
        } else {
            let top = stack.len() - 1;
            let (node, index) = stack[top];
            let ghost before_stack = stack@;
            proof {
                assert(adj[node as int] == dependents@[node as int]@);
            }
            if index < dependents[node].len() {
                stack.set(top, (node, index + 1));
                proof {
                    assert(stack@.drop_last() =~= before_stack.drop_last());
                    assert(stack@[top as int] == (node, (index + 1) as usize));
                    assert(frame_work(stack@, dependents@) == frame_work(before_stack.drop_last(), dependents@)
                        + dependents@[node as int]@.len() - index);
                    assert(frame_work(before_stack, dependents@) == frame_work(before_stack.drop_last(), dependents@)
                        + dependents@[node as int]@.len() - index + 1);
                }
                let ghost stack1 = stack@;
                let child = dependents[node][index];
                assert(dependents@[node as int]@.contains(child)) by {
                    assert(dependents@[node as int]@[index as int] == child);
                }
                if !evaluated[child] {
                    if states[child] == 0 {
                        proof {
                            lemma_unvisited_set(states@, dependents@, child as int, 1u8, n as int);
                        }
                        states.set(child, 1u8);
                        stack.push((child, 0));
                        proof {
                            assert(stack@.drop_last() =~= stack1);
                            assert(frame_work(stack@, dependents@) == frame_work(stack1, dependents@)
                                + dependents@[child as int]@.len() + 1);
                            assert forall|k: int| 0 <= k < stack@.len() - 1 implies dependents@[(#[trigger] stack@[k]).0 as int]@.contains(
                                stack@[k + 1].0,
                            ) by {
                                assert(stack@[k] == stack1[k]);
                                if k < stack@.len() - 2 {
                                    assert(stack@[k + 1] == stack1[k + 1]);
                                    assert(stack1[k].0 == before_stack[k].0);
                                    assert(stack1[k + 1].0 == before_stack[k + 1].0);
                                } else {
                                    assert(stack@[k].0 == node);
                                }
                            }
                        }
                    } else if states[child] == 1 {
                        let ghost found_before = diagnostic_views(out@);
                        match loop_report(&stack, child, fields, ids, item_count, dependents, evaluated, items) {
                            Some(diagnostic) => {
                                let ghost previous = out@;
                                out.push(diagnostic);
                                proof {
                                    assert(diagnostic_views(out@) =~= found_before + seq![diagnostic@]);
                                    assert forall|i: int| 0 <= i < out@.len() implies reports_loop(
                                        #[trigger] out@[i],
                                        fields@,
                                        ids@,
                                        item_count,
                                        dependents@,
                                        evaluated@,
                                        items@,
                                    ) by {
                                        if i < previous.len() {
                                            assert(out@[i] == previous[i]);
                                        }
                                    }
                                }
                            },
                            None => {
                                assert(diagnostic_views(out@) =~= found_before + Seq::<DiagnosticView>::empty());
                            },
                        }
                    }
                }
                proof {
                    t = t + 1;
                    assert(walk_step(before, adj, evaluated@, fields@, ids@, ic, items@) == (Walk {
                        start: start as int,
                        states: states@,
                        stack: stack@,
                        found: diagnostic_views(out@),
                    }));
                }
            } else {
                proof {
                    lemma_unvisited_set(states@, dependents@, node as int, 2u8, n as int);
                }
                states.set(node, 2u8);
                stack.pop();
                proof {
                    assert(stack@ =~= before_stack.drop_last());
                    assert(frame_work(before_stack, dependents@) == frame_work(stack@, dependents@) + 1);
                    t = t + 1;
                    assert(walk_step(before, adj, evaluated@, fields@, ids@, ic, items@) == (Walk {
                        start: start as int,
                        states: states@,
                        stack: stack@,
                        found: diagnostic_views(out@),
                    }));
                }
            }
        }
        proof {
            lemma_frame_work_nonnegative(stack@, dependents@);
        }
    }
    out
}

} // verus!
