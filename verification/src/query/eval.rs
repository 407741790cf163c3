//! Predicate evaluation: whether a work item matches a predicate.
//!
//! The evaluator is type-aware: the schema decides how a field's value is
//! compared (numerically for integers and durations, by text for strings,
//! by membership for lists). A field with no value satisfies the negative
//! comparisons and fails every other one; `field?` and `field!?` test for
//! presence. A related field (`parent.status`, `children.status`) matches
//! when any of the items it reaches matches.

use vstd::prelude::*;

use crate::duration::{parse_duration, read_duration};
use crate::model::{index_of_name, lemma_index_of_name, type_text, FieldType, FieldValue, FieldValueView, WorkItem};
use crate::numbers::{compare_decimals, decimal_compare, parse_i64, parse_int};
use crate::order::{text_less, text_lt};
use crate::query::format::{display_text, format_field_value};
use crate::query::types::{
    regex_finds, Comparison, ComparisonView, FieldReference, FieldReferenceView, Operand,
    OperandView, Operator, Predicate, PredicateView,
};
use crate::schema::{config_type, definition_of, inverse_owner, Schema};
use crate::store::{item_ids, present_items, sources_of, Store, StoreView};
use crate::text::{find, find_chars, chars_of, str_eq};

verus! {

// ── Errors ──────────────────────────────────────────────────────────

/// Errors produced during predicate evaluation.
#[derive(Debug, Clone)]
pub enum QueryEvalError {
    /// The relation segment names a field that is not a link or links field.
    NotARelation { relation: String, actual_type: FieldType },
    /// The relation segment names neither a field nor an inverse relation.
    UnknownRelation { relation: String },
}

pub enum EvalErrorView {
    NotARelation { relation: Seq<char>, actual_type: FieldType },
    UnknownRelation { relation: Seq<char> },
}

impl View for QueryEvalError {
    type V = EvalErrorView;

    open spec fn view(&self) -> EvalErrorView {
        match self {
            QueryEvalError::NotARelation { relation, actual_type } => EvalErrorView::NotARelation {
                relation: relation@,
                actual_type: *actual_type,
            },
            QueryEvalError::UnknownRelation { relation } => EvalErrorView::UnknownRelation {
                relation: relation@,
            },
        }
    }
}

pub open spec fn eval_error_text(error: EvalErrorView) -> Seq<char> {
    match error {
        EvalErrorView::NotARelation { relation, actual_type } => "'"@ + relation
            + "' is not a relation field (type "@ + type_text(actual_type)
            + "); dot notation requires a link or links field or an inverse relation"@,
        EvalErrorView::UnknownRelation { relation } => "'"@ + relation
            + "' is not a defined field or inverse relation"@,
    }
}

impl QueryEvalError {
    /// The error's display form.
    pub fn to_text(&self) -> (r: String)
        ensures
            r@ == eval_error_text(self@),
    {
        match self {
            QueryEvalError::NotARelation { relation, actual_type } => {
                let head = crate::text::concat("'", relation.as_str());
                let middle = crate::text::concat(head.as_str(), "' is not a relation field (type ");
                let typed = crate::text::concat(middle.as_str(), actual_type.name());
                crate::text::concat(
                    typed.as_str(),
                    "); dot notation requires a link or links field or an inverse relation",
                )
            },
            QueryEvalError::UnknownRelation { relation } => {
                let head = crate::text::concat("'", relation.as_str());
                crate::text::concat(head.as_str(), "' is not a defined field or inverse relation")
            },
        }
    }
}

// ── Comparing one value ─────────────────────────────────────────────

/// Whether an order (-1, 0 or 1 for below, equal, above) satisfies an
/// ordering operator. Substring and regex operators never do.
pub open spec fn order_holds(order: int, operator: Operator) -> bool {
    match operator {
        Operator::Equal => order == 0,
        Operator::NotEqual => order != 0,
        Operator::GreaterThan => order > 0,
        Operator::LessThan => order < 0,
        Operator::GreaterOrEqual => order >= 0,
        Operator::LessOrEqual => order <= 0,
        _ => false,
    }
}

pub open spec fn int_order(a: int, b: int) -> int {
    if a < b { -1 } else if a == b { 0 } else { 1 }
}

pub open spec fn text_order(a: Seq<char>, b: Seq<char>) -> int {
    if text_lt(a, b) { -1 } else if a == b { 0 } else { 1 }
}

/// A regex operand tested against one text; a literal operand never matches.
pub open spec fn regex_holds(operand: OperandView, haystack: Seq<char>) -> bool {
    match operand {
        OperandView::Regex(regex) => regex_finds(regex.pattern, haystack),
        OperandView::Value(_) => false,
    }
}

/// String-like comparison: the value's display text against the operand.
pub open spec fn string_holds(value: FieldValueView, comparison: ComparisonView) -> bool {
    let actual = display_text(value);
    let expected = comparison.operand.text();
    match comparison.operator {
        Operator::Contains => find(actual, expected) is Some,
        Operator::Matches => regex_holds(comparison.operand, actual),
        operator => order_holds(text_order(actual, expected), operator),
    }
}

pub open spec fn integer_holds(value: FieldValueView, comparison: ComparisonView) -> bool {
    match (value, parse_int(comparison.operand.text())) {
        (FieldValueView::Integer(actual), Some(expected)) => order_holds(
            int_order(actual, expected),
            comparison.operator,
        ),
        _ => false,
    }
}

/// Floating-point fields are compared by the decimal numbers written.
pub open spec fn float_holds(value: FieldValueView, comparison: ComparisonView) -> bool {
    match value {
        FieldValueView::Float(actual) => match compare_decimals(actual, comparison.operand.text()) {
            Some(order) => order_holds(order, comparison.operator),
            None => false,
        },
        _ => false,
    }
}

pub open spec fn duration_holds(value: FieldValueView, comparison: ComparisonView) -> bool {
    match (value, read_duration(comparison.operand.text())) {
        (FieldValueView::Duration(actual), Some(expected)) => order_holds(
            int_order(actual, expected),
            comparison.operator,
        ),
        _ => false,
    }
}

/// Colors compare for equality only.
pub open spec fn color_holds(value: FieldValueView, comparison: ComparisonView) -> bool {
    match value {
        FieldValueView::Color(actual) => match comparison.operator {
            Operator::Equal => actual == comparison.operand.text(),
            Operator::NotEqual => actual != comparison.operand.text(),
            _ => false,
        },
        _ => false,
    }
}

/// Booleans compare for equality only, against `true` or `false`.
pub open spec fn boolean_holds(value: FieldValueView, comparison: ComparisonView) -> bool {
    let expected = comparison.operand.text();
    match value {
        FieldValueView::Boolean(actual) => if expected == "true"@ || expected == "false"@ {
            let wanted = expected == "true"@;
            match comparison.operator {
                Operator::Equal => actual == wanted,
                Operator::NotEqual => actual != wanted,
                _ => false,
            }
        } else {
            false
        },
        _ => false,
    }
}

/// Collection comparison: equality is membership, `~` and regexes test
/// each element, ordering never matches.
pub open spec fn collection_holds(elements: Seq<Seq<char>>, comparison: ComparisonView) -> bool {
    let expected = comparison.operand.text();
    match comparison.operator {
        Operator::Equal => elements.contains(expected),
        Operator::NotEqual => !elements.contains(expected),
        Operator::Contains => exists|i: int| 0 <= i < elements.len() && find(#[trigger] elements[i], expected) is Some,
        Operator::Matches => exists|i: int| 0 <= i < elements.len() && regex_holds(comparison.operand, #[trigger] elements[i]),
        _ => false,
    }
}

pub open spec fn list_holds(value: FieldValueView, comparison: ComparisonView) -> bool {
    match value {
        FieldValueView::Multichoice(values) => collection_holds(values, comparison),
        FieldValueView::List(values) => collection_holds(values, comparison),
        _ => false,
    }
}

pub open spec fn links_holds(value: FieldValueView, comparison: ComparisonView) -> bool {
    match value {
        FieldValueView::Links(ids) => collection_holds(ids, comparison),
        _ => false,
    }
}

/// A comparison against one value, typed by the field's schema type.
pub open spec fn single_holds(value: Option<FieldValueView>, field_type: Option<FieldType>, comparison: ComparisonView) -> bool {
    match comparison.operator {
        Operator::IsSet => value is Some,
        Operator::IsNotSet => value is None,
        _ => match value {
            None => comparison.operator == Operator::NotEqual || comparison.operator == Operator::NotIn,
            Some(value) => match field_type {
                Some(FieldType::Integer) => integer_holds(value, comparison),
                Some(FieldType::Float) => float_holds(value, comparison),
                Some(FieldType::Boolean) => boolean_holds(value, comparison),
                Some(FieldType::Duration) => duration_holds(value, comparison),
                Some(FieldType::Color) => color_holds(value, comparison),
                Some(FieldType::Multichoice) => list_holds(value, comparison),
                Some(FieldType::List) => list_holds(value, comparison),
                Some(FieldType::Links) => links_holds(value, comparison),
                _ => string_holds(value, comparison),
            },
        },
    }
}

// ── Related fields ──────────────────────────────────────────────────

/// The problem with a relation segment, if it has one: a field that is not
/// a link, or a name that is neither a field nor an inverse.
pub open spec fn relation_problem(relation: Seq<char>, schema: Schema) -> Option<EvalErrorView> {
    match definition_of(schema.fields@, relation) {
        Some(definition) => {
            let field_type = config_type(definition.type_config);
            if field_type == FieldType::Link || field_type == FieldType::Links {
                None
            } else {
                Some(EvalErrorView::NotARelation { relation, actual_type: field_type })
            }
        },
        None => if inverse_owner(schema.fields@, relation) is Some {
            None
        } else {
            Some(EvalErrorView::UnknownRelation { relation })
        },
    }
}

/// The value of `field` on the item `id`, when the store holds that item.
pub open spec fn value_on(items: Seq<WorkItem>, id: Seq<char>, field: Seq<char>) -> Option<Option<FieldValueView>> {
    match index_of_name(item_ids(items), id) {
        Some(i) => Some(items[i].fields.lookup(field)),
        None => None,
    }
}

/// The values of `field` on the items `ids` names, skipping ids of no item.
pub open spec fn values_on(items: Seq<WorkItem>, ids: Seq<Seq<char>>, field: Seq<char>) -> Seq<Option<FieldValueView>>
    decreases ids.len(),
{
    if ids.len() == 0 {
        Seq::empty()
    } else {
        values_on(items, ids.drop_last(), field) + match value_on(items, ids.last(), field) {
            Some(value) => seq![value],
            None => Seq::empty(),
        }
    }
}

/// What a related reference reaches: the values of `field` on the items
/// `relation` leads to from `item`. A link leads to its target (no value
/// when the target is missing), a links field to each target the store
/// holds, an inverse to each item that links here.
pub open spec fn related_values(item: WorkItem, relation: Seq<char>, field: Seq<char>, schema: Schema, store: StoreView) -> Seq<Option<FieldValueView>> {
    match definition_of(schema.fields@, relation) {
        Some(definition) => if config_type(definition.type_config) == FieldType::Link {
            match item.fields.lookup(relation) {
                Some(FieldValueView::Link(target)) => match value_on(store.items, target, field) {
                    Some(value) => seq![value],
                    None => seq![None],
                },
                _ => seq![None],
            }
        } else {
            match item.fields.lookup(relation) {
                Some(FieldValueView::Links(targets)) => values_on(store.items, targets, field),
                _ => Seq::empty(),
            }
        },
        None => match inverse_owner(schema.fields@, relation) {
            Some(owner) => present_items(store.items, sources_of(store.links, owner, item.id@)).map_values(
                |source: WorkItem| source.fields.lookup(field),
            ),
            None => Seq::empty(),
        },
    }
}

/// The schema type of the field `name`.
pub open spec fn type_of(schema: Schema, name: Seq<char>) -> Option<FieldType> {
    match definition_of(schema.fields@, name) {
        Some(definition) => Some(config_type(definition.type_config)),
        None => None,
    }
}

/// Whether any of `values` satisfies the comparison.
pub open spec fn any_holds(values: Seq<Option<FieldValueView>>, field_type: Option<FieldType>, comparison: ComparisonView) -> bool {
    exists|i: int| 0 <= i < values.len() && single_holds(#[trigger] values[i], field_type, comparison)
}

/// The outcome of one comparison on `item`.
pub open spec fn comparison_outcome(item: WorkItem, comparison: ComparisonView, schema: Schema, store: StoreView) -> Result<bool, EvalErrorView> {
    match comparison.field {
        FieldReferenceView::Local(name) => Ok(
            single_holds(item.fields.lookup(name), type_of(schema, name), comparison),
        ),
        FieldReferenceView::Related { relation, field } => match relation_problem(relation, schema) {
            Some(problem) => Err(problem),
            None => Ok(
                any_holds(related_values(item, relation, field, schema, store), type_of(schema, field), comparison),
            ),
        },
    }
}

// ── Predicates ──────────────────────────────────────────────────────

/// The outcome of a predicate on `item`: `and` stops at the first branch
/// that fails or errs, `or` at the first that holds or errs.
pub open spec fn predicate_outcome(item: WorkItem, tree: PredicateView, schema: Schema, store: StoreView) -> Result<bool, EvalErrorView>
    decreases tree,
{
    match tree {
        PredicateView::Comparison(comparison) => comparison_outcome(item, comparison, schema, store),
        PredicateView::And(branches) => all_outcome(item, branches, schema, store),
        PredicateView::Or(branches) => any_outcome(item, branches, schema, store),
        PredicateView::Not(inner) => match predicate_outcome(item, *inner, schema, store) {
            Ok(holds) => Ok(!holds),
            Err(error) => Err(error),
        },
    }
}

pub open spec fn all_outcome(item: WorkItem, branches: Seq<PredicateView>, schema: Schema, store: StoreView) -> Result<bool, EvalErrorView>
    decreases branches,
{
    if branches.len() == 0 {
        Ok(true)
    } else {
        match predicate_outcome(item, branches[0], schema, store) {
            Err(error) => Err(error),
            Ok(false) => Ok(false),
            Ok(true) => all_outcome(item, branches.drop_first(), schema, store),
        }
    }
}

pub open spec fn any_outcome(item: WorkItem, branches: Seq<PredicateView>, schema: Schema, store: StoreView) -> Result<bool, EvalErrorView>
    decreases branches,
{
    if branches.len() == 0 {
        Ok(false)
    } else {
        match predicate_outcome(item, branches[0], schema, store) {
            Err(error) => Err(error),
            Ok(true) => Ok(true),
            Ok(false) => any_outcome(item, branches.drop_first(), schema, store),
        }
    }
}

/// No comparison in the tree uses `in` or `not in`: the parser spells those
/// out as `or` and `and` of equalities.
pub open spec fn without_lists(tree: PredicateView) -> bool
    decreases tree,
{
    match tree {
        PredicateView::Comparison(comparison) => comparison.operator != Operator::In
            && comparison.operator != Operator::NotIn,
        PredicateView::And(branches) => forall|i: int| 0 <= i < branches.len() ==> without_lists(#[trigger] branches[i]),
        PredicateView::Or(branches) => forall|i: int| 0 <= i < branches.len() ==> without_lists(#[trigger] branches[i]),
        PredicateView::Not(inner) => without_lists(*inner),
    }
}

/// Every `in` / `not in` comparison of the tree is on a field of the item
/// itself that the item does not carry. The query parser turns such
/// comparisons into `=` and `!=` branches; a hand-built one is answered
/// where the field is absent, and nowhere else.
pub open spec fn lists_only_on_absent(item: WorkItem, tree: PredicateView) -> bool
    decreases tree,
{
    match tree {
        PredicateView::Comparison(comparison) => (comparison.operator == Operator::In || comparison.operator
            == Operator::NotIn) ==> (comparison.field matches FieldReferenceView::Local(name) && !item.fields.has(name)),
        PredicateView::And(branches) => forall|i: int|
            0 <= i < branches.len() ==> lists_only_on_absent(item, #[trigger] branches[i]),
        PredicateView::Or(branches) => forall|i: int|
            0 <= i < branches.len() ==> lists_only_on_absent(item, #[trigger] branches[i]),
        PredicateView::Not(inner) => lists_only_on_absent(item, *inner),
    }
}

/// A tree without `in` / `not in` comparisons (every tree the parser
/// gives) admits every item.
pub proof fn law_parsed_predicates_admit_every_item(item: WorkItem, tree: PredicateView)
    requires
        without_lists(tree),
    ensures
        lists_only_on_absent(item, tree),
    decreases tree,
{
    match tree {
        PredicateView::Comparison(_) => {},
        PredicateView::And(branches) => {
            assert forall|i: int| 0 <= i < branches.len() implies lists_only_on_absent(item, #[trigger] branches[i]) by {
                law_parsed_predicates_admit_every_item(item, branches[i]);
            }
        },
        PredicateView::Or(branches) => {
            assert forall|i: int| 0 <= i < branches.len() implies lists_only_on_absent(item, #[trigger] branches[i]) by {
                law_parsed_predicates_admit_every_item(item, branches[i]);
            }
        },
        PredicateView::Not(inner) => {
            law_parsed_predicates_admit_every_item(item, *inner);
        },
    }
}

pub open spec fn outcome_view(r: Result<bool, QueryEvalError>) -> Result<bool, EvalErrorView> {
    match r {
        Ok(holds) => Ok(holds),
        Err(error) => Err(error@),
    }
}

// ── Evaluation ──────────────────────────────────────────────────────

fn order_satisfies(order: i8, operator: Operator) -> (r: bool)
    ensures
        r == order_holds(order as int, operator),
{
    match operator {
        Operator::Equal => order == 0,
        Operator::NotEqual => order != 0,
        Operator::GreaterThan => order > 0,
        Operator::LessThan => order < 0,
        Operator::GreaterOrEqual => order >= 0,
        Operator::LessOrEqual => order <= 0,
        _ => false,
    }
}

fn int_order_exec(a: i64, b: i64) -> (r: i8)
    ensures
        r as int == int_order(a as int, b as int),
{
    if a < b { -1 } else if a == b { 0 } else { 1 }
}

fn text_order_exec(a: &str, b: &str) -> (r: i8)
    ensures
        r as int == text_order(a@, b@),
{
    if text_less(a, b) { -1 } else if str_eq(a, b) { 0 } else { 1 }
}

fn eval_regex(operand: &Operand, haystack: &str) -> (r: bool)
    requires
        operand.wf(),
    ensures
        r == regex_holds(operand@, haystack@),
{
    match operand.regex() {
        Some(regex) => regex.is_match(haystack),
        None => false,
    }
}

fn text_contains(haystack: &str, needle: &str) -> (r: bool)
    ensures
        r == (find(haystack@, needle@) is Some),
{
    let h = chars_of(haystack);
    let n = chars_of(needle);
    find_chars(h.as_slice(), n.as_slice()).is_some()
}

fn eval_string(value: &FieldValue, comparison: &Comparison) -> (r: bool)
    requires
        comparison.operand.wf(),
    ensures
        r == string_holds(value@, comparison@),
{
    let actual = format_field_value(value);
    let expected = comparison.operand.text();
    match comparison.operator {
        Operator::Contains => text_contains(actual.as_str(), expected),
        Operator::Matches => eval_regex(&comparison.operand, actual.as_str()),
        operator => order_satisfies(text_order_exec(actual.as_str(), expected), operator),
    }
}

fn eval_integer(value: &FieldValue, comparison: &Comparison) -> (r: bool)
    ensures
        r == integer_holds(value@, comparison@),
{
    match (value, parse_i64(comparison.operand.text())) {
        (FieldValue::Integer(actual), Some(expected)) => order_satisfies(
            int_order_exec(*actual, expected),
            comparison.operator,
        ),
        _ => false,
    }
}

fn eval_float(value: &FieldValue, comparison: &Comparison) -> (r: bool)
    ensures
        r == float_holds(value@, comparison@),
{
    match value {
        FieldValue::Float(actual) => match decimal_compare(actual.as_str(), comparison.operand.text()) {
            Some(order) => order_satisfies(order, comparison.operator),
            None => false,
        },
        _ => false,
    }
}

fn eval_duration(value: &FieldValue, comparison: &Comparison) -> (r: bool)
    ensures
        r == duration_holds(value@, comparison@),
{
    match (value, parse_duration(comparison.operand.text())) {
        (FieldValue::Duration(actual), Some(expected)) => order_satisfies(
            int_order_exec(*actual, expected),
            comparison.operator,
        ),
        _ => false,
    }
}

fn eval_color(value: &FieldValue, comparison: &Comparison) -> (r: bool)
    ensures
        r == color_holds(value@, comparison@),
{
    match value {
        FieldValue::Color(actual) => match comparison.operator {
            Operator::Equal => str_eq(actual.as_str(), comparison.operand.text()),
            Operator::NotEqual => !str_eq(actual.as_str(), comparison.operand.text()),
            _ => false,
        },
        _ => false,
    }
}

fn eval_boolean(value: &FieldValue, comparison: &Comparison) -> (r: bool)
    ensures
        r == boolean_holds(value@, comparison@),
{
    let expected = comparison.operand.text();
    match value {
        FieldValue::Boolean(actual) => {
            let is_true = str_eq(expected, "true");
            let is_false = str_eq(expected, "false");
            if is_true || is_false {
                match comparison.operator {
                    Operator::Equal => *actual == is_true,
                    Operator::NotEqual => *actual != is_true,
                    _ => false,
                }
            } else {
                false
            }
        },
        _ => false,
    }
}

fn eval_collection(elements: &Vec<&str>, comparison: &Comparison) -> (r: bool)
    requires
        comparison.operand.wf(),
    ensures
        r == collection_holds(elements@.map_values(|e: &str| e@), comparison@),
{
    let ghost views = elements@.map_values(|e: &str| e@);
    let expected = comparison.operand.text();
    match comparison.operator {
        Operator::Equal | Operator::NotEqual => {
            let mut found = false;
            let mut i: usize = 0;
            while i < elements.len()
                invariant
                    i <= elements@.len(),
                    views == elements@.map_values(|e: &str| e@),
                    expected@ == comparison@.operand.text(),
                    found <==> exists|k: int| 0 <= k < i && views[k] == expected@,
                decreases elements@.len() - i,
            {
                if str_eq(elements[i], expected) {
                    assert(views[i as int] == expected@);
                    found = true;
                }
                i = i + 1;
            }
            proof {
                if found {
                    let k = choose|k: int| 0 <= k < elements@.len() && views[k] == expected@;
                    assert(views.contains(expected@));
                } else {
                    assert(!views.contains(expected@));
                }
            }
            if comparison.operator == Operator::Equal {
                found
            } else {
                !found
            }
        },
        Operator::Contains => {
            let mut i: usize = 0;
            while i < elements.len()
                invariant
                    i <= elements@.len(),
                    views == elements@.map_values(|e: &str| e@),
                    expected@ == comparison@.operand.text(),
                    comparison.operator == Operator::Contains,
                    forall|k: int| 0 <= k < i ==> !(find(#[trigger] views[k], expected@) is Some),
                decreases elements@.len() - i,
            {
                if text_contains(elements[i], expected) {
                    assert(find(views[i as int], expected@) is Some);
                    return true;
                }
                i = i + 1;
            }
            false
        },
        Operator::Matches => {
            let mut i: usize = 0;
            while i < elements.len()
                invariant
                    i <= elements@.len(),
                    views == elements@.map_values(|e: &str| e@),
                    comparison.operand.wf(),
                    comparison.operator == Operator::Matches,
                    forall|k: int| 0 <= k < i ==> !regex_holds(comparison@.operand, #[trigger] views[k]),
                decreases elements@.len() - i,
            {
                if eval_regex(&comparison.operand, elements[i]) {
                    assert(regex_holds(comparison@.operand, views[i as int]));
                    return true;
                }
                i = i + 1;
            }
            false
        },
        _ => false,
    }
}

fn eval_list(value: &FieldValue, comparison: &Comparison) -> (r: bool)
    requires
        comparison.operand.wf(),
    ensures
        r == list_holds(value@, comparison@),
{
    match value {
        FieldValue::Multichoice(values) | FieldValue::List(values) => {
            let mut elements: Vec<&str> = Vec::new();
            let mut i: usize = 0;
            while i < values.len()
                invariant
                    i <= values@.len(),
                    elements@.map_values(|e: &str| e@) == values@.take(i as int).map_values(|v: String| v@),
                decreases values@.len() - i,
            {
                let ghost before = elements@;
                elements.push(values[i].as_str());
                proof {
                    assert(elements@.map_values(|e: &str| e@) =~= before.map_values(|e: &str| e@).push(values@[i as int]@));
                    assert(values@.take(i + 1).map_values(|v: String| v@) =~= values@.take(i as int).map_values(
                        |v: String| v@,
                    ).push(values@[i as int]@));
                }
                i = i + 1;
            }
            assert(values@.take(values@.len() as int) =~= values@);
            eval_collection(&elements, comparison)
        },
        _ => false,
    }
}

fn eval_links(value: &FieldValue, comparison: &Comparison) -> (r: bool)
    requires
        comparison.operand.wf(),
    ensures
        r == links_holds(value@, comparison@),
{
    match value {
        FieldValue::Links(ids) => {
            let mut elements: Vec<&str> = Vec::new();
            let mut i: usize = 0;
            while i < ids.len()
                invariant
                    i <= ids@.len(),
                    elements@.map_values(|e: &str| e@) == crate::model::ids_of(ids@.take(i as int)),
                decreases ids@.len() - i,
            {
                let ghost before = elements@;
                elements.push(ids[i].as_str());
                proof {
                    assert(elements@.map_values(|e: &str| e@) =~= before.map_values(|e: &str| e@).push(ids@[i as int]@));
                    assert(crate::model::ids_of(ids@.take(i + 1)) =~= crate::model::ids_of(ids@.take(i as int)).push(
                        ids@[i as int]@,
                    ));
                }
                i = i + 1;
            }
            assert(ids@.take(ids@.len() as int) =~= ids@);
            eval_collection(&elements, comparison)
        },
        _ => false,
    }
}

/// Evaluate a comparison against one value, typed by the field's schema type.
fn eval_single(value: Option<&FieldValue>, field_type: Option<FieldType>, comparison: &Comparison) -> (r: bool)
    requires
        comparison.operand.wf(),
    ensures
        r == single_holds(
            match value {
                Some(v) => Some(v@),
                None => None,
            },
            field_type,
            comparison@,
        ),
{
    match comparison.operator {
        Operator::IsSet => return value.is_some(),
        Operator::IsNotSet => return value.is_none(),
        _ => {},
    }
    let value = match value {
        Some(value) => value,
        None => return comparison.operator.is_negative(),
    };
    match field_type {
        Some(FieldType::Integer) => eval_integer(value, comparison),
        Some(FieldType::Float) => eval_float(value, comparison),
        Some(FieldType::Boolean) => eval_boolean(value, comparison),
        Some(FieldType::Duration) => eval_duration(value, comparison),
        Some(FieldType::Color) => eval_color(value, comparison),
        Some(FieldType::Multichoice) | Some(FieldType::List) => eval_list(value, comparison),
        Some(FieldType::Links) => eval_links(value, comparison),
        _ => eval_string(value, comparison),
    }
}

/// Check a relation segment against the schema.
fn validate_relation(relation: &str, schema: &Schema) -> (r: Result<(), QueryEvalError>)
    ensures
        match r {
            Ok(()) => relation_problem(relation@, *schema) is None,
            Err(error) => relation_problem(relation@, *schema) == Some(error@),
        },
{
    if let Some(definition) = schema.field(relation) {
        let field_type = definition.field_type();
        if field_type == FieldType::Link || field_type == FieldType::Links {
            return Ok(());
        }
        return Err(QueryEvalError::NotARelation { relation: relation.to_owned(), actual_type: field_type });
    }
    if schema.inverse_of(relation).is_some() {
        return Ok(());
    }
    Err(QueryEvalError::UnknownRelation { relation: relation.to_owned() })
}

pub open spec fn option_views(values: Seq<Option<&FieldValue>>) -> Seq<Option<FieldValueView>> {
    values.map_values(|value: Option<&FieldValue>| match value {
        Some(v) => Some(v@),
        None => None,
    })
}

/// The values of `field` on the items a related reference reaches.
fn related_values_exec<'a>(
    item: &'a WorkItem,
    relation: &str,
    field: &str,
    schema: &Schema,
    store: &'a Store,
) -> (r: Vec<Option<&'a FieldValue>>)
    ensures
        option_views(r@) == related_values(*item, relation@, field@, *schema, store@),
{
    let mut out: Vec<Option<&'a FieldValue>> = Vec::new();
    match schema.field(relation) {
        Some(definition) => {
            if definition.field_type() == FieldType::Link {
                match item.fields.get(relation) {
                    Some(FieldValue::Link(target)) => {
                        match store.get(target.as_str()) {
                            Some(target_item) => {
                                out.push(target_item.fields.get(field));
                            },
                            None => {
                                out.push(None);
                            },
                        }
                        proof {
                            crate::model::lemma_index_of_name(item_ids(store@.items), target@);
                        }
                    },
                    _ => {
                        out.push(None);
                    },
                }
                assert(option_views(out@) =~= related_values(*item, relation@, field@, *schema, store@));
            } else {
                match item.fields.get(relation) {
                    Some(FieldValue::Links(targets)) => {
                        let ghost target_ids = crate::model::ids_of(targets@);
                        let mut i: usize = 0;
                        while i < targets.len()
                            invariant
                                i <= targets@.len(),
                                target_ids == crate::model::ids_of(targets@),
                                option_views(out@) == values_on(store@.items, target_ids.take(i as int), field@),
                            decreases targets@.len() - i,
                        {
                            proof {
                                assert(target_ids.take(i + 1).drop_last() =~= target_ids.take(i as int));
                                assert(target_ids.take(i + 1).last() == targets@[i as int]@);
                                crate::model::lemma_index_of_name(item_ids(store@.items), targets@[i as int]@);
                            }
                            let ghost before = out@;
                            match store.get(targets[i].as_str()) {
                                Some(target_item) => {
                                    let value = target_item.fields.get(field);
                                    out.push(value);
                                    assert(option_views(out@) =~= option_views(before).push(match value {
                                        Some(v) => Some(v@),
                                        None => None,
                                    }));
                                },
                                None => {},
                            }
                            assert(option_views(out@) =~= values_on(store@.items, target_ids.take(i + 1), field@));
                            i = i + 1;
                        }
                        assert(target_ids.take(targets@.len() as int) =~= target_ids);
                    },
                    _ => {
                        assert(option_views(out@) =~= Seq::<Option<FieldValueView>>::empty());
                    },
                }
            }
        },
        None => {
            match schema.inverse_of(relation) {
                Some(owner) => {
                    let sources = store.referring_items(item.id.as_str(), owner);
                    let ghost reached = present_items(store@.items, sources_of(store@.links, owner@, item.id@));
                    let mut i: usize = 0;
                    while i < sources.len()
                        invariant
                            i <= sources@.len(),
                            sources@.len() == reached.len(),
                            forall|k: int| 0 <= k < sources@.len() ==> *(#[trigger] sources@[k]) == reached[k],
                            option_views(out@) == reached.take(i as int).map_values(
                                |source: WorkItem| source.fields.lookup(field@),
                            ),
                        decreases sources@.len() - i,
                    {
                        let ghost before = out@;
                        let value = sources[i].fields.get(field);
                        out.push(value);
                        proof {
                            assert(option_views(out@) =~= option_views(before).push(match value {
                                Some(v) => Some(v@),
                                None => None,
                            }));
                            assert(reached.take(i + 1) =~= reached.take(i as int).push(reached[i as int]));
                            assert(reached.take(i + 1).map_values(|source: WorkItem| source.fields.lookup(field@))
                                =~= reached.take(i as int).map_values(|source: WorkItem| source.fields.lookup(field@)).push(
                                reached[i as int].fields.lookup(field@),
                            ));
                        }
                        i = i + 1;
                    }
                    assert(reached.take(reached.len() as int) =~= reached);
                },
                None => {
                    assert(option_views(out@) =~= Seq::<Option<FieldValueView>>::empty());
                },
            }
        },
    }
    out
}

/// Evaluate one comparison on `item`.
fn eval_comparison(item: &WorkItem, comparison: &Comparison, schema: &Schema, store: &Store) -> (r: Result<bool, QueryEvalError>)
    requires
        comparison.operand.wf(),
    ensures
        outcome_view(r) == comparison_outcome(*item, comparison@, *schema, store@),
{
    match &comparison.field {
        FieldReference::Local(name) => {
            let value = item.fields.get(name.as_str());
            let field_type = match schema.field(name.as_str()) {
                Some(definition) => Some(definition.field_type()),
                None => None,
            };
            Ok(eval_single(value, field_type, comparison))
        },
        FieldReference::Related { relation, field } => {
            match validate_relation(relation.as_str(), schema) {
                Err(error) => return Err(error),
                Ok(()) => {},
            }
            let values = related_values_exec(item, relation.as_str(), field.as_str(), schema, store);
            let field_type = match schema.field(field.as_str()) {
                Some(definition) => Some(definition.field_type()),
                None => None,
            };
            let ghost views = option_views(values@);
            let mut i: usize = 0;
            while i < values.len()
                invariant
                    i <= values@.len(),
                    views == option_views(values@),
                    views == related_values(*item, relation@, field@, *schema, store@),
                    field_type == type_of(*schema, field@),
                    relation_problem(relation@, *schema) is None,
                    comparison.field == (FieldReference::Related { relation: *relation, field: *field }),
                    comparison.operand.wf(),
                    forall|k: int| 0 <= k < i ==> !single_holds(#[trigger] views[k], field_type, comparison@),
                decreases values@.len() - i,
            {
                if eval_single(values[i], field_type, comparison) {
                    assert(single_holds(views[i as int], field_type, comparison@));
                    return Ok(true);
                }
                i = i + 1;
            }
            Ok(false)
        },
    }
}

/// Evaluate a predicate against a work item.
pub fn matches_predicate(item: &WorkItem, predicate: &Predicate, schema: &Schema, store: &Store) -> (r: Result<bool, QueryEvalError>)
    requires
        predicate.wf(),
        lists_only_on_absent(*item, predicate.tree()),
    ensures
        outcome_view(r) == predicate_outcome(*item, predicate.tree(), *schema, store@),
    decreases predicate,
{
    match predicate {
        Predicate::Comparison(comparison) => eval_comparison(item, comparison, schema, store),
        Predicate::And(branches) => {
            let ghost trees = predicate.tree()->And_0;
            let mut i: usize = 0;
            assert(trees.skip(0) =~= trees);
            while i < branches.len()
                invariant
                    i <= branches@.len(),
                    *predicate == Predicate::And(*branches),
                    predicate.tree() == PredicateView::And(trees),
                    trees.len() == branches@.len(),
                    forall|k: int| 0 <= k < trees.len() ==> trees[k] == (#[trigger] branches@[k]).tree(),
                    forall|k: int| 0 <= k < branches@.len() ==> (#[trigger] branches@[k]).wf(),
                    forall|k: int| 0 <= k < trees.len() ==> lists_only_on_absent(*item, #[trigger] trees[k]),
                    all_outcome(*item, trees, *schema, store@) == all_outcome(*item, trees.skip(i as int), *schema, store@),
                decreases branches@.len() - i,
            {
                proof {
                    assert(trees.skip(i as int)[0] == trees[i as int]);
                    assert(trees.skip(i as int).drop_first() =~= trees.skip(i + 1));
                    assert(decreases_to!(branches => branches@));
                    assert(decreases_to!(branches@ => branches@[i as int]));
                }
                match matches_predicate(item, &branches[i], schema, store) {
                    Err(error) => return Err(error),
                    Ok(false) => return Ok(false),
                    Ok(true) => {},
                }
                i = i + 1;
            }
            Ok(true)
        },
        Predicate::Or(branches) => {
            let ghost trees = predicate.tree()->Or_0;
            let mut i: usize = 0;
            assert(trees.skip(0) =~= trees);
            while i < branches.len()
                invariant
                    i <= branches@.len(),
                    *predicate == Predicate::Or(*branches),
                    predicate.tree() == PredicateView::Or(trees),
                    trees.len() == branches@.len(),
                    forall|k: int| 0 <= k < trees.len() ==> trees[k] == (#[trigger] branches@[k]).tree(),
                    forall|k: int| 0 <= k < branches@.len() ==> (#[trigger] branches@[k]).wf(),
                    forall|k: int| 0 <= k < trees.len() ==> lists_only_on_absent(*item, #[trigger] trees[k]),
                    any_outcome(*item, trees, *schema, store@) == any_outcome(*item, trees.skip(i as int), *schema, store@),
                decreases branches@.len() - i,
            {
                proof {
                    assert(trees.skip(i as int)[0] == trees[i as int]);
                    assert(trees.skip(i as int).drop_first() =~= trees.skip(i + 1));
                    assert(decreases_to!(branches => branches@));
                    assert(decreases_to!(branches@ => branches@[i as int]));
                }
                match matches_predicate(item, &branches[i], schema, store) {
                    Err(error) => return Err(error),
                    Ok(true) => return Ok(true),
                    Ok(false) => {},
                }
                i = i + 1;
            }
            Ok(false)
        },
        Predicate::Not(inner) => match matches_predicate(item, inner, schema, store) {
            Ok(holds) => Ok(!holds),
            Err(error) => Err(error),
        },
    }
}

// ── Laws ────────────────────────────────────────────────────────────

/// A field with no value satisfies exactly the negative comparisons: `!=`,
/// `not in` and `!?`. So `status != done` and `status not in done, removed`
/// agree on an item without a status, and adding `status?` excludes it.
pub proof fn law_absent_field_satisfies_only_negations(
    item: WorkItem,
    name: Seq<char>,
    comparison: ComparisonView,
    schema: Schema,
    store: StoreView,
)
    requires
        item.fields.lookup(name) is None,
        comparison.field == FieldReferenceView::Local(name),
    ensures
        comparison_outcome(item, comparison, schema, store) == Ok::<bool, EvalErrorView>(
            comparison.operator == Operator::NotEqual || comparison.operator == Operator::NotIn
                || comparison.operator == Operator::IsNotSet,
        ),
{
}

/// `not` turns a match into a miss and back, and passes errors through.
pub proof fn law_not_negates(item: WorkItem, inner: PredicateView, schema: Schema, store: StoreView)
    ensures
        predicate_outcome(item, PredicateView::Not(Box::new(inner)), schema, store) == match predicate_outcome(
            item,
            inner,
            schema,
            store,
        ) {
            Ok(holds) => Ok::<bool, EvalErrorView>(!holds),
            Err(error) => Err(error),
        },
{
}


/// A boolean is shown as `true` or `false`, and its display text, used as
/// the operand of `=`, matches that boolean and not the other.
pub proof fn law_boolean_display_reads_back(flag: bool, field: FieldReferenceView)
    ensures
        display_text(FieldValueView::Boolean(flag)) == (if flag {
            "true"@
        } else {
            "false"@
        }),
        boolean_holds(
            FieldValueView::Boolean(flag),
            ComparisonView {
                field,
                operator: Operator::Equal,
                operand: OperandView::Value(display_text(FieldValueView::Boolean(flag))),
            },
        ),
        !boolean_holds(
            FieldValueView::Boolean(!flag),
            ComparisonView {
                field,
                operator: Operator::Equal,
                operand: OperandView::Value(display_text(FieldValueView::Boolean(flag))),
            },
        ),
{
    reveal_strlit("true");
    reveal_strlit("false");
    assert("true"@ =~= seq!['t', 'r', 'u', 'e']);
    assert("false"@ =~= seq!['f', 'a', 'l', 's', 'e']);
    assert("true"@ != "false"@) by {
        assert("true"@.len() != "false"@.len());
    }
}

/// What an ordering operator says of two numbers; the substring and regex
/// operators say nothing of numbers.
pub open spec fn numbers_satisfy(actual: int, expected: int, operator: Operator) -> bool {
    match operator {
        Operator::Equal => actual == expected,
        Operator::NotEqual => actual != expected,
        Operator::GreaterThan => actual > expected,
        Operator::LessThan => actual < expected,
        Operator::GreaterOrEqual => actual >= expected,
        Operator::LessOrEqual => actual <= expected,
        _ => false,
    }
}

/// An integer field compared with a number written in decimal holds
/// exactly when the numbers stand in the operator's relation.
pub proof fn law_integer_comparison_is_numeric(
    actual: int,
    expected: int,
    operator: Operator,
    field: FieldReferenceView,
)
    requires
        i64::MIN <= expected <= i64::MAX,
        operator != Operator::In && operator != Operator::NotIn,
        operator != Operator::IsSet && operator != Operator::IsNotSet,
    ensures
        integer_holds(
            FieldValueView::Integer(actual),
            ComparisonView { field, operator, operand: OperandView::Value(crate::text::decimal(expected)) },
        ) == numbers_satisfy(actual, expected, operator),
{
    crate::numbers::law_decimal_text_reads_back(expected);
}

/// A float field compared with a decimal number holds exactly when the
/// numbers the two are written as stand in the operator's relation.
pub proof fn law_float_comparison_is_numeric(
    actual: Seq<char>,
    expected: Seq<char>,
    operator: Operator,
    field: FieldReferenceView,
)
    requires
        crate::numbers::read_decimal(actual) is Some,
        crate::numbers::read_decimal(expected) is Some,
        operator != Operator::In && operator != Operator::NotIn,
        operator != Operator::IsSet && operator != Operator::IsNotSet,
    ensures
        ({
            let x = crate::numbers::read_decimal(actual)->0;
            let y = crate::numbers::read_decimal(expected)->0;
            let scale = if x.fraction.len() >= y.fraction.len() {
                x.fraction.len()
            } else {
                y.fraction.len()
            };
            float_holds(
                FieldValueView::Float(actual),
                ComparisonView { field, operator, operand: OperandView::Value(expected) },
            ) == numbers_satisfy(
                crate::numbers::scaled_value(x, scale),
                crate::numbers::scaled_value(y, scale),
                operator,
            )
        }),
{
    crate::numbers::law_decimal_comparison_is_numeric(actual, expected);
}

/// A duration field compared with a duration written in shorthand (as
/// durations are shown) holds exactly when the numbers of seconds stand in
/// the operator's relation.
pub proof fn law_duration_comparison_is_numeric(
    actual: int,
    expected: int,
    operator: Operator,
    field: FieldReferenceView,
)
    requires
        i64::MIN <= expected <= i64::MAX,
    ensures
        duration_holds(
            FieldValueView::Duration(actual),
            ComparisonView {
                field,
                operator,
                operand: OperandView::Value(crate::duration::duration_text(expected)),
            },
        ) == numbers_satisfy(actual, expected, operator),
{
    crate::duration::law_duration_text_reads_back(expected);
}

/// On a list, multichoice or links field, `=` tests membership and `!=`
/// its absence, and `~` whether some element contains the text.
pub proof fn law_collection_comparisons_test_membership(
    elements: Seq<Seq<char>>,
    expected: Seq<char>,
    field_type: FieldType,
    field: FieldReferenceView,
)
    requires
        field_type == FieldType::List || field_type == FieldType::Multichoice || field_type == FieldType::Links,
    ensures
        ({
            let value = if field_type == FieldType::List {
                FieldValueView::List(elements)
            } else if field_type == FieldType::Multichoice {
                FieldValueView::Multichoice(elements)
            } else {
                FieldValueView::Links(elements)
            };
            let compare = |operator: Operator|
                single_holds(
                    Some(value),
                    Some(field_type),
                    ComparisonView { field, operator, operand: OperandView::Value(expected) },
                );
            &&& compare(Operator::Equal) == elements.contains(expected)
            &&& compare(Operator::NotEqual) == !elements.contains(expected)
            &&& compare(Operator::Contains) == exists|i: int|
                0 <= i < elements.len() && find(#[trigger] elements[i], expected) is Some
            &&& !compare(Operator::GreaterThan) && !compare(Operator::LessThan)
        }),
{
}

/// On a string or choice field, `=` and `!=` test the text for equality,
/// `<` and `>` order texts character by character, and `~` looks for the
/// operand inside the text.
pub proof fn law_text_comparisons(text: Seq<char>, expected: Seq<char>, choice: bool, field: FieldReferenceView)
    ensures
        ({
            let value = if choice {
                FieldValueView::Choice(text)
            } else {
                FieldValueView::String(text)
            };
            let field_type = if choice {
                FieldType::Choice
            } else {
                FieldType::String
            };
            let compare = |operator: Operator|
                single_holds(
                    Some(value),
                    Some(field_type),
                    ComparisonView { field, operator, operand: OperandView::Value(expected) },
                );
            &&& compare(Operator::Equal) == (text == expected)
            &&& compare(Operator::NotEqual) == (text != expected)
            &&& compare(Operator::LessThan) == text_lt(text, expected)
            &&& compare(Operator::GreaterThan) == text_lt(expected, text)
            &&& compare(Operator::Contains) == (find(text, expected) is Some)
        }),
{
    crate::order::lemma_text_lt_irreflexive(text);
    crate::order::lemma_text_lt_total(text, expected);
    crate::order::lemma_text_lt_asymmetric(text, expected);
}
} // verus!
