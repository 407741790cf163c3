//! Structured filter clauses — the shape the filter editor exchanges — and
//! their conversion to and from the `where:` clause-string grammar.
//!
//! A clause decomposes to a guided [`Condition`] when it is a single
//! comparison on a *local* field, or a membership test (`field in a,b` /
//! `field not in a,b`) on one local field, which the parser desugars into a
//! flat same-field `Or` / `And` and this module folds back. Everything else
//! falls back to [`Clause::Raw`].

use vstd::prelude::*;

use crate::query::parse::{parse_where, spec_parse_where};
use crate::query::types::{
    token_of, Comparison, ComparisonView, FieldReference, FieldReferenceView, Operator,
    Predicate, PredicateView,
};
use crate::text::{concat, join, join_strings, string_of, trim, trim_chars};

verus! {

// ── Wire types ──────────────────────────────────────────────────────

/// A single guided filter condition: one local field, one operator, and its
/// operand — a scalar `value` for most operators, a `values` list for `in` /
/// `not in`, and neither for the presence checks.
#[derive(Debug, Clone, PartialEq, Eq)]
pub struct Condition {
    pub field: String,
    pub operator: Operator,
    /// The scalar operand; absent for the presence checks and for the
    /// list-valued operators.
    pub value: Option<String>,
    /// The operand list for `in` / `not in`, empty for every other operator.
    pub values: Vec<String>,
}

pub struct ConditionView {
    pub field: Seq<char>,
    pub operator: Operator,
    pub value: Option<Seq<char>>,
    pub values: Seq<Seq<char>>,
}

pub open spec fn opt_view(value: Option<String>) -> Option<Seq<char>> {
    match value {
        Some(text) => Some(text@),
        None => None,
    }
}

pub open spec fn strings_view(values: Seq<String>) -> Seq<Seq<char>> {
    values.map_values(|value: String| value@)
}

impl View for Condition {
    type V = ConditionView;

    open spec fn view(&self) -> ConditionView {
        ConditionView {
            field: self.field@,
            operator: self.operator,
            value: opt_view(self.value),
            values: strings_view(self.values@),
        }
    }
}

/// Why a [`Condition`] cannot be turned into a clause string.
#[derive(Debug, Clone, PartialEq, Eq)]
pub enum ConditionError {
    /// A list operator was given a scalar `value`.
    ScalarOnListOperator { operator: &'static str },
    /// A scalar operator was given a `values` list.
    ListOnScalarOperator { operator: &'static str },
    /// A list operator got no members, or an empty one.
    EmptyValueList { operator: &'static str },
}

pub enum ConditionErrorView {
    ScalarOnListOperator { operator: Seq<char> },
    ListOnScalarOperator { operator: Seq<char> },
    EmptyValueList { operator: Seq<char> },
}

impl View for ConditionError {
    type V = ConditionErrorView;

    open spec fn view(&self) -> ConditionErrorView {
        match self {
            ConditionError::ScalarOnListOperator { operator } => {
                ConditionErrorView::ScalarOnListOperator { operator: operator@ }
            },
            ConditionError::ListOnScalarOperator { operator } => {
                ConditionErrorView::ListOnScalarOperator { operator: operator@ }
            },
            ConditionError::EmptyValueList { operator } => ConditionErrorView::EmptyValueList {
                operator: operator@,
            },
        }
    }
}

/// One clause of a view's filter: a guided [`Condition`], or a raw clause
/// string treated as opaque.
#[derive(Debug, Clone, PartialEq, Eq)]
pub enum Clause {
    /// A guided field/operator/value condition.
    Comparison(Condition),
    /// A raw clause string, passed through verbatim.
    Raw { raw: String },
}

pub enum ClauseView {
    Comparison(ConditionView),
    Raw { raw: Seq<char> },
}

impl View for Clause {
    type V = ClauseView;

    open spec fn view(&self) -> ClauseView {
        match self {
            Clause::Comparison(condition) => ClauseView::Comparison(condition@),
            Clause::Raw { raw } => ClauseView::Raw { raw: raw@ },
        }
    }
}

// ── Structured → string ─────────────────────────────────────────────

/// The clause text of a scalar comparison.
pub open spec fn scalar_clause(field: Seq<char>, operator: Operator, value: Seq<char>) -> Seq<char> {
    match operator {
        Operator::Matches => field + value,
        Operator::IsSet => field + seq!['?'],
        Operator::IsNotSet => seq!['!'] + field + seq!['?'],
        _ => field + token_of(operator) + value,
    }
}

/// The clause text of a condition, or why it has none.
pub open spec fn spec_serialize_condition(condition: ConditionView) -> Result<
    Seq<char>,
    ConditionErrorView,
> {
    let operator = condition.operator;
    if operator == Operator::In || operator == Operator::NotIn {
        if condition.value is Some {
            Err(ConditionErrorView::ScalarOnListOperator { operator: token_of(operator) })
        } else if condition.values.len() == 0 || exists|i: int|
            0 <= i < condition.values.len() && trim(#[trigger] condition.values[i]).len() == 0 {
            Err(ConditionErrorView::EmptyValueList { operator: token_of(operator) })
        } else {
            Ok(
                condition.field + seq![' '] + token_of(operator) + seq![' '] + join(
                    condition.values,
                    seq![','],
                ),
            )
        }
    } else if condition.values.len() != 0 {
        Err(ConditionErrorView::ListOnScalarOperator { operator: token_of(operator) })
    } else {
        let value = match condition.value {
            Some(text) => text,
            None => Seq::empty(),
        };
        Ok(scalar_clause(condition.field, operator, value))
    }
}

/// Serialize a guided condition into a `where:` clause string in the
/// grammar [`parse_where`] accepts.
///
/// For `Matches`, `value` already carries the full `/pattern/flags` form.
/// `In` / `NotIn` join their `values` with commas. Fails when the operand
/// does not match the operator's arity.
pub fn serialize_condition(condition: &Condition) -> (r: Result<String, ConditionError>)
    ensures
        match r {
            Ok(text) => spec_serialize_condition(condition@) == Ok::<
                Seq<char>,
                ConditionErrorView,
            >(text@),
            Err(error) => spec_serialize_condition(condition@) == Err::<
                Seq<char>,
                ConditionErrorView,
            >(error@),
        },
{
    let field = condition.field.as_str();
    let operator = condition.operator;
    proof {
        reveal_strlit(" ");
        reveal_strlit(",");
        reveal_strlit("?");
        reveal_strlit("!");
        assert(" "@ =~= seq![' ']);
        assert(","@ =~= seq![',']);
        assert("?"@ =~= seq!['?']);
        assert("!"@ =~= seq!['!']);
    }
    if operator.is_list_valued() {
        if condition.value.is_some() {
            return Err(ConditionError::ScalarOnListOperator { operator: operator.token() });
        }
        let mut i: usize = 0;
        while i < condition.values.len()
            invariant
                i <= condition.values@.len(),
                condition.value is None,
                operator == condition.operator,
                operator == Operator::In || operator == Operator::NotIn,
                forall|k: int|
                    0 <= k < i ==> trim((#[trigger] condition.values@[k])@).len() > 0,
            decreases condition.values@.len() - i,
        {
            let member = crate::text::chars_of(condition.values[i].as_str());
            if trim_chars(member.as_slice()).len() == 0 {
                assert(trim(condition@.values[i as int]).len() == 0);
                return Err(ConditionError::EmptyValueList { operator: operator.token() });
            }
            i = i + 1;
        }
        if condition.values.len() == 0 {
            return Err(ConditionError::EmptyValueList { operator: operator.token() });
        }
        assert forall|k: int| 0 <= k < condition@.values.len() implies trim(
            #[trigger] condition@.values[k],
        ).len() > 0 by {
            assert(condition@.values[k] == condition.values@[k]@);
        }
        let members = join_strings(condition.values.as_slice(), ",");
        let head = concat(field, " ");
        let with_token = concat(head.as_str(), operator.token());
        let with_space = concat(with_token.as_str(), " ");
        let text = concat(with_space.as_str(), members.as_str());
        return Ok(text);
    }
    if condition.values.len() != 0 {
        return Err(ConditionError::ListOnScalarOperator { operator: operator.token() });
    }
    let value: &str = match &condition.value {
        Some(text) => text.as_str(),
        None => "",
    };
    proof {
        reveal_strlit("");
        assert(""@ =~= Seq::<char>::empty());
    }
    let text = match operator {
        Operator::Matches => concat(field, value),
        Operator::IsSet => concat(field, "?"),
        Operator::IsNotSet => {
            let bang_field = concat("!", field);
            concat(bang_field.as_str(), "?")
        },
        _ => {
            let head = concat(field, operator.token());
            concat(head.as_str(), value)
        },
    };
    Ok(text)
}

/// The persisted strings of a clause list: every clause serialized, or the
/// first condition that fails.
pub open spec fn spec_clauses_to_strings(clauses: Seq<ClauseView>) -> Result<
    Seq<Seq<char>>,
    ConditionErrorView,
>
    decreases clauses.len(),
{
    if clauses.len() == 0 {
        Ok(Seq::empty())
    } else {
        let head = match clauses[0] {
            ClauseView::Comparison(condition) => spec_serialize_condition(condition),
            ClauseView::Raw { raw } => Ok(raw),
        };
        match head {
            Err(error) => Err(error),
            Ok(text) => match spec_clauses_to_strings(clauses.drop_first()) {
                Ok(rest) => Ok(seq![text] + rest),
                Err(error) => Err(error),
            },
        }
    }
}

/// Serialize a list of clauses to the `where:` strings persisted in
/// `views.yaml`. Raw clauses pass through unchanged.
pub fn clauses_to_strings(clauses: &[Clause]) -> (r: Result<Vec<String>, ConditionError>)
    ensures
        match r {
            Ok(texts) => spec_clauses_to_strings(clauses@.map_values(|c: Clause| c@)) == Ok::<
                Seq<Seq<char>>,
                ConditionErrorView,
            >(strings_view(texts@)),
            Err(error) => spec_clauses_to_strings(clauses@.map_values(|c: Clause| c@)) == Err::<
                Seq<Seq<char>>,
                ConditionErrorView,
            >(error@),
        },
{
    let ghost all = clauses@.map_values(|c: Clause| c@);
    let mut texts: Vec<String> = Vec::new();
    let mut i: usize = 0;
    assert(all.skip(0) =~= all);
    assert(strings_view(texts@) =~= Seq::<Seq<char>>::empty());
    while i < clauses.len()
        invariant
            i <= clauses@.len(),
            all == clauses@.map_values(|c: Clause| c@),
            spec_clauses_to_strings(all) == match spec_clauses_to_strings(all.skip(i as int)) {
                Ok(rest) => Ok::<Seq<Seq<char>>, ConditionErrorView>(strings_view(texts@) + rest),
                Err(error) => Err(error),
            },
        decreases clauses@.len() - i,
    {
        proof {
            assert(all.skip(i as int).drop_first() =~= all.skip(i + 1));
            assert(all.skip(i as int)[0] == clauses@[i as int]@);
        }
        let text = match &clauses[i] {
            Clause::Comparison(condition) => serialize_condition(condition),
            Clause::Raw { raw } => Ok(raw.clone()),
        };
        match text {
            Ok(text) => {
                proof {
                    assert(strings_view(texts@.push(text)) =~= strings_view(texts@).push(text@));
                    let rest = spec_clauses_to_strings(all.skip(i + 1));
                    if let Ok(rest) = rest {
                        assert(strings_view(texts@) + (seq![text@] + rest) =~= strings_view(
                            texts@,
                        ).push(text@) + rest);
                    }
                }
                texts.push(text);
            },
            Err(error) => {
                return Err(error);
            },
        }
        i = i + 1;
    }
    assert(all.skip(clauses@.len() as int) =~= Seq::<ClauseView>::empty());
    assert(strings_view(texts@) + Seq::<Seq<char>>::empty() =~= strings_view(texts@));
    Ok(texts)
}

// ── String → structured ─────────────────────────────────────────────

/// Guided rows are local-field only.
pub open spec fn local_name(field: FieldReferenceView) -> Option<Seq<char>> {
    match field {
        FieldReferenceView::Local(name) => Some(name),
        FieldReferenceView::Related { .. } => None,
    }
}

/// A bare comparison as a guided condition.
pub open spec fn condition_of_comparison(comparison: ComparisonView) -> Option<ConditionView> {
    match local_name(comparison.field) {
        None => None,
        Some(name) => Some(
            ConditionView {
                field: name,
                operator: comparison.operator,
                value: if comparison.operator == Operator::IsSet || comparison.operator
                    == Operator::IsNotSet {
                    None
                } else {
                    Some(comparison.operand.text())
                },
                values: Seq::empty(),
            },
        ),
    }
}

/// A branch of a flat membership tree: a local comparison of `name` with
/// the member operator.
pub open spec fn is_member_branch(branch: PredicateView, name: Seq<char>, member_operator: Operator) -> bool {
    match branch {
        PredicateView::Comparison(comparison) => comparison.operator == member_operator
            && comparison.field == FieldReferenceView::Local(name),
        _ => false,
    }
}

pub open spec fn branch_text(branch: PredicateView) -> Seq<char> {
    match branch {
        PredicateView::Comparison(comparison) => comparison.operand.text(),
        _ => Seq::empty(),
    }
}

/// The flat same-field tree a membership test desugars to, folded back.
pub open spec fn condition_of_membership(branches: Seq<PredicateView>, operator: Operator) -> Option<
    ConditionView,
> {
    let member_operator = if operator == Operator::NotIn {
        Operator::NotEqual
    } else {
        Operator::Equal
    };
    if branches.len() == 0 {
        None
    } else {
        match branches[0] {
            PredicateView::Comparison(first) => match local_name(first.field) {
                Some(name) => if forall|i: int|
                    0 <= i < branches.len() ==> is_member_branch(
                        #[trigger] branches[i],
                        name,
                        member_operator,
                    ) {
                    Some(
                        ConditionView {
                            field: name,
                            operator,
                            value: None,
                            values: branches.map_values(|b: PredicateView| branch_text(b)),
                        },
                    )
                } else {
                    None
                },
                None => None,
            },
            _ => None,
        }
    }
}

/// The predicate shapes a guided row maps to.
pub open spec fn condition_of(predicate: PredicateView) -> Option<ConditionView> {
    match predicate {
        PredicateView::Comparison(comparison) => condition_of_comparison(comparison),
        PredicateView::Not(inner) => match *inner {
            PredicateView::Comparison(comparison) => if comparison.operator == Operator::IsSet {
                match local_name(comparison.field) {
                    Some(name) => Some(
                        ConditionView {
                            field: name,
                            operator: Operator::IsNotSet,
                            value: None,
                            values: Seq::empty(),
                        },
                    ),
                    None => None,
                }
            } else {
                None
            },
            _ => None,
        },
        PredicateView::Or(branches) => condition_of_membership(branches, Operator::In),
        PredicateView::And(branches) => condition_of_membership(branches, Operator::NotIn),
    }
}

/// What a stored clause string decomposes to.
pub open spec fn spec_decompose_clause(raw: Seq<char>) -> ClauseView {
    match spec_parse_where(raw) {
        Ok(predicate) => match condition_of(predicate) {
            Some(condition) => ClauseView::Comparison(condition),
            None => ClauseView::Raw { raw },
        },
        Err(_) => ClauseView::Raw { raw },
    }
}

/// Turn a stored clause string into a [`Clause`]: a guided
/// [`Clause::Comparison`] when it is a single comparison on a local field
/// or a membership test, otherwise [`Clause::Raw`] — including when it does
/// not parse.
pub fn decompose_clause(raw: &str) -> (r: Clause)
    ensures
        r@ == spec_decompose_clause(raw@),
{
    match parse_where(raw) {
        Ok(predicate) => match condition_from_predicate(&predicate) {
            Some(condition) => Clause::Comparison(condition),
            None => Clause::Raw { raw: raw.to_owned() },
        },
        Err(_) => Clause::Raw { raw: raw.to_owned() },
    }
}

/// Decompose every clause string in a list.
pub fn decompose_clauses(raws: &[String]) -> (r: Vec<Clause>)
    ensures
        r@.len() == raws@.len(),
        forall|i: int| 0 <= i < raws@.len() ==> (#[trigger] r@[i])@ == spec_decompose_clause(raws@[i]@),
{
    let mut out: Vec<Clause> = Vec::new();
    let mut i: usize = 0;
    while i < raws.len()
        invariant
            i <= raws@.len(),
            out@.len() == i,
            forall|k: int| 0 <= k < i ==> (#[trigger] out@[k])@ == spec_decompose_clause(raws@[k]@),
        decreases raws@.len() - i,
    {
        out.push(decompose_clause(raws[i].as_str()));
        i = i + 1;
    }
    out
}

/// Recognize the predicate shapes a guided row maps to: a bare comparison,
/// `Not(IsSet)` folded back to `IsNotSet`, and the two membership shapes.
pub fn condition_from_predicate(predicate: &Predicate) -> (r: Option<Condition>)
    ensures
        match r {
            Some(condition) => condition_of(predicate.tree()) == Some(condition@),
            None => condition_of(predicate.tree()) is None,
        },
{
    match predicate {
        Predicate::Comparison(comparison) => condition_from_comparison(comparison),
        Predicate::Not(inner) => match &**inner {
            Predicate::Comparison(comparison) => {
                assert((**inner).tree() == PredicateView::Comparison(comparison@));
                assert(predicate.tree() == PredicateView::Not(Box::new(PredicateView::Comparison(comparison@))));
                if comparison.operator == Operator::IsSet {
                    match local_field(&comparison.field) {
                        Some(name) => {
                            let r = Condition {
                                field: name,
                                operator: Operator::IsNotSet,
                                value: None,
                                values: Vec::new(),
                            };
                            assert(strings_view(r.values@) =~= Seq::<Seq<char>>::empty());
                            Some(r)
                        },
                        None => None,
                    }
                } else {
                    None
                }
            },
            _ => {
                proof {
                    match &**inner {
                        Predicate::And(b) => assert((**inner).tree() is And),
                        Predicate::Or(b) => assert((**inner).tree() is Or),
                        Predicate::Not(b) => assert((**inner).tree() is Not),
                        _ => {},
                    }
                }
                None
            },
        },
        Predicate::Or(branches) => {
            let r = condition_from_membership(branches.as_slice(), Operator::In);
            proof {
                if let PredicateView::Or(got) = predicate.tree() {
                    assert(got =~= Seq::new(branches@.len(), |i: int| branches@[i].tree()));
                }
                assert(condition_of(predicate.tree()) == condition_of_membership(Seq::new(branches@.len(), |i: int| branches@[i].tree()), Operator::In));
            }
            r
        },
        Predicate::And(branches) => {
            let r = condition_from_membership(branches.as_slice(), Operator::NotIn);
            proof {
                if let PredicateView::And(got) = predicate.tree() {
                    assert(got =~= Seq::new(branches@.len(), |i: int| branches@[i].tree()));
                }
            }
            r
        },
    }
}

/// Fold the flat, same-field predicate a membership test desugars to back
/// into one condition: an `Or` of `field = value` becomes `in`, an `And` of
/// `field != value` becomes `not in`. Any other shape stays raw.
fn condition_from_membership(branches: &[Predicate], operator: Operator) -> (r: Option<Condition>)
    ensures
        ({
            let trees = Seq::new(branches@.len(), |i: int| branches@[i].tree());
            match r {
                Some(condition) => condition_of_membership(trees, operator) == Some(condition@),
                None => condition_of_membership(trees, operator) is None,
            }
        }),
{
    let ghost trees = Seq::new(branches@.len(), |i: int| branches@[i].tree());
    if branches.len() == 0 {
        return None;
    }
    let member_operator = if operator == Operator::NotIn {
        Operator::NotEqual
    } else {
        Operator::Equal
    };
    let ghost expected: Option<Seq<char>> = match trees[0] {
        PredicateView::Comparison(first) => local_name(first.field),
        _ => None,
    };
    let mut field: Option<String> = None;
    let mut values: Vec<String> = Vec::new();
    let mut i: usize = 0;
    while i < branches.len()
        invariant
            i <= branches@.len(),
            branches@.len() > 0,
            member_operator == if operator == Operator::NotIn {
                Operator::NotEqual
            } else {
                Operator::Equal
            },
            trees == Seq::new(branches@.len(), |i: int| branches@[i].tree()),
            expected == match trees[0] {
                PredicateView::Comparison(first) => local_name(first.field),
                _ => None,
            },
            values@.len() == i,
            i == 0 <==> field is None,
            field matches Some(name) ==> ({
                &&& expected == Some(name@)
                &&& forall|k: int| 0 <= k < i ==> is_member_branch(#[trigger] trees[k], name@, member_operator)
                &&& forall|k: int| 0 <= k < i ==> (#[trigger] values@[k])@ == branch_text(trees[k])
            }),
        decreases branches@.len() - i,
    {
        assert(trees[i as int] == branches@[i as int].tree());
        let comparison = match &branches[i] {
            Predicate::Comparison(comparison) => comparison,
            _ => {
                assert(expected is None || !is_member_branch(trees[i as int], expected->0, member_operator));
                return None;
            },
        };
        assert(trees[i as int] == PredicateView::Comparison(comparison@));
        if comparison.operator != member_operator {
            assert(expected is None || !is_member_branch(trees[i as int], expected->0, member_operator));
            return None;
        }
        let name = match local_field(&comparison.field) {
            Some(name) => name,
            None => {
                assert(expected is None || !is_member_branch(trees[i as int], expected->0, member_operator));
                return None;
            },
        };
        match &field {
            None => {
                field = Some(name);
            },
            Some(existing) => {
                if !existing.eq(&name) {
                    assert(!is_member_branch(trees[i as int], existing@, member_operator));
                    return None;
                }
            },
        }
        let value = crate::text::chars_of(comparison.operand.text());
        values.push(string_of(value.as_slice()));
        i = i + 1;
    }
    let name = match field {
        Some(name) => name,
        None => {
            return None;
        },
    };
    let r = Condition { field: name, operator, value: None, values };
    assert(strings_view(r.values@) =~= trees.map_values(|b: PredicateView| branch_text(b)));
    Some(r)
}

fn condition_from_comparison(comparison: &Comparison) -> (r: Option<Condition>)
    ensures
        match r {
            Some(condition) => condition_of_comparison(comparison@) == Some(condition@),
            None => condition_of_comparison(comparison@) is None,
        },
{
    let field = local_field(&comparison.field)?;
    let value = match comparison.operator {
        Operator::IsSet | Operator::IsNotSet => None,
        _ => {
            let text = crate::text::chars_of(comparison.operand.text());
            Some(string_of(text.as_slice()))
        },
    };
    let r = Condition { field, operator: comparison.operator, value, values: Vec::new() };
    assert(strings_view(r.values@) =~= Seq::<Seq<char>>::empty());
    Some(r)
}

/// Guided rows are local-field only; a cross-relation reference
/// (`parent.status`) stays in the raw escape hatch.
fn local_field(field: &FieldReference) -> (r: Option<String>)
    ensures
        match r {
            Some(name) => local_name(field@) == Some(name@),
            None => local_name(field@) is None,
        },
{
    match field {
        FieldReference::Local(name) => Some(name.clone()),
        FieldReference::Related { .. } => None,
    }
}

} // verus!
