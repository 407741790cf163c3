//! Data types for the query engine: the predicate tree a `where:` clause
//! parses into, the comparison operators, and the request / result shapes.

use vstd::prelude::*;

use crate::model::FieldType;
use crate::text::concat;

verus! {

// ── Regular expressions ─────────────────────────────────────────────

/// Whether the regex engine accepts `pattern` (`regex::Regex::new` succeeds).
pub uninterp spec fn regex_accepts(pattern: Seq<char>) -> bool;

/// The engine's description of why it rejects `pattern`.
pub uninterp spec fn regex_rejection(pattern: Seq<char>) -> Seq<char>;

/// Whether `pattern` matches anywhere in `haystack` (`Regex::is_match`).
pub uninterp spec fn regex_finds(pattern: Seq<char>, haystack: Seq<char>) -> bool;

/// Builds a matcher for `pattern` with `regex::Regex::new` and keeps only the
/// outcome: success, or the error's display text. The matcher is dropped;
/// the contract claims that success depends on the pattern alone.
#[verifier::external_body]
pub(crate) fn regex_check(pattern: &str) -> (r: Result<(), String>)
    ensures
        r is Ok <==> regex_accepts(pattern@),
        r matches Err(reason) ==> reason@ == regex_rejection(pattern@),
{
    match regex::Regex::new(pattern) {
        Ok(_) => Ok(()),
        Err(error) => Err(error.to_string()),
    }
}

/// Builds a matcher for `pattern` with `regex::Regex::new` and asks `Regex::is_match`
/// whether it matches anywhere in `haystack`. The contract claims the
/// answer depends on the pattern and the haystack alone.
#[verifier::external_body]
pub(crate) fn regex_is_match(pattern: &str, haystack: &str) -> (r: bool)
    requires
        regex_accepts(pattern@),
    ensures
        r == regex_finds(pattern@, haystack@),
{
    match regex::Regex::new(pattern) {
        Ok(matcher) => matcher.is_match(haystack),
        Err(_) => false,
    }
}

/// The pattern handed to the engine: the `i` flag becomes an inline `(?i)`.
pub open spec fn full_pattern(pattern: Seq<char>, flags: Seq<char>) -> Seq<char> {
    if flags.contains('i') {
        seq!['(', '?', 'i', ')'] + pattern
    } else {
        pattern
    }
}

/// The `/pattern/flags` clause form.
pub open spec fn regex_source(pattern: Seq<char>, flags: Seq<char>) -> Seq<char> {
    seq!['/'] + pattern + seq!['/'] + flags
}

/// Why the regex engine refused a pattern.
#[derive(Debug, Clone)]
pub struct RegexError {
    pub reason: String,
}

/// A regex operand, checked once at parse time, carrying its
/// `/pattern/flags` clause form as written for serialization.
#[derive(Debug, Clone)]
pub struct QueryRegex {
    source: String,
    pattern: String,
}

/// What a [`QueryRegex`] stands for: its clause form and the pattern the
/// engine runs.
pub struct RegexView {
    pub source: Seq<char>,
    pub pattern: Seq<char>,
}

impl View for QueryRegex {
    type V = RegexView;

    closed spec fn view(&self) -> RegexView {
        RegexView { source: self.source@, pattern: self.pattern@ }
    }
}

impl QueryRegex {
    /// Every value was built by [`QueryRegex::new`], so the engine accepts
    /// its pattern.
    pub open spec fn wf(&self) -> bool {
        regex_accepts(self@.pattern)
    }

    /// Check a pattern with its flags. `i` (case-insensitive) is the only
    /// flag; anything else the grammar rejects before reaching here.
    pub fn new(pattern: &str, flags: &str) -> (r: Result<Self, RegexError>)
        ensures
            r is Ok <==> regex_accepts(full_pattern(pattern@, flags@)),
            r matches Ok(regex) ==> regex@.source == regex_source(pattern@, flags@)
                && regex@.pattern == full_pattern(pattern@, flags@) && regex.wf(),
            r matches Err(error) ==> error.reason@ == regex_rejection(
                full_pattern(pattern@, flags@),
            ),
    {
        let flag_chars = crate::text::chars_of(flags);
        let full = if crate::text::contains_char(flag_chars.as_slice(), 'i') {
            concat("(?i)", pattern)
        } else {
            pattern.to_owned()
        };
        proof {
            reveal_strlit("(?i)");
            reveal_strlit("/");
            assert("(?i)"@ =~= seq!['(', '?', 'i', ')']);
        }
        match regex_check(full.as_str()) {
            Ok(()) => {
                let opened = concat("/", pattern);
                let closed = concat(opened.as_str(), "/");
                let source = concat(closed.as_str(), flags);
                Ok(QueryRegex { source, pattern: full })
            },
            Err(reason) => Err(RegexError { reason }),
        }
    }

    /// Whether the pattern matches anywhere in `haystack`.
    pub fn is_match(&self, haystack: &str) -> (r: bool)
        requires
            self.wf(),
        ensures
            r == regex_finds(self@.pattern, haystack@),
    {
        regex_is_match(self.pattern.as_str(), haystack)
    }

    /// The `/pattern/flags` clause form as written.
    pub fn source(&self) -> (r: &str)
        ensures
            r@ == self@.source,
    {
        self.source.as_str()
    }
}

// ── Predicate model ─────────────────────────────────────────────────

/// A reference to a field on a work item.
#[derive(Debug, Clone, PartialEq, Eq)]
pub enum FieldReference {
    /// A field on the current item, e.g. `"status"`.
    Local(String),
    /// A field on a related item, e.g. `"parent.status"` — the relation
    /// segment is a link/links field or a derived inverse.
    Related { relation: String, field: String },
}

pub enum FieldReferenceView {
    Local(Seq<char>),
    Related { relation: Seq<char>, field: Seq<char> },
}

impl View for FieldReference {
    type V = FieldReferenceView;

    open spec fn view(&self) -> FieldReferenceView {
        match self {
            FieldReference::Local(name) => FieldReferenceView::Local(name@),
            FieldReference::Related { relation, field } => FieldReferenceView::Related {
                relation: relation@,
                field: field@,
            },
        }
    }
}

/// The right-hand side of a comparison.
#[derive(Debug, Clone)]
pub enum Operand {
    /// A literal value — resolved against the field's schema type at
    /// evaluation time.
    Value(String),
    /// A regular expression, checked once at parse time. Carried by
    /// [`Operator::Matches`] comparisons.
    Regex(QueryRegex),
}

pub enum OperandView {
    Value(Seq<char>),
    Regex(RegexView),
}

impl View for Operand {
    type V = OperandView;

    open spec fn view(&self) -> OperandView {
        match self {
            Operand::Value(value) => OperandView::Value(value@),
            Operand::Regex(regex) => OperandView::Regex(regex@),
        }
    }
}

impl OperandView {
    /// The operand as clause text.
    pub open spec fn text(self) -> Seq<char> {
        match self {
            OperandView::Value(value) => value,
            OperandView::Regex(regex) => regex.source,
        }
    }
}

impl Operand {
    pub open spec fn wf(&self) -> bool {
        match self {
            Operand::Value(_) => true,
            Operand::Regex(regex) => regex.wf(),
        }
    }

    /// The operand as clause text: the literal value, or the regex's
    /// `/pattern/flags` form as written.
    pub fn text(&self) -> (r: &str)
        ensures
            r@ == self@.text(),
    {
        match self {
            Operand::Value(value) => value.as_str(),
            Operand::Regex(regex) => regex.source(),
        }
    }

    /// The regex, when this operand is one.
    pub fn regex(&self) -> (r: Option<&QueryRegex>)
        ensures
            match self {
                Operand::Regex(regex) => r == Some(regex),
                Operand::Value(_) => r is None,
            },
    {
        match self {
            Operand::Regex(regex) => Some(regex),
            Operand::Value(_) => None,
        }
    }
}

/// A comparison of a single field against an operand.
#[derive(Debug, Clone)]
pub struct Comparison {
    /// Which field to compare.
    pub field: FieldReference,
    /// The comparison operator.
    pub operator: Operator,
    /// What to compare against.
    pub operand: Operand,
}

pub struct ComparisonView {
    pub field: FieldReferenceView,
    pub operator: Operator,
    pub operand: OperandView,
}

impl View for Comparison {
    type V = ComparisonView;

    open spec fn view(&self) -> ComparisonView {
        ComparisonView { field: self.field@, operator: self.operator, operand: self.operand@ }
    }
}

/// A composable filter expression.
#[derive(Debug)]
pub enum Predicate {
    /// A single field comparison.
    Comparison(Comparison),
    /// All predicates must match.
    And(Vec<Predicate>),
    /// At least one predicate must match.
    Or(Vec<Predicate>),
    /// Negate the inner predicate.
    Not(Box<Predicate>),
}

pub enum PredicateView {
    Comparison(ComparisonView),
    And(Seq<PredicateView>),
    Or(Seq<PredicateView>),
    Not(Box<PredicateView>),
}

impl Predicate {
    /// The predicate as a mathematical tree.
    pub open spec fn tree(&self) -> PredicateView
        decreases self,
    {
        match self {
            Predicate::Comparison(comparison) => PredicateView::Comparison(comparison@),
            Predicate::And(branches) => PredicateView::And(
                Seq::new(
                    branches@.len(),
                    |i: int|
                        if 0 <= i < branches@.len() {
                            branches@[i].tree()
                        } else {
                            PredicateView::And(Seq::empty())
                        },
                ),
            ),
            Predicate::Or(branches) => PredicateView::Or(
                Seq::new(
                    branches@.len(),
                    |i: int|
                        if 0 <= i < branches@.len() {
                            branches@[i].tree()
                        } else {
                            PredicateView::And(Seq::empty())
                        },
                ),
            ),
            Predicate::Not(inner) => PredicateView::Not(Box::new(inner.tree())),
        }
    }

    /// Every regex operand in the tree was checked by the engine.
    pub open spec fn wf(&self) -> bool
        decreases self,
    {
        match self {
            Predicate::Comparison(comparison) => comparison.operand.wf(),
            Predicate::And(branches) => forall|i: int|
                0 <= i < branches@.len() ==> (#[trigger] branches@[i]).wf(),
            Predicate::Or(branches) => forall|i: int|
                0 <= i < branches@.len() ==> (#[trigger] branches@[i]).wf(),
            Predicate::Not(inner) => inner.wf(),
        }
    }
}

/// Comparison operators supported by the query engine.
#[derive(Debug, Clone, Copy, PartialEq, Eq, Structural)]
pub enum Operator {
    Equal,
    NotEqual,
    GreaterThan,
    LessThan,
    GreaterOrEqual,
    LessOrEqual,
    /// Substring match for string-like fields, membership check for list-like fields.
    Contains,
    /// Regular expression match.
    Matches,
    /// Field is present (has a value).
    IsSet,
    /// Field is absent (no value).
    IsNotSet,
    /// Field equals any of several values; desugared by the parser into an
    /// `Or` of `Equal` comparisons.
    In,
    /// Field equals none of several values; desugared into an `And` of
    /// `NotEqual` comparisons.
    NotIn,
}

/// How each operator is spelled in the clause grammar.
pub open spec fn token_of(operator: Operator) -> Seq<char> {
    match operator {
        Operator::Equal => seq!['='],
        Operator::NotEqual => seq!['!', '='],
        Operator::GreaterThan => seq!['>'],
        Operator::LessThan => seq!['<'],
        Operator::GreaterOrEqual => seq!['>', '='],
        Operator::LessOrEqual => seq!['<', '='],
        Operator::Contains => seq!['~'],
        Operator::Matches => seq!['/', '\u{2026}', '/'],
        Operator::IsSet => seq!['?'],
        Operator::IsNotSet => seq!['!', '?'],
        Operator::In => seq!['i', 'n'],
        Operator::NotIn => seq!['n', 'o', 't', ' ', 'i', 'n'],
    }
}

impl Operator {
    /// Whether this operator asserts the *absence* of a match rather than a
    /// match. An item whose field has no value satisfies these and fails
    /// every other value comparison.
    pub fn is_negative(self) -> (r: bool)
        ensures
            r == (self == Operator::NotEqual || self == Operator::NotIn),
    {
        matches!(self, Operator::NotEqual | Operator::NotIn)
    }

    /// Whether this operator takes a list of values rather than a single one.
    pub fn is_list_valued(self) -> (r: bool)
        ensures
            r == (self == Operator::In || self == Operator::NotIn),
    {
        matches!(self, Operator::In | Operator::NotIn)
    }

    /// How this operator is spelled in the clause grammar.
    pub fn token(self) -> (r: &'static str)
        ensures
            r@ == token_of(self),
    {
        proof {
            reveal_strlit("=");
            reveal_strlit("!=");
            reveal_strlit(">");
            reveal_strlit("<");
            reveal_strlit(">=");
            reveal_strlit("<=");
            reveal_strlit("~");
            reveal_strlit("/\u{2026}/");
            reveal_strlit("?");
            reveal_strlit("!?");
            reveal_strlit("in");
            reveal_strlit("not in");
        }
        match self {
            Operator::Equal => "=",
            Operator::NotEqual => "!=",
            Operator::GreaterThan => ">",
            Operator::LessThan => "<",
            Operator::GreaterOrEqual => ">=",
            Operator::LessOrEqual => "<=",
            Operator::Contains => "~",
            Operator::Matches => "/\u{2026}/",
            Operator::IsSet => "?",
            Operator::IsNotSet => "!?",
            Operator::In => "in",
            Operator::NotIn => "not in",
        }
    }
}

/// The operators the filter builder offers for a field type.
pub open spec fn offered_operators(field_type: FieldType) -> Seq<Operator> {
    let typed = match field_type {
        FieldType::String => seq![
            Operator::Equal,
            Operator::NotEqual,
            Operator::Contains,
            Operator::Matches,
        ],
        FieldType::Choice | FieldType::Link => seq![
            Operator::Equal,
            Operator::NotEqual,
            Operator::In,
            Operator::NotIn,
        ],
        FieldType::Date | FieldType::Integer | FieldType::Float | FieldType::Duration => seq![
            Operator::Equal,
            Operator::NotEqual,
            Operator::GreaterThan,
            Operator::LessThan,
            Operator::GreaterOrEqual,
            Operator::LessOrEqual,
        ],
        FieldType::Boolean | FieldType::Color => seq![Operator::Equal, Operator::NotEqual],
        FieldType::Multichoice | FieldType::Links => seq![
            Operator::Equal,
            Operator::NotEqual,
            Operator::In,
            Operator::NotIn,
            Operator::Contains,
            Operator::Matches,
        ],
        FieldType::List => seq![
            Operator::Equal,
            Operator::NotEqual,
            Operator::Contains,
            Operator::Matches,
        ],
    };
    typed + seq![Operator::IsSet, Operator::IsNotSet]
}

/// The operators the filter builder should *offer* for a field type — a
/// curated subset chosen for what reads meaningfully to a user, not the
/// full set the evaluator can compute. Presence checks apply to every type.
pub fn operators_for(field_type: FieldType) -> (r: Vec<Operator>)
    ensures
        r@ == offered_operators(field_type),
{
    let mut operators = match field_type {
        FieldType::String => vec![
            Operator::Equal,
            Operator::NotEqual,
            Operator::Contains,
            Operator::Matches,
        ],
        FieldType::Choice | FieldType::Link => vec![
            Operator::Equal,
            Operator::NotEqual,
            Operator::In,
            Operator::NotIn,
        ],
        FieldType::Date | FieldType::Integer | FieldType::Float | FieldType::Duration => vec![
            Operator::Equal,
            Operator::NotEqual,
            Operator::GreaterThan,
            Operator::LessThan,
            Operator::GreaterOrEqual,
            Operator::LessOrEqual,
        ],
        FieldType::Boolean | FieldType::Color => vec![Operator::Equal, Operator::NotEqual],
        FieldType::Multichoice | FieldType::Links => vec![
            Operator::Equal,
            Operator::NotEqual,
            Operator::In,
            Operator::NotIn,
            Operator::Contains,
            Operator::Matches,
        ],
        // A `list` holds free-form strings, so there is no known value set
        // to pick members from.
        FieldType::List => vec![
            Operator::Equal,
            Operator::NotEqual,
            Operator::Contains,
            Operator::Matches,
        ],
    };
    operators.push(Operator::IsSet);
    operators.push(Operator::IsNotSet);
    assert(operators@ =~= offered_operators(field_type));
    operators
}

/// Presence checks are offered for every field type.
pub proof fn law_presence_operators_always_offered(field_type: FieldType)
    ensures
        offered_operators(field_type).contains(Operator::IsSet),
        offered_operators(field_type).contains(Operator::IsNotSet),
{
    let ops = offered_operators(field_type);
    assert(ops[ops.len() - 2] == Operator::IsSet);
    assert(ops[ops.len() - 1] == Operator::IsNotSet);
}

// ── Query request and result ────────────────────────────────────────

/// A complete query: optional filter, sort order, and column selection.
#[derive(Debug)]
pub struct QueryRequest {
    /// Filter predicate. `None` means "match all items".
    pub predicate: Option<Predicate>,
    /// Sort specifications, applied in order.
    pub sort: Vec<SortSpec>,
    /// Column names to include in the result. Empty means "use defaults"
    /// (id + required schema fields).
    pub fields: Vec<String>,
}

/// A single sort specification: field name and direction.
#[derive(Debug, Clone)]
pub struct SortSpec {
    pub field: String,
    pub direction: SortDirection,
}

/// Sort direction.
#[derive(Debug, Clone, Copy, PartialEq, Eq, Structural)]
pub enum SortDirection {
    Ascending,
    Descending,
}

/// The result of executing a query.
#[derive(Debug, Clone)]
pub struct QueryResult {
    /// Column names, in display order.
    pub columns: Vec<String>,
    /// One row per matched work item, in final order.
    pub items: Vec<QueryRow>,
}

/// A single result row with pre-formatted display values.
#[derive(Debug, Clone)]
pub struct QueryRow {
    /// The work item's ID.
    pub id: String,
    /// One value per column (same length and order as [`QueryResult::columns`]).
    pub values: Vec<String>,
}

} // verus!
