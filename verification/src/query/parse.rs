//! Parser for `where:` filter clauses.
//!
//! Each clause is a single expression string; several clauses are combined
//! into `Predicate::And` by the caller — this parser handles one at a time.

use vstd::prelude::*;

use crate::query::types::{
    full_pattern, regex_accepts, regex_rejection, regex_source, Comparison, ComparisonView,
    FieldReference, FieldReferenceView, Operand, OperandView, Operator, Predicate,
    PredicateView, QueryRegex, RegexView,
};
use crate::text::{
    chars_of, find, find_chars, find_from, is_trimmed, is_whitespace, is_ws, lemma_find_from,
    lemma_last_index_below, lemma_trim, lemma_trim_trimmed, occurs_at, occurs_at_exec,
    rfind_char, rfind_char_exec, skip_ws_back, skip_ws_from, slice_chars, split, split_chars,
    string_of, trim, trim_chars,
};

verus! {

// ── Error ───────────────────────────────────────────────────────────

/// Errors produced when parsing a `where:` expression.
#[derive(Debug)]
pub enum QueryParseError {
    /// The expression is empty (or only whitespace).
    Empty,
    /// No operator could be recognized, or the field name is empty.
    UnknownOperator { raw: String },
    /// The regex engine rejected a `field/pattern/flags` pattern.
    InvalidRegex { pattern: String, reason: String },
    /// The value list after `in` / `not in` is empty or has an empty member.
    EmptyValueList { raw: String, operator: &'static str },
}

pub enum ParseErrorView {
    Empty,
    UnknownOperator { raw: Seq<char> },
    InvalidRegex { pattern: Seq<char>, reason: Seq<char> },
    EmptyValueList { raw: Seq<char>, operator: Seq<char> },
}

impl View for QueryParseError {
    type V = ParseErrorView;

    open spec fn view(&self) -> ParseErrorView {
        match self {
            QueryParseError::Empty => ParseErrorView::Empty,
            QueryParseError::UnknownOperator { raw } => ParseErrorView::UnknownOperator {
                raw: raw@,
            },
            QueryParseError::InvalidRegex { pattern, reason } => ParseErrorView::InvalidRegex {
                pattern: pattern@,
                reason: reason@,
            },
            QueryParseError::EmptyValueList { raw, operator } => ParseErrorView::EmptyValueList {
                raw: raw@,
                operator: operator@,
            },
        }
    }
}

// ── The grammar ─────────────────────────────────────────────────────

/// A field name split at its first dot into `relation.field`; a name
/// without a dot is a local field.
pub open spec fn field_ref_of(name: Seq<char>) -> FieldReferenceView {
    match find(name, seq!['.']) {
        Some(p) => FieldReferenceView::Related { relation: name.take(p), field: name.skip(p + 1) },
        None => FieldReferenceView::Local(name),
    }
}

/// A comparison of the named field against a literal value.
pub open spec fn value_comparison(name: Seq<char>, operator: Operator, value: Seq<char>) -> PredicateView {
    PredicateView::Comparison(
        ComparisonView {
            field: field_ref_of(name),
            operator,
            operand: OperandView::Value(value),
        },
    )
}

/// The error for an expression with no usable operator or field name.
pub open spec fn unknown(raw: Seq<char>) -> ParseErrorView {
    ParseErrorView::UnknownOperator { raw }
}

/// `field/pattern/flags`: `None` when the expression does not have that
/// shape (no slash, empty field, no closing slash, or flags other than `i`).
pub open spec fn regex_clause(t: Seq<char>) -> Option<Result<PredicateView, ParseErrorView>> {
    match find(t, seq!['/']) {
        None => None,
        Some(first) => {
            let field = trim(t.take(first));
            let after = t.skip(first + 1);
            if field.len() == 0 {
                None
            } else {
                match rfind_char(after, '/') {
                    None => None,
                    Some(closing) => {
                        let pattern = after.take(closing);
                        let flags = after.skip(closing + 1);
                        if !(flags.len() == 0 || flags == seq!['i']) {
                            None
                        } else if regex_accepts(full_pattern(pattern, flags)) {
                            Some(
                                Ok(
                                    PredicateView::Comparison(
                                        ComparisonView {
                                            field: field_ref_of(field),
                                            operator: Operator::Matches,
                                            operand: OperandView::Regex(
                                                RegexView {
                                                    source: regex_source(pattern, flags),
                                                    pattern: full_pattern(pattern, flags),
                                                },
                                            ),
                                        },
                                    ),
                                ),
                            )
                        } else {
                            Some(
                                Err(
                                    ParseErrorView::InvalidRegex {
                                        pattern,
                                        reason: regex_rejection(full_pattern(pattern, flags)),
                                    },
                                ),
                            )
                        }
                    },
                }
            }
        },
    }
}

/// `field <token> value` split at the first occurrence of `token`.
pub open spec fn operator_clause(t: Seq<char>, token: Seq<char>, operator: Operator) -> Option<
    Result<PredicateView, ParseErrorView>,
> {
    match find(t, token) {
        None => None,
        Some(p) => {
            let field = trim(t.take(p));
            let value = trim(t.skip(p + token.len()));
            if field.len() == 0 {
                Some(Err(unknown(t)))
            } else {
                Some(Ok(value_comparison(field, operator, value)))
            }
        },
    }
}

/// `token` occurs at `p` and is followed by whitespace or the end.
pub open spec fn word_at(s: Seq<char>, token: Seq<char>, p: int) -> bool {
    occurs_at(s, token, p) && (p + token.len() == s.len() || is_ws(s[p + token.len()]))
}

/// The first word-bounded occurrence of `token` at or after `i`.
pub open spec fn find_word_from(s: Seq<char>, token: Seq<char>, i: int) -> Option<int>
    decreases s.len() + 1 - i,
{
    if i < 0 || i + token.len() > s.len() {
        None
    } else if word_at(s, token, i) {
        Some(i)
    } else {
        find_word_from(s, token, i + 1)
    }
}

/// The comma-separated members after `in` / `not in`, each trimmed; an
/// empty list or an empty member is an error.
pub open spec fn value_list(rest: Seq<char>, raw: Seq<char>, operator: Seq<char>) -> Result<
    Seq<Seq<char>>,
    ParseErrorView,
> {
    let members = split(trim(rest), ',');
    if trim(rest).len() == 0 || exists|i: int|
        0 <= i < members.len() && trim(#[trigger] members[i]).len() == 0 {
        Err(ParseErrorView::EmptyValueList { raw, operator })
    } else {
        Ok(members.map_values(|member: Seq<char>| trim(member)))
    }
}

/// `in` as an `Or` of equals, `not in` as an `And` of not-equals — always
/// n-ary, even for one member.
pub open spec fn membership(name: Seq<char>, operator: Operator, values: Seq<Seq<char>>) -> PredicateView {
    let member_operator = if operator == Operator::NotIn {
        Operator::NotEqual
    } else {
        Operator::Equal
    };
    let comparisons = values.map_values(
        |value: Seq<char>| value_comparison(name, member_operator, value),
    );
    if operator == Operator::NotIn {
        PredicateView::And(comparisons)
    } else {
        PredicateView::Or(comparisons)
    }
}

/// `field in a,b` / `field not in a,b`, at the first word-bounded token.
pub open spec fn word_clause(t: Seq<char>, token: Seq<char>, operator: Operator) -> Option<
    Result<PredicateView, ParseErrorView>,
> {
    match find_word_from(t, token, 0) {
        None => None,
        Some(p) => {
            let field = trim(t.take(p));
            if field.len() == 0 {
                Some(Err(unknown(t)))
            } else {
                match value_list(t.skip(p + token.len()), t, trim(token)) {
                    Ok(values) => Some(Ok(membership(field, operator, values))),
                    Err(error) => Some(Err(error)),
                }
            }
        },
    }
}

pub open spec fn not_in_token() -> Seq<char> {
    seq![' ', 'n', 'o', 't', ' ', 'i', 'n']
}

pub open spec fn in_token() -> Seq<char> {
    seq![' ', 'i', 'n']
}

/// The operator forms, tried in precedence order: regex, the two-character
/// operators, the one-character operators, then the word operators.
pub open spec fn operator_forms(t: Seq<char>) -> Result<PredicateView, ParseErrorView> {
    if let Some(r) = regex_clause(t) {
        r
    } else if let Some(r) = operator_clause(t, seq!['!', '='], Operator::NotEqual) {
        r
    } else if let Some(r) = operator_clause(t, seq!['>', '='], Operator::GreaterOrEqual) {
        r
    } else if let Some(r) = operator_clause(t, seq!['<', '='], Operator::LessOrEqual) {
        r
    } else if let Some(r) = operator_clause(t, seq!['='], Operator::Equal) {
        r
    } else if let Some(r) = operator_clause(t, seq!['>'], Operator::GreaterThan) {
        r
    } else if let Some(r) = operator_clause(t, seq!['<'], Operator::LessThan) {
        r
    } else if let Some(r) = operator_clause(t, seq!['~'], Operator::Contains) {
        r
    } else {
        word_forms(t)
    }
}

/// The word operators, ` not in` before ` in`.
pub open spec fn word_forms(t: Seq<char>) -> Result<PredicateView, ParseErrorView> {
    if let Some(r) = word_clause(t, not_in_token(), Operator::NotIn) {
        r
    } else if let Some(r) = word_clause(t, in_token(), Operator::In) {
        r
    } else {
        Err(unknown(t))
    }
}

/// What a `where:` expression means, or why it is rejected.
pub open spec fn spec_parse_where(input: Seq<char>) -> Result<PredicateView, ParseErrorView> {
    let t = trim(input);
    let n = t.len() as int;
    if n == 0 {
        Err(ParseErrorView::Empty)
    } else if n >= 2 && t[0] == '!' && t[n - 1] == '?' {
        let field = trim(t.subrange(1, n - 1));
        if field.len() == 0 {
            Err(unknown(t))
        } else {
            Ok(PredicateView::Not(Box::new(value_comparison(field, Operator::IsSet, Seq::empty()))))
        }
    } else if t[n - 1] == '?' {
        let field = trim(t.take(n - 1));
        if field.len() == 0 {
            Err(unknown(t))
        } else {
            Ok(value_comparison(field, Operator::IsSet, Seq::empty()))
        }
    } else {
        operator_forms(t)
    }
}

// ── Public API ──────────────────────────────────────────────────────

/// Parse a single `where:` expression into a [`Predicate`].
///
/// | Form | Example | Meaning |
/// |------|---------|---------|
/// | Equality | `status=open` | field equals value, commas included |
/// | Not-equal | `status!=done` | field does not equal value |
/// | In | `status in open,in_progress` | field equals any listed value |
/// | Not-in | `status not in done,removed` | field equals none of them |
/// | Ordering | `points>3`, `points<10`, `points>=3`, `points<=10` | |
/// | Contains | `title~login` | substring (strings) or membership (lists) |
/// | Regex | `title/^fix-.*/i` | regex match (optional `i` flag) |
/// | Is-set | `assignee?` | field is present |
/// | Is-not-set | `!assignee?` | field is absent |
///
/// The expression is split at the first operator token found, scanning the
/// punctuation operators before the word operators; ` not in ` is tested
/// before ` in `. Membership tests desugar into an `Or` of equals / an `And`
/// of not-equals, n-ary even for one member. A single dot in the field name
/// traverses one relation (`parent.status`).
pub fn parse_where(input: &str) -> (r: Result<Predicate, QueryParseError>)
    ensures
        match r {
            Ok(predicate) => spec_parse_where(input@) == Ok::<PredicateView, ParseErrorView>(
                predicate.tree(),
            ) && predicate.wf(),
            Err(error) => spec_parse_where(input@) == Err::<PredicateView, ParseErrorView>(
                error@,
            ),
        },
{
    let chars = chars_of(input);
    let t = trim_chars(chars.as_slice());
    proof {
        lemma_trim(input@);
    }
    let n = t.len();
    if n == 0 {
        return Err(QueryParseError::Empty);
    }
    // 1. IsNotSet: !field?
    if n >= 2 && t[0] == '!' && t[n - 1] == '?' {
        let inner = slice_chars(t.as_slice(), 1, n - 1);
        let field = trim_chars(inner.as_slice());
        validate_field_name(field.as_slice(), t.as_slice())?;
        let set = value_comparison_exec(field.as_slice(), Operator::IsSet, Vec::new().as_slice());
        let r = Predicate::Not(Box::new(set));
        return Ok(r);
    }
    // 2. IsSet: field?
    if t[n - 1] == '?' {
        let inner = slice_chars(t.as_slice(), 0, n - 1);
        let field = trim_chars(inner.as_slice());
        validate_field_name(field.as_slice(), t.as_slice())?;
        return Ok(value_comparison_exec(field.as_slice(), Operator::IsSet, Vec::new().as_slice()));
    }
    // 3. Regex: field/pattern/flags
    if let Some(predicate) = try_parse_regex(t.as_slice())? {
        return Ok(predicate);
    }
    assert(regex_clause(t@) is None);
    proof {
        reveal_strlit("!=");
        reveal_strlit(">=");
        reveal_strlit("<=");
        reveal_strlit("=");
        reveal_strlit(">");
        reveal_strlit("<");
        reveal_strlit("~");
        reveal_strlit(" not in");
        reveal_strlit(" in");
        assert("!="@ =~= seq!['!', '=']);
        assert(">="@ =~= seq!['>', '=']);
        assert("<="@ =~= seq!['<', '=']);
        assert("="@ =~= seq!['=']);
        assert(">"@ =~= seq!['>']);
        assert("<"@ =~= seq!['<']);
        assert("~"@ =~= seq!['~']);
        assert(" not in"@ =~= not_in_token());
        assert(" in"@ =~= in_token());
    }
    // 4. Two-character operators, then 5. one-character operators.
    if let Some(r) = operator_clause_exec(t.as_slice(), chars_of("!=").as_slice(), Operator::NotEqual) {
        return r;
    }
    if let Some(r) = operator_clause_exec(t.as_slice(), chars_of(">=").as_slice(), Operator::GreaterOrEqual) {
        return r;
    }
    if let Some(r) = operator_clause_exec(t.as_slice(), chars_of("<=").as_slice(), Operator::LessOrEqual) {
        return r;
    }
    if let Some(r) = operator_clause_exec(t.as_slice(), chars_of("=").as_slice(), Operator::Equal) {
        return r;
    }
    if let Some(r) = operator_clause_exec(t.as_slice(), chars_of(">").as_slice(), Operator::GreaterThan) {
        return r;
    }
    if let Some(r) = operator_clause_exec(t.as_slice(), chars_of("<").as_slice(), Operator::LessThan) {
        return r;
    }
    if let Some(r) = operator_clause_exec(t.as_slice(), chars_of("~").as_slice(), Operator::Contains) {
        return r;
    }
    // 6. Word operators, only once every punctuation operator has missed.
    if let Some(r) = word_clause_exec(t.as_slice(), chars_of(" not in").as_slice(), Operator::NotIn) {
        return r;
    }
    if let Some(r) = word_clause_exec(t.as_slice(), chars_of(" in").as_slice(), Operator::In) {
        return r;
    }
    Err(QueryParseError::UnknownOperator { raw: string_of(t.as_slice()) })
}

// ── Helpers ─────────────────────────────────────────────────────────

/// Check that a field name is non-empty.
fn validate_field_name(field_name: &[char], raw: &[char]) -> (r: Result<(), QueryParseError>)
    ensures
        r is Ok <==> field_name@.len() > 0,
        r matches Err(error) ==> error@ == unknown(raw@),
{
    if field_name.len() == 0 {
        return Err(QueryParseError::UnknownOperator { raw: string_of(raw) });
    }
    Ok(())
}

/// Build a [`FieldReference`] from a validated field name: a dot splits it
/// into `relation.field`; anything else is a local field.
fn build_field_ref(field_name: &[char]) -> (r: FieldReference)
    ensures
        r@ == field_ref_of(field_name@),
{
    let dot = chars_of(".");
    proof {
        reveal_strlit(".");
        assert(dot@ =~= seq!['.']);
        lemma_find_from(field_name@, seq!['.'], 0);
    }
    match find_chars(field_name, dot.as_slice()) {
        Some(p) => {
            assert(find_from(field_name@, seq!['.'], 0) == Some(p as int));
            assert(occurs_at(field_name@, seq!['.'], p as int));
            let relation = slice_chars(field_name, 0, p);
            let len = field_name.len();
            let field = slice_chars(field_name, p + 1, len);
            FieldReference::Related {
                relation: string_of(relation.as_slice()),
                field: string_of(field.as_slice()),
            }
        },
        None => FieldReference::Local(string_of(field_name)),
    }
}

/// A comparison of a named field against a literal value.
fn value_comparison_exec(field_name: &[char], operator: Operator, value: &[char]) -> (r: Predicate)
    ensures
        r.tree() == value_comparison(field_name@, operator, value@),
        r.wf(),
{
    Predicate::Comparison(
        Comparison {
            field: build_field_ref(field_name),
            operator,
            operand: Operand::Value(string_of(value)),
        },
    )
}

/// `field <token> value`, split at the first occurrence of `token`.
fn operator_clause_exec(t: &[char], token: &[char], operator: Operator) -> (r: Option<
    Result<Predicate, QueryParseError>,
>)
    ensures
        match r {
            None => operator_clause(t@, token@, operator) is None,
            Some(Ok(predicate)) => operator_clause(t@, token@, operator) == Some(
                Ok::<PredicateView, ParseErrorView>(predicate.tree()),
            ) && predicate.wf(),
            Some(Err(error)) => operator_clause(t@, token@, operator) == Some(
                Err::<PredicateView, ParseErrorView>(error@),
            ),
        },
{
    match find_chars(t, token) {
        None => None,
        Some(position) => {
            proof {
                lemma_find_from(t@, token@, 0);
            }
            let before = slice_chars(t, 0, position);
            let len = t.len();
            let after = slice_chars(t, position + token.len(), len);
            let field = trim_chars(before.as_slice());
            let value = trim_chars(after.as_slice());
            if field.len() == 0 {
                return Some(Err(QueryParseError::UnknownOperator { raw: string_of(t) }));
            }
            Some(Ok(value_comparison_exec(field.as_slice(), operator, value.as_slice())))
        },
    }
}

/// Locate a word operator: the token must be followed by whitespace or by
/// the end of the expression.
fn find_word_operator(input: &[char], token: &[char]) -> (r: Option<usize>)
    ensures
        match r {
            Some(p) => find_word_from(input@, token@, 0) == Some(p as int),
            None => find_word_from(input@, token@, 0) is None,
        },
{
    let mut search_from: usize = 0;
    while search_from < input.len()
        invariant
            search_from <= input@.len(),
            find_word_from(input@, token@, search_from as int) == find_word_from(
                input@,
                token@,
                0,
            ),
        decreases input@.len() - search_from,
    {
        if token.len() > input.len() - search_from {
            return None;
        }
        if occurs_at_exec(input, token, search_from) {
            let after = search_from + token.len();
            if after == input.len() || is_whitespace(input[after]) {
                return Some(search_from);
            }
        }
        search_from = search_from + 1;
    }
    if occurs_at_exec(input, token, search_from) {
        let after = search_from + token.len();
        assert(after == input@.len());
        assert(find_word_from(input@, token@, search_from as int) == Some(search_from as int));
        Some(search_from)
    } else {
        assert(find_word_from(input@, token@, search_from + 1) is None);
        None
    }
}

/// Split a comma-separated value list, trimming each member. Rejects an
/// empty list and empty members.
fn parse_value_list(rest: &[char], raw: &[char], token: &'static str) -> (r: Result<
    Vec<String>,
    QueryParseError,
>)
    requires
        token@ == trim(not_in_token()) || token@ == trim(in_token()),
    ensures
        match r {
            Ok(values) => value_list(rest@, raw@, token@) == Ok::<Seq<Seq<char>>, ParseErrorView>(
                values@.map_values(|value: String| value@),
            ),
            Err(error) => value_list(rest@, raw@, token@) == Err::<Seq<Seq<char>>, ParseErrorView>(
                error@,
            ),
        },
{
    let trimmed = trim_chars(rest);
    if trimmed.len() == 0 {
        return Err(QueryParseError::EmptyValueList { raw: string_of(raw), operator: token });
    }
    let pieces = split_chars(trimmed.as_slice(), ',');
    let ghost members = split(trimmed@, ',');
    let mut values: Vec<String> = Vec::new();
    let mut i: usize = 0;
    while i < pieces.len()
        invariant
            i <= pieces@.len(),
            pieces@.map_values(|piece: Vec<char>| piece@) == members,
            members == split(trim(rest@), ','),
            values@.len() == i,
            forall|k: int| 0 <= k < i ==> (#[trigger] values@[k])@ == trim(members[k]),
            forall|k: int| 0 <= k < i ==> trim(#[trigger] members[k]).len() > 0,
        decreases pieces@.len() - i,
    {
        let member = trim_chars(pieces[i].as_slice());
        assert(pieces@[i as int]@ == members[i as int]);
        if member.len() == 0 {
            return Err(QueryParseError::EmptyValueList { raw: string_of(raw), operator: token });
        }
        values.push(string_of(member.as_slice()));
        i = i + 1;
    }
    assert(values@.map_values(|value: String| value@) =~= members.map_values(
        |member: Seq<char>| trim(member),
    ));
    Ok(values)
}

/// Rewrite a membership test into the predicates the evaluator understands:
/// `in` as an `Or` of equals, `not in` as an `And` of not-equals.
fn desugar_membership(field_name: &[char], operator: Operator, values: &Vec<String>) -> (r: Predicate)
    ensures
        r.tree() == membership(field_name@, operator, values@.map_values(|value: String| value@)),
        r.wf(),
{
    let member_operator = if operator == Operator::NotIn {
        Operator::NotEqual
    } else {
        Operator::Equal
    };
    let ghost views = values@.map_values(|value: String| value@);
    let mut comparisons: Vec<Predicate> = Vec::new();
    let mut i: usize = 0;
    while i < values.len()
        invariant
            i <= values@.len(),
            views == values@.map_values(|value: String| value@),
            comparisons@.len() == i,
            forall|k: int|
                0 <= k < i ==> (#[trigger] comparisons@[k]).tree() == value_comparison(
                    field_name@,
                    member_operator,
                    views[k],
                ),
            forall|k: int| 0 <= k < i ==> (#[trigger] comparisons@[k]).wf(),
        decreases values@.len() - i,
    {
        let value = crate::text::chars_of(values[i].as_str());
        comparisons.push(value_comparison_exec(field_name, member_operator, value.as_slice()));
        i = i + 1;
    }
    let ghost trees = views.map_values(
        |value: Seq<char>| value_comparison(field_name@, member_operator, value),
    );
    if operator == Operator::NotIn {
        let r = Predicate::And(comparisons);
        assert(r.tree() == PredicateView::And(trees)) by {
            if let PredicateView::And(got) = r.tree() {
                assert(got =~= trees);
            }
        }
        r
    } else {
        let r = Predicate::Or(comparisons);
        assert(r.tree() == PredicateView::Or(trees)) by {
            if let PredicateView::Or(got) = r.tree() {
                assert(got =~= trees);
            }
        }
        r
    }
}

/// `field in a,b` / `field not in a,b` at the first word-bounded token.
fn word_clause_exec(t: &[char], token: &[char], operator: Operator) -> (r: Option<
    Result<Predicate, QueryParseError>,
>)
    requires
        (token@ == not_in_token() && operator == Operator::NotIn) || (token@ == in_token()
            && operator == Operator::In),
    ensures
        match r {
            None => word_clause(t@, token@, operator) is None,
            Some(Ok(predicate)) => word_clause(t@, token@, operator) == Some(
                Ok::<PredicateView, ParseErrorView>(predicate.tree()),
            ) && predicate.wf(),
            Some(Err(error)) => word_clause(t@, token@, operator) == Some(
                Err::<PredicateView, ParseErrorView>(error@),
            ),
        },
{
    match find_word_operator(t, token) {
        None => None,
        Some(position) => {
            proof {
                lemma_find_word_from(t@, token@, 0);
            }
            let before = slice_chars(t, 0, position);
            let field = trim_chars(before.as_slice());
            if field.len() == 0 {
                return Some(Err(QueryParseError::UnknownOperator { raw: string_of(t) }));
            }
            let len = t.len();
            let rest = slice_chars(t, position + token.len(), len);
            let name: &'static str = if operator == Operator::NotIn {
                "not in"
            } else {
                "in"
            };
            proof {
                reveal_strlit("not in");
                reveal_strlit("in");
                assert("not in"@ =~= seq!['n', 'o', 't', ' ', 'i', 'n']);
                assert("in"@ =~= seq!['i', 'n']);
                lemma_trim_trimmed(seq!['n', 'o', 't', ' ', 'i', 'n']);
                lemma_trim_trimmed(seq!['i', 'n']);
                assert(not_in_token().skip(1) =~= seq!['n', 'o', 't', ' ', 'i', 'n']);
                assert(in_token().skip(1) =~= seq!['i', 'n']);
                lemma_trim_leading_space(not_in_token());
                lemma_trim_leading_space(in_token());
            }
            match parse_value_list(rest.as_slice(), t, name) {
                Ok(values) => Some(Ok(desugar_membership(field.as_slice(), operator, &values))),
                Err(error) => Some(Err(error)),
            }
        },
    }
}

/// A leading space is all `trim` removes from a word token.
proof fn lemma_trim_leading_space(token: Seq<char>)
    requires
        token.len() > 1,
        token[0] == ' ',
        is_trimmed(token.skip(1)),
    ensures
        trim(token) == token.skip(1),
{
    assert(skip_ws_from(token, 1) == 1);
    assert(skip_ws_from(token, 0) == 1);
    assert(skip_ws_back(token, token.len() as int) == token.len());
    assert(token.subrange(1, token.len() as int) =~= token.skip(1));
}

proof fn lemma_find_word_from(s: Seq<char>, token: Seq<char>, i: int)
    requires
        0 <= i,
    ensures
        find_word_from(s, token, i) matches Some(p) ==> i <= p && word_at(s, token, p),
    decreases s.len() + 1 - i,
{
    if i + token.len() <= s.len() && !word_at(s, token, i) {
        lemma_find_word_from(s, token, i + 1);
    }
}

/// Try to parse a regex expression: `field/pattern/` or `field/pattern/i`.
/// Returns `None` if the input doesn't have the regex shape.
fn try_parse_regex(input: &[char]) -> (r: Result<Option<Predicate>, QueryParseError>)
    ensures
        match r {
            Ok(None) => regex_clause(input@) is None,
            Ok(Some(predicate)) => regex_clause(input@) == Some(
                Ok::<PredicateView, ParseErrorView>(predicate.tree()),
            ) && predicate.wf(),
            Err(error) => regex_clause(input@) == Some(
                Err::<PredicateView, ParseErrorView>(error@),
            ),
        },
{
    let slash = chars_of("/");
    proof {
        reveal_strlit("/");
        assert(slash@ =~= seq!['/']);
        lemma_find_from(input@, seq!['/'], 0);
    }
    let first_slash = match find_chars(input, slash.as_slice()) {
        Some(position) => position,
        None => return Ok(None),
    };
    proof {
        lemma_find_from(input@, seq!['/'], 0);
    }
    let before = slice_chars(input, 0, first_slash);
    let field_name = trim_chars(before.as_slice());
    if field_name.len() == 0 {
        return Ok(None);
    }
    let len = input.len();
    let after_first_slash = slice_chars(input, first_slash + 1, len);
    let closing_slash = match rfind_char_exec(after_first_slash.as_slice(), '/') {
        Some(position) => position,
        None => return Ok(None),
    };
    proof {
        lemma_last_index_below(after_first_slash@, '/', after_first_slash@.len() as int);
    }
    let pattern = slice_chars(after_first_slash.as_slice(), 0, closing_slash);
    let flags = slice_chars(after_first_slash.as_slice(), closing_slash + 1, after_first_slash.len());
    // Only the `i` flag is allowed.
    if !(flags.len() == 0 || (flags.len() == 1 && flags[0] == 'i')) {
        proof {
            if flags@ == seq!['i'] {
                assert(flags@[0] == 'i');
            }
        }
        return Ok(None);
    }
    assert(flags@.len() == 0 || flags@ =~= seq!['i']);
    let pattern_text = string_of(pattern.as_slice());
    let flags_text = string_of(flags.as_slice());
    match QueryRegex::new(pattern_text.as_str(), flags_text.as_str()) {
        Ok(regex) => {
            let predicate = Predicate::Comparison(
                Comparison {
                    field: build_field_ref(field_name.as_slice()),
                    operator: Operator::Matches,
                    operand: Operand::Regex(regex),
                },
            );
            Ok(Some(predicate))
        },
        Err(error) => Err(QueryParseError::InvalidRegex { pattern: pattern_text, reason: error.reason }),
    }
}

} // verus!
