//! The guided filter builder's round trip: a condition serialized into a
//! clause string decomposes back into the same condition.

use vstd::prelude::*;

use crate::query::clause::{
    condition_of_membership, spec_decompose_clause, spec_serialize_condition,
    ClauseView, ConditionView, branch_text, is_member_branch,
};
use crate::query::parse::{
    field_ref_of, find_word_from, in_token, not_in_token, operator_clause, operator_forms,
    regex_clause, spec_parse_where, word_forms, value_comparison, value_list, word_at, word_clause,
    membership,
};
use crate::query::types::{
    full_pattern, regex_accepts, regex_source, token_of, ComparisonView, FieldReferenceView,
    OperandView, Operator, PredicateView, RegexView,
};
use crate::text::{
    find, is_trimmed, is_ws, join, lemma_find_is, lemma_find_none,
    lemma_last_index_below, lemma_rfind_is, lemma_split_join, lemma_trim_trimmed, occurs_at,
    rfind_char, skip_ws_back, skip_ws_from, trim,
};

verus! {

// ── Which conditions the builder produces ───────────────────────────

/// Characters with a meaning in the clause grammar.
pub open spec fn is_operator_char(c: char) -> bool {
    c == '!' || c == '=' || c == '<' || c == '>' || c == '~' || c == '/' || c == '?'
}

/// Characters of a field name the builder offers.
pub open spec fn is_name_char(c: char) -> bool {
    ('a' <= c && c <= 'z') || ('A' <= c && c <= 'Z') || ('0' <= c && c <= '9') || c == '_'
        || c == '-'
}

/// A field name as the builder offers it.
pub open spec fn guided_name(name: Seq<char>) -> bool {
    name.len() > 0 && forall|i: int| 0 <= i < name.len() ==> is_name_char(#[trigger] name[i])
}

/// A scalar operand with no grammar characters and no surrounding space.
pub open spec fn plain_value(value: Seq<char>) -> bool {
    is_trimmed(value) && forall|i: int| 0 <= i < value.len() ==> !is_operator_char(#[trigger] value[i])
}

/// A member of an `in` / `not in` list: non-empty, no space, no comma, no
/// grammar character.
pub open spec fn plain_member(member: Seq<char>) -> bool {
    member.len() > 0 && forall|i: int|
        0 <= i < member.len() ==> (!is_operator_char(#[trigger] member[i]) && !is_ws(member[i])
            && member[i] != ',')
}

/// A `/pattern/flags` operand the regex engine accepts.
pub open spec fn regex_value(value: Seq<char>) -> bool {
    value.len() >= 2 && value[0] == '/' && match rfind_char(value, '/') {
        Some(c) => c > 0 && (value.skip(c + 1).len() == 0 || value.skip(c + 1) == seq!['i'])
            && regex_accepts(full_pattern(value.subrange(1, c), value.skip(c + 1))),
        None => false,
    }
}

/// The conditions the guided builder produces.
pub open spec fn builder_condition(condition: ConditionView) -> bool {
    guided_name(condition.field) && match condition.operator {
        Operator::IsSet | Operator::IsNotSet => condition.value is None && condition.values.len()
            == 0,
        Operator::In | Operator::NotIn => condition.value is None && condition.values.len() > 0
            && forall|i: int|
            0 <= i < condition.values.len() ==> plain_member(#[trigger] condition.values[i]),
        Operator::Matches => condition.values.len() == 0 && (condition.value matches Some(v)
            && regex_value(v)),
        _ => condition.values.len() == 0 && (condition.value matches Some(v) && plain_value(v)),
    }
}

// ── The law ─────────────────────────────────────────────────────────

/// Every condition the guided builder produces survives a structured →
/// string → structured round trip unchanged: it serializes, and the clause
/// string decomposes back into the same condition.
pub proof fn law_clause_round_trip(condition: ConditionView)
    requires
        builder_condition(condition),
    ensures
        spec_serialize_condition(condition) is Ok,
        spec_decompose_clause(spec_serialize_condition(condition)->Ok_0) == ClauseView::Comparison(
            condition,
        ),
{
    let f = condition.field;
    lemma_guided_name(f);
    match condition.operator {
        Operator::IsSet => lemma_is_set_round_trip(condition),
        Operator::IsNotSet => lemma_is_not_set_round_trip(condition),
        Operator::Matches => lemma_matches_round_trip(condition),
        Operator::In | Operator::NotIn => lemma_membership_round_trip(condition),
        _ => lemma_scalar_round_trip(condition),
    }
}

// ── Helpers ─────────────────────────────────────────────────────────

/// A builder field name is trimmed and names a local field.
proof fn lemma_guided_name(f: Seq<char>)
    requires
        guided_name(f),
    ensures
        is_trimmed(f),
        trim(f) == f,
        field_ref_of(f) == FieldReferenceView::Local(f),
        forall|i: int| 0 <= i < f.len() ==> !is_operator_char(#[trigger] f[i]) && !is_ws(f[i])
            && f[i] != ',' && f[i] != '.',
{
    assert(is_name_char(f[0]));
    assert(is_name_char(f[f.len() - 1]));
    lemma_trim_trimmed(f);
    assert forall|q: int| 0 <= q implies !occurs_at(f, seq!['.'], q) by {
        if occurs_at(f, seq!['.'], q) {
            assert(f.subrange(q, q + 1)[0] == f[q]);
            assert(is_name_char(f[q]));
        }
    }
    lemma_find_none(f, seq!['.']);
    assert forall|i: int| 0 <= i < f.len() implies !is_operator_char(#[trigger] f[i]) && !is_ws(
        f[i],
    ) && f[i] != ',' && f[i] != '.' by {
        assert(is_name_char(f[i]));
    }
}

/// A token whose first character does not occur in `s` is not found.
proof fn lemma_absent(s: Seq<char>, t: Seq<char>)
    requires
        t.len() > 0,
        forall|i: int| 0 <= i < s.len() ==> s[i] != t[0],
    ensures
        find(s, t) is None,
        forall|q: int| 0 <= q ==> !occurs_at(s, t, q),
{
    assert forall|q: int| 0 <= q implies !occurs_at(s, t, q) by {
        if occurs_at(s, t, q) {
            assert(s.subrange(q, q + t.len())[0] == s[q]);
        }
    }
    lemma_find_none(s, t);
}

/// A token found at `k` with its first character nowhere before.
proof fn lemma_first_at(s: Seq<char>, t: Seq<char>, k: int)
    requires
        t.len() > 0,
        0 <= k,
        k + t.len() <= s.len(),
        s.subrange(k, k + t.len()) == t,
        forall|i: int| 0 <= i < k ==> s[i] != t[0],
    ensures
        find(s, t) == Some(k),
{
    assert forall|q: int| 0 <= q < k implies !occurs_at(s, t, q) by {
        if occurs_at(s, t, q) {
            assert(s.subrange(q, q + t.len())[0] == s[q]);
        }
    }
    lemma_find_is(s, t, k);
}

/// The parts of `a + b + c`.
proof fn lemma_three(a: Seq<char>, b: Seq<char>, c: Seq<char>)
    ensures
        (a + b + c).take(a.len() as int) == a,
        (a + b + c).subrange(a.len() as int, (a.len() + b.len()) as int) == b,
        (a + b + c).skip((a.len() + b.len()) as int) == c,
{
    assert((a + b + c).take(a.len() as int) =~= a);
    assert((a + b + c).subrange(a.len() as int, (a.len() + b.len()) as int) =~= b);
    assert((a + b + c).skip((a.len() + b.len()) as int) =~= c);
}

// ── Presence checks ─────────────────────────────────────────────────

proof fn lemma_is_set_round_trip(condition: ConditionView)
    requires
        builder_condition(condition),
        condition.operator == Operator::IsSet,
        is_trimmed(condition.field),
        trim(condition.field) == condition.field,
        field_ref_of(condition.field) == FieldReferenceView::Local(condition.field),
    ensures
        spec_serialize_condition(condition) is Ok,
        spec_decompose_clause(spec_serialize_condition(condition)->Ok_0) == ClauseView::Comparison(
            condition,
        ),
{
    let f = condition.field;
    let s = f + seq!['?'];
    assert(spec_serialize_condition(condition) == Ok::<Seq<char>, crate::query::clause::ConditionErrorView>(s));
    assert(is_name_char(f[0]));
    lemma_trim_trimmed(s);
    let n = s.len() as int;
    assert(s[0] != '!');
    assert(s[n - 1] == '?');
    assert(s.take(n - 1) =~= f);
    assert(spec_parse_where(s) == Ok::<PredicateView, crate::query::parse::ParseErrorView>(
        value_comparison(f, Operator::IsSet, Seq::empty()),
    ));
    assert(condition.values =~= Seq::<Seq<char>>::empty());
}

proof fn lemma_is_not_set_round_trip(condition: ConditionView)
    requires
        builder_condition(condition),
        condition.operator == Operator::IsNotSet,
        is_trimmed(condition.field),
        trim(condition.field) == condition.field,
        field_ref_of(condition.field) == FieldReferenceView::Local(condition.field),
    ensures
        spec_serialize_condition(condition) is Ok,
        spec_decompose_clause(spec_serialize_condition(condition)->Ok_0) == ClauseView::Comparison(
            condition,
        ),
{
    let f = condition.field;
    let s = seq!['!'] + f + seq!['?'];
    assert(spec_serialize_condition(condition) == Ok::<Seq<char>, crate::query::clause::ConditionErrorView>(s));
    lemma_trim_trimmed(s);
    let n = s.len() as int;
    assert(s[0] == '!');
    assert(s[n - 1] == '?');
    assert(s.subrange(1, n - 1) =~= f);
    assert(spec_parse_where(s) == Ok::<PredicateView, crate::query::parse::ParseErrorView>(
        PredicateView::Not(Box::new(value_comparison(f, Operator::IsSet, Seq::empty()))),
    ));
    assert(condition.values =~= Seq::<Seq<char>>::empty());
}


// ── Scalar comparisons ──────────────────────────────────────────────

/// A token that does not occur is skipped by the operator scan.
proof fn lemma_token_miss(s: Seq<char>, t: Seq<char>, operator: Operator)
    requires
        t.len() > 0,
        forall|q: int| 0 <= q ==> !occurs_at(s, t, q),
    ensures
        operator_clause(s, t, operator) is None,
{
    lemma_find_none(s, t);
}

/// The facts about `f + tok + v` the scan relies on.
proof fn lemma_scalar_shape(f: Seq<char>, tok: Seq<char>, v: Seq<char>)
    requires
        guided_name(f),
        tok.len() > 0,
        plain_value(v),
    ensures
        ({
            let s = f + tok + v;
            &&& forall|i: int| 0 <= i < f.len() ==> #[trigger] s[i] == f[i]
            &&& forall|i: int| 0 <= i < tok.len() ==> #[trigger] s[f.len() + i] == tok[i]
            &&& forall|i: int| 0 <= i < v.len() ==> #[trigger] s[f.len() + tok.len() + i] == v[i]
        }),
{
}

/// `f + tok + v` scanned for its own token, found right after the field.
proof fn lemma_token_hit(f: Seq<char>, tok: Seq<char>, v: Seq<char>, operator: Operator)
    requires
        guided_name(f),
        trim(f) == f,
        tok.len() > 0,
        is_operator_char(tok[0]),
        plain_value(v),
    ensures
        operator_clause(f + tok + v, tok, operator) == Some(
            Ok::<PredicateView, crate::query::parse::ParseErrorView>(
                value_comparison(f, operator, v),
            ),
        ),
{
    let s = f + tok + v;
    lemma_three(f, tok, v);
    assert forall|i: int| 0 <= i < f.len() implies s[i] != tok[0] by {
        assert(s[i] == f[i]);
        assert(is_name_char(f[i]));
    }
    lemma_first_at(s, tok, f.len() as int);
    lemma_trim_trimmed(v);
}

proof fn lemma_scalar_round_trip(condition: ConditionView)
    requires
        builder_condition(condition),
        condition.operator != Operator::IsSet,
        condition.operator != Operator::IsNotSet,
        condition.operator != Operator::Matches,
        condition.operator != Operator::In,
        condition.operator != Operator::NotIn,
        is_trimmed(condition.field),
        trim(condition.field) == condition.field,
        field_ref_of(condition.field) == FieldReferenceView::Local(condition.field),
    ensures
        spec_serialize_condition(condition) is Ok,
        spec_decompose_clause(spec_serialize_condition(condition)->Ok_0) == ClauseView::Comparison(
            condition,
        ),
{
    let op = condition.operator;
    let f = condition.field;
    let v = condition.value->0;
    let tok = token_of(op);
    let s = f + tok + v;
    let lf = f.len() as int;
    let lt = tok.len() as int;
    assert(spec_serialize_condition(condition) == Ok::<Seq<char>, crate::query::clause::ConditionErrorView>(s));
    lemma_scalar_shape(f, tok, v);
    assert(s.len() == lf + lt + v.len());
    // Which characters sit where: the operator characters only in the token.
    assert forall|i: int| 0 <= i < s.len() && is_operator_char(#[trigger] s[i]) implies lf <= i < lf + lt by {
        if i < lf {
            assert(s[i] == f[i]);
            assert(is_name_char(f[i]));
        } else if i >= lf + lt {
            assert(s[i] == v[i - lf - lt]);
        }
    }
    // The clause is already trimmed and is no presence check.
    assert(is_name_char(f[0]));
    assert(s[0] == f[0]);
    if v.len() > 0 {
        assert(s[s.len() - 1] == v[v.len() - 1]);
    } else {
        assert(s[s.len() - 1] == tok[lt - 1]);
    }
    lemma_trim_trimmed(s);
    assert(s[0] != '!');
    assert(s[s.len() - 1] != '?');
    // No slash: no regex form.
    lemma_absent(s, seq!['/']);
    assert(regex_clause(s) is None);
    lemma_token_hit(f, tok, v, op);
    let bang = seq!['!', '='];
    let ge = seq!['>', '='];
    let le = seq!['<', '='];
    let eq = seq!['='];
    let gt = seq!['>'];
    let lt_tok = seq!['<'];
    // A character outside the token never occurs.
    assert forall|c: char| is_operator_char(c) && !tok.contains(c) implies (forall|i: int|
        0 <= i < s.len() ==> s[i] != c) by {
        assert forall|i: int| 0 <= i < s.len() implies s[i] != c by {
            if s[i] == c {
                assert(lf <= i < lf + lt);
                assert(tok[i - lf] == s[i]);
            }
        }
    }
    match op {
        Operator::NotEqual => {},
        Operator::GreaterOrEqual => {
            assert(!tok.contains('!'));
            lemma_absent(s, bang);
            lemma_token_miss(s, bang, Operator::NotEqual);
        },
        Operator::LessOrEqual => {
            assert(!tok.contains('!'));
            assert(!tok.contains('>'));
            lemma_absent(s, bang);
            lemma_absent(s, ge);
            lemma_token_miss(s, bang, Operator::NotEqual);
            lemma_token_miss(s, ge, Operator::GreaterOrEqual);
        },
        Operator::Equal => {
            assert(!tok.contains('!'));
            assert(!tok.contains('>'));
            assert(!tok.contains('<'));
            lemma_absent(s, bang);
            lemma_absent(s, ge);
            lemma_absent(s, le);
            lemma_token_miss(s, bang, Operator::NotEqual);
            lemma_token_miss(s, ge, Operator::GreaterOrEqual);
            lemma_token_miss(s, le, Operator::LessOrEqual);
        },
        Operator::GreaterThan => {
            assert(!tok.contains('!'));
            assert(!tok.contains('<'));
            assert(!tok.contains('='));
            lemma_absent(s, bang);
            lemma_absent(s, le);
            lemma_absent(s, eq);
            assert forall|q: int| 0 <= q implies !occurs_at(s, ge, q) by {
                if occurs_at(s, ge, q) {
                    assert(s.subrange(q, q + 2)[0] == s[q]);
                    assert(s.subrange(q, q + 2)[1] == s[q + 1]);
                    assert(s[q + 1] == '=');
                }
            }
            lemma_token_miss(s, bang, Operator::NotEqual);
            lemma_token_miss(s, ge, Operator::GreaterOrEqual);
            lemma_token_miss(s, le, Operator::LessOrEqual);
            lemma_token_miss(s, eq, Operator::Equal);
        },
        Operator::LessThan => {
            assert(!tok.contains('!'));
            assert(!tok.contains('>'));
            assert(!tok.contains('='));
            lemma_absent(s, bang);
            lemma_absent(s, ge);
            lemma_absent(s, eq);
            lemma_absent(s, gt);
            assert forall|q: int| 0 <= q implies !occurs_at(s, le, q) by {
                if occurs_at(s, le, q) {
                    assert(s.subrange(q, q + 2)[0] == s[q]);
                    assert(s.subrange(q, q + 2)[1] == s[q + 1]);
                    assert(s[q + 1] == '=');
                }
            }
            lemma_token_miss(s, bang, Operator::NotEqual);
            lemma_token_miss(s, ge, Operator::GreaterOrEqual);
            lemma_token_miss(s, le, Operator::LessOrEqual);
            lemma_token_miss(s, eq, Operator::Equal);
            lemma_token_miss(s, gt, Operator::GreaterThan);
        },
        Operator::Contains => {
            assert(!tok.contains('!'));
            assert(!tok.contains('>'));
            assert(!tok.contains('<'));
            assert(!tok.contains('='));
            lemma_absent(s, bang);
            lemma_absent(s, ge);
            lemma_absent(s, le);
            lemma_absent(s, eq);
            lemma_absent(s, gt);
            lemma_absent(s, lt_tok);
            lemma_token_miss(s, bang, Operator::NotEqual);
            lemma_token_miss(s, ge, Operator::GreaterOrEqual);
            lemma_token_miss(s, le, Operator::LessOrEqual);
            lemma_token_miss(s, eq, Operator::Equal);
            lemma_token_miss(s, gt, Operator::GreaterThan);
            lemma_token_miss(s, lt_tok, Operator::LessThan);
        },
        _ => {},
    }
    assert(operator_forms(s) == Ok::<PredicateView, crate::query::parse::ParseErrorView>(
        value_comparison(f, op, v),
    ));
    assert(condition.values =~= Seq::<Seq<char>>::empty());
}


// ── Regex comparisons ───────────────────────────────────────────────

proof fn lemma_matches_round_trip(condition: ConditionView)
    requires
        builder_condition(condition),
        condition.operator == Operator::Matches,
        is_trimmed(condition.field),
        trim(condition.field) == condition.field,
        field_ref_of(condition.field) == FieldReferenceView::Local(condition.field),
    ensures
        spec_serialize_condition(condition) is Ok,
        spec_decompose_clause(spec_serialize_condition(condition)->Ok_0) == ClauseView::Comparison(
            condition,
        ),
{
    let f = condition.field;
    let v = condition.value->0;
    let s = f + v;
    let lf = f.len() as int;
    assert(spec_serialize_condition(condition) == Ok::<Seq<char>, crate::query::clause::ConditionErrorView>(s));
    let c = rfind_char(v, '/')->0;
    lemma_last_index_below(v, '/', v.len() as int);
    assert(v[c] == '/');
    let pattern = v.subrange(1, c);
    let flags = v.skip(c + 1);
    // Trimmed, and no presence check.
    assert(is_name_char(f[0]));
    assert(s[0] == f[0]);
    assert(s[s.len() - 1] == v[v.len() - 1]);
    if flags.len() == 0 {
        assert(c == v.len() - 1);
    } else {
        assert(flags[0] == 'i');
        assert(v[v.len() - 1] == flags[0]);
    }
    lemma_trim_trimmed(s);
    assert(s[0] != '!');
    assert(s[s.len() - 1] != '?');
    // The first slash opens the pattern, the last one closes it.
    assert(s.subrange(lf, lf + 1) =~= seq!['/']);
    assert forall|i: int| 0 <= i < lf implies s[i] != seq!['/'][0] by {
        assert(s[i] == f[i]);
        assert(is_name_char(f[i]));
    }
    lemma_first_at(s, seq!['/'], lf);
    assert(s.take(lf) =~= f);
    let after = s.skip(lf + 1);
    assert(after =~= v.skip(1));
    assert forall|q: int| c - 1 < q < after.len() implies after[q] != '/' by {
        assert(after[q] == v[q + 1]);
    }
    lemma_rfind_is(after, '/', c - 1);
    assert(after.take(c - 1) =~= pattern);
    assert(after.skip(c) =~= flags);
    let regex = RegexView {
        source: regex_source(pattern, flags),
        pattern: full_pattern(pattern, flags),
    };
    assert(regex_clause(s) == Some(
        Ok::<PredicateView, crate::query::parse::ParseErrorView>(
            PredicateView::Comparison(
                ComparisonView {
                    field: FieldReferenceView::Local(f),
                    operator: Operator::Matches,
                    operand: OperandView::Regex(regex),
                },
            ),
        ),
    ));
    assert(regex.source =~= v);
    assert(condition.values =~= Seq::<Seq<char>>::empty());
}

// ── Membership ──────────────────────────────────────────────────────

/// Every character of a join is a character of a piece or of the separator.
proof fn lemma_join_chars(parts: Seq<Seq<char>>, sep: Seq<char>, p: spec_fn(char) -> bool)
    requires
        forall|i: int, j: int| 0 <= i < parts.len() && 0 <= j < parts[i].len() ==> p(#[trigger] parts[i][j]),
        forall|j: int| 0 <= j < sep.len() ==> p(#[trigger] sep[j]),
    ensures
        forall|k: int| 0 <= k < join(parts, sep).len() ==> p(#[trigger] join(parts, sep)[k]),
    decreases parts.len(),
{
    if parts.len() == 0 {
    } else if parts.len() == 1 {
        assert forall|k: int| 0 <= k < join(parts, sep).len() implies p(#[trigger] join(parts, sep)[k]) by {
            assert(parts[0][k] == join(parts, sep)[k]);
        }
    } else {
        let init = parts.drop_last();
        assert forall|i: int, j: int| 0 <= i < init.len() && 0 <= j < init[i].len() implies p(#[trigger] init[i][j]) by {
            assert(init[i] == parts[i]);
        }
        lemma_join_chars(init, sep, p);
        let head = join(init, sep);
        let last = parts.last();
        assert forall|k: int| 0 <= k < join(parts, sep).len() implies p(#[trigger] join(parts, sep)[k]) by {
            let whole = join(parts, sep);
            assert(whole == head + sep + last);
            if k < head.len() {
                assert(whole[k] == head[k]);
            } else if k < head.len() + sep.len() {
                assert(whole[k] == sep[k - head.len()]);
            } else {
                assert(whole[k] == last[k - head.len() - sep.len()]);
                assert(last == parts[parts.len() - 1]);
            }
        }
    }
}

/// A join of non-empty pieces starts with the first piece's first character
/// and ends with the last piece's last character.
proof fn lemma_join_ends(parts: Seq<Seq<char>>, sep: Seq<char>)
    requires
        parts.len() > 0,
        forall|i: int| 0 <= i < parts.len() ==> (#[trigger] parts[i]).len() > 0,
    ensures
        join(parts, sep).len() > 0,
        join(parts, sep)[0] == parts[0][0],
        join(parts, sep)[join(parts, sep).len() - 1] == parts.last()[parts.last().len() - 1],
    decreases parts.len(),
{
    if parts.len() > 1 {
        let init = parts.drop_last();
        assert forall|i: int| 0 <= i < init.len() implies (#[trigger] init[i]).len() > 0 by {
            assert(init[i] == parts[i]);
        }
        lemma_join_ends(init, sep);
        assert(init[0] == parts[0]);
        assert(parts.last() == parts[parts.len() - 1]);
        assert(parts[parts.len() - 1].len() > 0);
    }
}

/// No occurrence anywhere means no word-bounded occurrence.
proof fn lemma_find_word_none(s: Seq<char>, t: Seq<char>, i: int)
    requires
        0 <= i,
        forall|q: int| 0 <= q ==> !occurs_at(s, t, q),
    ensures
        find_word_from(s, t, i) is None,
    decreases s.len() + 1 - i,
{
    if i + t.len() <= s.len() {
        lemma_find_word_none(s, t, i + 1);
    }
}

/// A word-bounded occurrence with nothing earlier is the one found.
proof fn lemma_find_word_is(s: Seq<char>, t: Seq<char>, p: int, i: int)
    requires
        0 <= i <= p,
        word_at(s, t, p),
        forall|q: int| 0 <= q < p ==> !occurs_at(s, t, q),
    ensures
        find_word_from(s, t, i) == Some(p),
    decreases p - i,
{
    if i < p {
        lemma_find_word_is(s, t, p, i + 1);
    }
}

/// The value list of a membership clause reads back the members.
proof fn lemma_member_list(values: Seq<Seq<char>>, raw: Seq<char>, operator: Seq<char>)
    requires
        values.len() > 0,
        forall|i: int| 0 <= i < values.len() ==> plain_member(#[trigger] values[i]),
    ensures
        value_list(seq![' '] + join(values, seq![',']), raw, operator) == Ok::<
            Seq<Seq<char>>,
            crate::query::parse::ParseErrorView,
        >(values),
{
    let j = join(values, seq![',']);
    let rest = seq![' '] + j;
    assert forall|i: int| 0 <= i < values.len() implies (#[trigger] values[i]).len() > 0 by {
        assert(plain_member(values[i]));
    }
    lemma_join_ends(values, seq![',']);
    assert(values.last() == values[values.len() - 1]);
    assert(plain_member(values[values.len() - 1]));
    assert(plain_member(values[0]));
    assert(!is_ws(j[0]));
    assert(!is_ws(j[j.len() - 1]));
    // trim(" " + j) == j
    assert(skip_ws_from(rest, 1) == 1);
    assert(skip_ws_from(rest, 0) == 1);
    assert(skip_ws_back(rest, rest.len() as int) == rest.len());
    assert(rest.subrange(1, rest.len() as int) =~= j);
    assert(trim(rest) == j);
    assert forall|i: int| 0 <= i < values.len() implies !(#[trigger] values[i]).contains(',') by {
        assert(plain_member(values[i]));
        if values[i].contains(',') {
            let k = choose|k: int| 0 <= k < values[i].len() && values[i][k] == ',';
            assert(values[i][k] != ',');
        }
    }
    lemma_split_join(values, ',');
    assert forall|i: int| 0 <= i < values.len() implies trim(#[trigger] values[i]) == values[i] by {
        assert(plain_member(values[i]));
        assert(values[i][0] == values[i][0]);
        assert(!is_ws(values[i][0]));
        assert(!is_ws(values[i][values[i].len() - 1]));
        lemma_trim_trimmed(values[i]);
    }
    assert(values.map_values(|member: Seq<char>| trim(member)) =~= values);
}

/// An expression with no grammar character reaches the word operators.
proof fn lemma_no_punctuation(s: Seq<char>)
    requires
        forall|i: int| 0 <= i < s.len() ==> !is_operator_char(#[trigger] s[i]),
    ensures
        regex_clause(s) is None,
        operator_forms(s) == word_forms(s),
{
    lemma_absent(s, seq!['/']);
    lemma_absent(s, seq!['!', '=']);
    lemma_absent(s, seq!['>', '=']);
    lemma_absent(s, seq!['<', '=']);
    lemma_absent(s, seq!['=']);
    lemma_absent(s, seq!['>']);
    lemma_absent(s, seq!['<']);
    lemma_absent(s, seq!['~']);
    lemma_token_miss(s, seq!['!', '='], Operator::NotEqual);
    lemma_token_miss(s, seq!['>', '='], Operator::GreaterOrEqual);
    lemma_token_miss(s, seq!['<', '='], Operator::LessOrEqual);
    lemma_token_miss(s, seq!['='], Operator::Equal);
    lemma_token_miss(s, seq!['>'], Operator::GreaterThan);
    lemma_token_miss(s, seq!['<'], Operator::LessThan);
    lemma_token_miss(s, seq!['~'], Operator::Contains);
}

/// The shape of a serialized membership clause `f + " " + tok + " " + j`.
proof fn lemma_membership_shape(f: Seq<char>, tok: Seq<char>, values: Seq<Seq<char>>)
    requires
        guided_name(f),
        tok == token_of(Operator::In) || tok == token_of(Operator::NotIn),
        values.len() > 0,
        forall|i: int| 0 <= i < values.len() ==> plain_member(#[trigger] values[i]),
    ensures
        ({
            let j = join(values, seq![',']);
            let s = f + seq![' '] + tok + seq![' '] + j;
            let lf = f.len() as int;
            &&& s.len() == lf + tok.len() + 2 + j.len()
            &&& is_trimmed(s)
            &&& s[0] != '!'
            &&& s[s.len() - 1] != '?'
            &&& forall|i: int| 0 <= i < s.len() ==> !is_operator_char(#[trigger] s[i])
            &&& forall|i: int| 0 <= i < lf ==> #[trigger] s[i] == f[i]
            &&& forall|i: int| lf + tok.len() + 2 <= i < s.len() ==> !is_ws(#[trigger] s[i])
            &&& s.take(lf) == f
            &&& s.subrange(lf, lf + tok.len() + 1) == seq![' '] + tok
            &&& s[lf + tok.len() + 1] == ' '
            &&& s.skip(lf + tok.len() + 1) == seq![' '] + j
        }),
{
    let j = join(values, seq![',']);
    let s = f + seq![' '] + tok + seq![' '] + j;
    let lf = f.len() as int;
    let lt = tok.len() as int;
    let lp = lf + lt + 2;
    let quiet = |c: char| !is_operator_char(c) && !is_ws(c);
    assert forall|i: int, k: int| 0 <= i < values.len() && 0 <= k < values[i].len() implies quiet(#[trigger] values[i][k]) by {
        assert(plain_member(values[i]));
    }
    lemma_join_chars(values, seq![','], quiet);
    lemma_join_ends(values, seq![',']);
    assert(values.last() == values[values.len() - 1]);
    assert(plain_member(values[values.len() - 1]));
    assert forall|k: int| 0 <= k < j.len() implies #[trigger] s[lp + k] == j[k] by {}
    assert forall|i: int| 0 <= i < lf implies #[trigger] s[i] == f[i] by {}
    assert forall|i: int| 0 <= i < lt implies #[trigger] s[lf + 1 + i] == tok[i] by {}
    assert forall|i: int| 0 <= i < s.len() implies !is_operator_char(#[trigger] s[i]) by {
        if i < lf {
            assert(is_name_char(f[i]));
        } else if i >= lp {
            assert(s[i] == j[i - lp]);
            assert(quiet(j[i - lp]));
        } else if lf < i < lf + 1 + lt {
            assert(s[i] == tok[i - lf - 1]);
        }
    }
    assert forall|i: int| lp <= i < s.len() implies !is_ws(#[trigger] s[i]) by {
        assert(s[i] == j[i - lp]);
        assert(quiet(j[i - lp]));
    }
    assert(is_name_char(f[0]));
    assert(s[0] == f[0]);
    assert(s[s.len() - 1] == j[j.len() - 1]);
    assert(quiet(j[j.len() - 1]));
    assert(s.take(lf) =~= f);
    assert(s.subrange(lf, lf + lt + 1) =~= seq![' '] + tok);
    assert(s.skip(lf + lt + 1) =~= seq![' '] + j);
}

/// The word operator of a serialized membership clause is found right
/// after the field name, and the other one (for `in`) nowhere.
proof fn lemma_membership_word(f: Seq<char>, op: Operator, values: Seq<Seq<char>>)
    requires
        guided_name(f),
        trim(f) == f,
        field_ref_of(f) == FieldReferenceView::Local(f),
        op == Operator::In || op == Operator::NotIn,
        values.len() > 0,
        forall|i: int| 0 <= i < values.len() ==> plain_member(#[trigger] values[i]),
    ensures
        ({
            let s = f + seq![' '] + token_of(op) + seq![' '] + join(values, seq![',']);
            operator_forms(s) == Ok::<PredicateView, crate::query::parse::ParseErrorView>(
                membership(f, op, values),
            )
        }),
{
    let tok = token_of(op);
    let j = join(values, seq![',']);
    let s = f + seq![' '] + tok + seq![' '] + j;
    let lf = f.len() as int;
    let lt = tok.len() as int;
    lemma_membership_shape(f, tok, values);
    lemma_no_punctuation(s);
    let word = if op == Operator::NotIn { not_in_token() } else { in_token() };
    assert(word =~= seq![' '] + tok);
    assert forall|q: int| 0 <= q < lf implies !occurs_at(s, word, q) by {
        if occurs_at(s, word, q) {
            assert(s.subrange(q, q + word.len())[0] == s[q]);
            assert(is_name_char(f[q]));
        }
    }
    assert(s[lf + word.len()] == ' ');
    assert(word_at(s, word, lf));
    lemma_find_word_is(s, word, lf, 0);
    lemma_member_list(values, s, trim(word));
    assert(word_clause(s, word, op) == Some(
        Ok::<PredicateView, crate::query::parse::ParseErrorView>(membership(f, op, values)),
    ));
    if op == Operator::In {
        // ` not in` needs a second space four characters on: there is none.
        assert forall|q: int| 0 <= q implies !occurs_at(s, not_in_token(), q) by {
            if occurs_at(s, not_in_token(), q) {
                let w = s.subrange(q, q + 7);
                assert(w[0] == s[q]);
                assert(w[1] == s[q + 1]);
                assert(w[4] == s[q + 4]);
                if q < lf {
                    assert(is_name_char(f[q]));
                } else if q == lf {
                    assert(s[lf + 1] == tok[0]);
                } else if q < lf + 3 {
                    assert(s[q] == tok[q - lf - 1]);
                } else {
                    assert(q + 4 >= lf + lt + 2);
                }
            }
        }
        lemma_find_word_none(s, not_in_token(), 0);
    }
}

proof fn lemma_membership_round_trip(condition: ConditionView)
    requires
        builder_condition(condition),
        condition.operator == Operator::In || condition.operator == Operator::NotIn,
        is_trimmed(condition.field),
        trim(condition.field) == condition.field,
        field_ref_of(condition.field) == FieldReferenceView::Local(condition.field),
    ensures
        spec_serialize_condition(condition) is Ok,
        spec_decompose_clause(spec_serialize_condition(condition)->Ok_0) == ClauseView::Comparison(
            condition,
        ),
{
    let op = condition.operator;
    let f = condition.field;
    let values = condition.values;
    let tok = token_of(op);
    let s = f + seq![' '] + tok + seq![' '] + join(values, seq![',']);
    assert forall|i: int| 0 <= i < values.len() implies trim(#[trigger] values[i]).len() > 0 by {
        assert(plain_member(values[i]));
        assert(!is_ws(values[i][0]));
        assert(!is_ws(values[i][values[i].len() - 1]));
        lemma_trim_trimmed(values[i]);
    }
    assert(spec_serialize_condition(condition) == Ok::<Seq<char>, crate::query::clause::ConditionErrorView>(s));
    lemma_membership_shape(f, tok, values);
    lemma_trim_trimmed(s);
    lemma_membership_word(f, op, values);
    assert(spec_parse_where(s) == Ok::<PredicateView, crate::query::parse::ParseErrorView>(
        membership(f, op, values),
    ));
    // Folding the flat tree back.
    let member_operator = if op == Operator::NotIn { Operator::NotEqual } else { Operator::Equal };
    let branches = values.map_values(|value: Seq<char>| value_comparison(f, member_operator, value));
    assert forall|i: int| 0 <= i < branches.len() implies is_member_branch(#[trigger] branches[i], f, member_operator) by {}
    assert(branches.map_values(|b: PredicateView| branch_text(b)) =~= values);
    assert(condition_of_membership(branches, op) == Some(condition));
}

} // verus!
