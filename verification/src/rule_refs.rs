//! Names in rules: the form of a rule's name, and the field references a
//! rule's `match` and `require` sections use (`field` or
//! `relation.field`), checked against the schema's fields.

use vstd::prelude::*;

use crate::model::FieldType;
use crate::schema::{config_type, definition_of, inverse_owner, Schema};
use crate::schema_check::{error_views, is_digit, is_lower, is_valid_field_name, spec_is_valid_field_name, SchemaValidationError};
use crate::text::{chars_of, concat, lemma_split_nonempty, split, split_chars, string_of};

verus! {

// ── Rule names ──────────────────────────────────────────────────────

/// Rule names: kebab-case, lowercase letters, digits and hyphens, starting
/// with a lowercase letter.
pub open spec fn spec_is_valid_rule_name(name: Seq<char>) -> bool {
    &&& name.len() > 0
    &&& is_lower(name[0])
    &&& forall|i: int| 0 <= i < name.len() ==> is_lower(#[trigger] name[i]) || is_digit(name[i]) || name[i] == '-'
}

/// Whether `name` is a valid rule name.
pub fn is_valid_rule_name(name: &str) -> (r: bool)
    ensures
        r == spec_is_valid_rule_name(name@),
{
    let chars = chars_of(name);
    let n = chars.len();
    if n == 0 || !('a' <= chars[0] && chars[0] <= 'z') {
        return false;
    }
    let mut i: usize = 0;
    while i < n
        invariant
            n == name@.len(),
            chars@ == name@,
            i <= n,
            forall|k: int| 0 <= k < i ==> is_lower(#[trigger] name@[k]) || is_digit(name@[k]) || name@[k] == '-',
        decreases n - i,
    {
        let c = chars[i];
        if !(('a' <= c && c <= 'z') || ('0' <= c && c <= '9') || c == '-') {
            return false;
        }
        i = i + 1;
    }
    true
}

/// The context of an error about the rule `name`.
pub open spec fn rule_context(name: Seq<char>) -> Seq<char> {
    "rule '"@ + name + "'"@
}

/// One error about the rule `name`.
pub open spec fn rule_errors(name: Seq<char>, message: Seq<char>) -> Seq<(Seq<char>, Seq<char>)> {
    seq![(rule_context(name), message)]
}

/// An error about the rule `name`.
pub fn rule_error(name: &str, message: String) -> (r: SchemaValidationError)
    ensures
        r.context@ == rule_context(name@),
        r.message@ == message@,
{
    let head = concat("rule '", name);
    let context = concat(head.as_str(), "'");
    SchemaValidationError { context, message }
}

fn push_rule_error(errors: &mut Vec<SchemaValidationError>, name: &str, message: String)
    ensures
        error_views(final(errors)@) == error_views(old(errors)@) + rule_errors(name@, message@),
{
    let error = rule_error(name, message);
    errors.push(error);
    assert(error_views(errors@) =~= error_views(old(errors)@) + rule_errors(name@, message@));
}

// ── Field references ────────────────────────────────────────────────

/// A field reference is one field name, or two joined by a dot.
pub open spec fn spec_is_valid_field_reference(reference: Seq<char>) -> bool {
    let parts = split(reference, '.');
    (parts.len() == 1 && spec_is_valid_field_name(parts[0])) || (parts.len() == 2
        && spec_is_valid_field_name(parts[0]) && spec_is_valid_field_name(parts[1]))
}

/// The dot-separated parts of `reference`, as strings.
fn reference_parts(reference: &str) -> (r: Vec<String>)
    ensures
        r@.map_values(|part: String| part@) == split(reference@, '.'),
        r@.len() > 0,
{
    let chars = chars_of(reference);
    let pieces = split_chars(chars.as_slice(), '.');
    let ghost views = pieces@.map_values(|piece: Vec<char>| piece@);
    let mut parts: Vec<String> = Vec::new();
    let mut i: usize = 0;
    while i < pieces.len()
        invariant
            i <= pieces@.len(),
            views == pieces@.map_values(|piece: Vec<char>| piece@),
            parts@.map_values(|part: String| part@) == views.take(i as int),
        decreases pieces@.len() - i,
    {
        let ghost before = parts@.map_values(|part: String| part@);
        let part = string_of(pieces[i].as_slice());
        parts.push(part);
        assert(parts@.map_values(|part: String| part@) =~= before.push(views[i as int]));
        assert(views.take(i + 1) =~= views.take(i as int).push(views[i as int]));
        i = i + 1;
    }
    assert(views.take(pieces@.len() as int) =~= views);
    proof {
        lemma_split_nonempty(reference@, '.');
    }
    parts
}

/// Whether `reference` is a well-formed field reference.
pub fn is_valid_field_reference(reference: &str) -> (r: bool)
    ensures
        r == spec_is_valid_field_reference(reference@),
{
    let parts = reference_parts(reference);
    proof {
        assert(parts@[0]@ == split(reference@, '.')[0]);
        if parts@.len() == 2 {
            assert(parts@[1]@ == split(reference@, '.')[1]);
        }
    }
    if parts.len() == 1 {
        is_valid_field_name(parts[0].as_str())
    } else if parts.len() == 2 {
        is_valid_field_name(parts[0].as_str()) && is_valid_field_name(parts[1].as_str())
    } else {
        false
    }
}

/// Some link or links field declares `name` as its inverse.
pub open spec fn defines_inverse(schema: Schema, name: Seq<char>) -> bool {
    inverse_owner(schema.fields@, name) is Some
}

/// Whether the schema declares a field named `name`.
pub open spec fn declares_field(schema: Schema, name: Seq<char>) -> bool {
    definition_of(schema.fields@, name) is Some
}

/// The declared type of the field named `name`, if there is one.
pub open spec fn type_of_field(schema: Schema, name: Seq<char>) -> Option<FieldType> {
    match definition_of(schema.fields@, name) {
        Some(definition) => Some(config_type(definition.type_config)),
        None => None,
    }
}

/// A relation can be followed from `name`: it is a link or links field,
/// or an inverse one of them declares.
pub open spec fn spec_is_relation_anchor(schema: Schema, name: Seq<char>) -> bool {
    type_of_field(schema, name) == Some(FieldType::Link) || type_of_field(schema, name) == Some(
        FieldType::Links,
    ) || defines_inverse(schema, name)
}

fn is_defined_inverse(schema: &Schema, name: &str) -> (r: bool)
    ensures
        r == defines_inverse(*schema, name@),
{
    schema.inverse_of(name).is_some()
}

fn field_type_of(schema: &Schema, name: &str) -> (r: Option<FieldType>)
    ensures
        r == type_of_field(*schema, name@),
{
    match schema.field(name) {
        Some(definition) => Some(definition.field_type()),
        None => None,
    }
}

/// Whether a relation can be followed from `name`.
pub fn is_relation_anchor(name: &str, schema: &Schema) -> (r: bool)
    ensures
        r == spec_is_relation_anchor(*schema, name@),
{
    let is_link_field = match field_type_of(schema, name) {
        Some(FieldType::Link) | Some(FieldType::Links) => true,
        _ => false,
    };
    is_link_field || is_defined_inverse(schema, name)
}

/// A reference leads to many items: its first part is an inverse, or a
/// links field.
pub open spec fn spec_is_one_to_many_reference(reference: Seq<char>, schema: Schema) -> bool {
    let first = split(reference, '.')[0];
    defines_inverse(schema, first) || type_of_field(schema, first) == Some(FieldType::Links)
}

/// Whether `reference` points to a one-to-many relationship.
pub fn is_one_to_many_reference(reference: &str, schema: &Schema) -> (r: bool)
    ensures
        r == spec_is_one_to_many_reference(reference@, *schema),
{
    let parts = reference_parts(reference);
    assert(parts@[0]@ == split(reference@, '.')[0]);
    let first = parts[0].as_str();
    if is_defined_inverse(schema, first) {
        return true;
    }
    match field_type_of(schema, first) {
        Some(field_type) => matches!(field_type, FieldType::Links),
        None => false,
    }
}

/// The errors a field reference of the rule `rule` in its `section`
/// (`match` or `require`) earns: a malformed reference is reported alone;
/// a bare name must be a field or an inverse; with a dot, the first part
/// must be a relation anchor and the second a field.
pub open spec fn reference_errors(
    rule: Seq<char>,
    reference: Seq<char>,
    section: Seq<char>,
    schema: Schema,
) -> Seq<(Seq<char>, Seq<char>)> {
    let parts = split(reference, '.');
    if !spec_is_valid_field_reference(reference) {
        rule_errors(rule, "'"@ + reference + "' in '"@ + section + "' is not a valid field reference"@)
    } else if parts.len() == 1 {
        if !declares_field(schema, parts[0]) && !defines_inverse(schema, parts[0]) {
            rule_errors(
                rule,
                "'"@ + reference + "' in '"@ + section + "' does not match any defined field or inverse"@,
            )
        } else {
            Seq::empty()
        }
    } else {
        (if !spec_is_relation_anchor(schema, parts[0]) {
            rule_errors(
                rule,
                "'"@ + parts[0] + "' in '"@ + reference + "' ("@ + section
                    + ") must be a link/links field or a defined inverse"@,
            )
        } else {
            Seq::empty()
        }) + if !declares_field(schema, parts[1]) {
            rule_errors(
                rule,
                "'"@ + parts[1] + "' in '"@ + reference + "' ("@ + section + ") does not match any defined field"@,
            )
        } else {
            Seq::empty()
        }
    }
}

/// `'a' in 'b'` followed by `tail`.
fn quoted_in(a: &str, b: &str, tail: &str) -> (r: String)
    ensures
        r@ == "'"@ + a@ + "' in '"@ + b@ + tail@,
{
    let s = concat("'", a);
    let s = concat(s.as_str(), "' in '");
    let s = concat(s.as_str(), b);
    concat(s.as_str(), tail)
}

/// `'a' in 'b' (c)` followed by `tail`.
fn quoted_in_section(a: &str, b: &str, c: &str, tail: &str) -> (r: String)
    ensures
        r@ == "'"@ + a@ + "' in '"@ + b@ + "' ("@ + c@ + tail@,
{
    let s = quoted_in(a, b, "' (");
    let s = concat(s.as_str(), c);
    let r = concat(s.as_str(), tail);
    assert(r@ =~= "'"@ + a@ + "' in '"@ + b@ + "' ("@ + c@ + tail@);
    r
}

/// Check that a field reference of the rule `rule_name`, found in its
/// `section`, resolves against the schema; append the errors it earns.
pub fn validate_field_reference(
    rule_name: &str,
    reference: &str,
    section: &str,
    schema: &Schema,
    errors: &mut Vec<SchemaValidationError>,
)
    ensures
        error_views(final(errors)@) == error_views(old(errors)@) + reference_errors(
            rule_name@,
            reference@,
            section@,
            *schema,
        ),
{
    if !is_valid_field_reference(reference) {
        let message = quoted_in(reference, section, "' is not a valid field reference");
        assert(message@ =~= "'"@ + reference@ + "' in '"@ + section@ + "' is not a valid field reference"@);
        push_rule_error(errors, rule_name, message);
        return;
    }
    let parts = reference_parts(reference);
    assert(parts@[0]@ == split(reference@, '.')[0]);
    if parts.len() == 1 {
        let name = parts[0].as_str();
        if schema.field(name).is_none() && !is_defined_inverse(schema, name) {
            let message = quoted_in(reference, section, "' does not match any defined field or inverse");
            assert(message@ =~= "'"@ + reference@ + "' in '"@ + section@
                + "' does not match any defined field or inverse"@);
            push_rule_error(errors, rule_name, message);
        } else {
            assert(error_views(errors@) =~= error_views(old(errors)@) + Seq::<(Seq<char>, Seq<char>)>::empty());
        }
    } else {
        assert(parts@[1]@ == split(reference@, '.')[1]);
        let first = parts[0].as_str();
        let second = parts[1].as_str();
        let ghost start = error_views(errors@);
        if !is_relation_anchor(first, schema) {
            let message = quoted_in_section(
                first,
                reference,
                section,
                ") must be a link/links field or a defined inverse",
            );
            push_rule_error(errors, rule_name, message);
        }
        let ghost middle = error_views(errors@);
        if schema.field(second).is_none() {
            let message = quoted_in_section(second, reference, section, ") does not match any defined field");
            push_rule_error(errors, rule_name, message);
        }
        assert(error_views(errors@) =~= error_views(old(errors)@) + reference_errors(
            rule_name@,
            reference@,
            section@,
            *schema,
        ));
    }
}

} // verus!
