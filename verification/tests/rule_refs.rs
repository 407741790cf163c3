use workdown_core::rule_refs::{
    is_one_to_many_reference, is_relation_anchor, is_valid_field_reference, is_valid_rule_name,
    rule_error, validate_field_reference,
};
use workdown_core::schema::{FieldDefinition, FieldTypeConfig, NamedField, Schema};
use workdown_core::schema_check::SchemaValidationError;

fn named(name: &str, config: FieldTypeConfig) -> NamedField {
    NamedField {
        name: name.to_owned(),
        definition: FieldDefinition::new(config),
    }
}

fn schema() -> Schema {
    Schema {
        fields: vec![
            named("status", FieldTypeConfig::Choice { values: vec!["open".into()] }),
            named(
                "parent",
                FieldTypeConfig::Link {
                    allow_cycles: None,
                    inverse: Some("children".into()),
                },
            ),
            named(
                "depends_on",
                FieldTypeConfig::Links {
                    allow_cycles: None,
                    inverse: None,
                },
            ),
        ],
    }
}

fn messages(rule: &str, reference: &str, section: &str) -> Vec<String> {
    let mut errors: Vec<SchemaValidationError> = Vec::new();
    validate_field_reference(rule, reference, section, &schema(), &mut errors);
    errors
        .iter()
        .map(|e| {
            assert_eq!(e.context, format!("rule '{rule}'"));
            e.message.clone()
        })
        .collect()
}

#[test]
fn rule_names_are_kebab_case() {
    assert!(is_valid_rule_name("wip-limit"));
    assert!(is_valid_rule_name("a1-b2"));
    assert!(!is_valid_rule_name(""));
    assert!(!is_valid_rule_name("1-rule"));
    assert!(!is_valid_rule_name("-rule"));
    assert!(!is_valid_rule_name("Wip"));
    assert!(!is_valid_rule_name("wip_limit"));
}

#[test]
fn rule_error_context_names_the_rule() {
    let error = rule_error("wip-limit", "too many".to_owned());
    assert_eq!(error.to_text(), "rule 'wip-limit': too many");
}

#[test]
fn field_references_have_one_or_two_parts() {
    assert!(is_valid_field_reference("status"));
    assert!(is_valid_field_reference("parent.status"));
    assert!(!is_valid_field_reference("a.b.c"));
    assert!(!is_valid_field_reference("parent."));
    assert!(!is_valid_field_reference(""));
    assert!(!is_valid_field_reference("Status"));
}

#[test]
fn relation_anchors_are_links_or_inverses() {
    let schema = schema();
    assert!(is_relation_anchor("parent", &schema));
    assert!(is_relation_anchor("depends_on", &schema));
    assert!(is_relation_anchor("children", &schema));
    assert!(!is_relation_anchor("status", &schema));
    assert!(!is_relation_anchor("nothing", &schema));
}

#[test]
fn one_to_many_references() {
    let schema = schema();
    assert!(is_one_to_many_reference("children", &schema));
    assert!(is_one_to_many_reference("children.status", &schema));
    assert!(is_one_to_many_reference("depends_on.status", &schema));
    assert!(!is_one_to_many_reference("parent.status", &schema));
    assert!(!is_one_to_many_reference("status", &schema));
    assert!(!is_one_to_many_reference("unknown", &schema));
}

#[test]
fn valid_references_earn_no_error() {
    assert!(messages("r", "status", "match").is_empty());
    assert!(messages("r", "children", "require").is_empty());
    assert!(messages("r", "parent.status", "match").is_empty());
    assert!(messages("r", "children.status", "require").is_empty());
}

#[test]
fn malformed_reference_is_reported_alone() {
    assert_eq!(
        messages("r", "a.b.c", "match"),
        vec!["'a.b.c' in 'match' is not a valid field reference".to_owned()]
    );
}

#[test]
fn unknown_bare_reference() {
    assert_eq!(
        messages("r", "nothing", "require"),
        vec!["'nothing' in 'require' does not match any defined field or inverse".to_owned()]
    );
}

#[test]
fn dotted_reference_errors_come_in_order() {
    assert_eq!(
        messages("r", "status.missing", "match"),
        vec![
            "'status' in 'status.missing' (match) must be a link/links field or a defined inverse"
                .to_owned(),
            "'missing' in 'status.missing' (match) does not match any defined field".to_owned(),
        ]
    );
}
