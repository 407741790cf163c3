use workdown_core::model::{Date, FieldValue};
use workdown_core::resources_yaml::{parse_resources, ResourcesLoadError};


#[test]
fn empty_string_parses_to_empty() {
    let resources = parse_resources("").unwrap();
    assert!(resources.is_empty());
}

#[test]
fn comment_only_parses_to_empty() {
    let resources = parse_resources("# just a comment\n").unwrap();
    assert!(resources.is_empty());
}

#[test]
fn single_section_with_entries() {
    let yaml = "\
people:
  - id: alice
    name: Alice Smith
    email: alice@example.com
  - id: bob
    name: Bob Jones
";
    let resources = parse_resources(yaml).unwrap();
    let people = resources.section("people").unwrap();
    assert_eq!(people.len(), 2);
    assert_eq!(people[0].id, "alice");
    assert_eq!(people[0].name.as_deref(), Some("Alice Smith"));
    assert_eq!(people[1].id, "bob");
}

#[test]
fn extra_attributes_are_ignored() {
    // `email` and `start` are not modelled — they must not cause a
    // parse error, and must not appear anywhere in the loaded data.
    let yaml = "\
sprints:
  - id: sprint-1
    name: Sprint 1
    start: 2026-04-01
    end: 2026-04-14
";
    let resources = parse_resources(yaml).unwrap();
    let sprints = resources.section("sprints").unwrap();
    assert_eq!(sprints.len(), 1);
    assert_eq!(sprints[0].id, "sprint-1");
    assert_eq!(sprints[0].name.as_deref(), Some("Sprint 1"));
}

#[test]
fn null_section_is_empty() {
    // A key with every entry commented out — the shape the default
    // resources.yaml ships in.
    let yaml = "\
people:
  # - id: alice
";
    let resources = parse_resources(yaml).unwrap();
    assert_eq!(resources.section("people").unwrap().len(), 0);
}

#[test]
fn entry_without_name_falls_back_to_id_for_label() {
    let yaml = "teams:\n  - id: backend\n";
    let resources = parse_resources(yaml).unwrap();
    let teams = resources.section("teams").unwrap();
    assert_eq!(teams[0].name, None);
    assert_eq!(teams[0].label(), "backend");
}

#[test]
fn label_prefers_name_over_id() {
    let yaml = "people:\n  - id: alice\n    name: Alice Smith\n";
    let resources = parse_resources(yaml).unwrap();
    assert_eq!(
        resources.section("people").unwrap()[0].label(),
        "Alice Smith"
    );
}

#[test]
fn declaration_order_is_preserved() {
    let yaml = "\
people:
  - id: alice
teams:
  - id: backend
sprints:
  - id: sprint-1
";
    let resources = parse_resources(yaml).unwrap();
    let names: Vec<&str> = resources.sections.iter().map(|section| section.name.as_str()).collect();
    assert_eq!(names, vec!["people", "teams", "sprints"]);
}

#[test]
fn entry_missing_id_is_an_error() {
    let yaml = "people:\n  - name: No Id Here\n";
    let error = parse_resources(yaml).unwrap_err();
    assert!(matches!(error, ResourcesLoadError::InvalidSection { .. }));
}

#[test]
fn section_error_names_the_section() {
    let yaml = "people:\n  - name: No Id Here\n";
    let message = parse_resources(yaml).unwrap_err().to_text();
    assert!(message.contains("people"), "got: {message}");
}

#[test]
fn section_with_non_sequence_value_is_an_error() {
    let yaml = "people: just a string\n";
    let error = parse_resources(yaml).unwrap_err();
    assert!(matches!(error, ResourcesLoadError::InvalidSection { .. }));
}

#[test]
fn constants_of_every_scalar_type() {
    let yaml = "\
constants:
  project_code:
    type: string
    value: WD
  team_size:
    type: integer
    value: 4
  daily_rate:
    type: float
    value: 800.5
  kickoff:
    type: date
    value: 2026-04-20
  work_hours_per_day:
    type: duration
    value: 8h
  billable:
    type: boolean
    value: true
";
    let resources = parse_resources(yaml).unwrap();
    assert_eq!(
        resources.constant("project_code"),
        Some(&FieldValue::String("WD".to_owned()))
    );
    assert_eq!(
        resources.constant("team_size"),
        Some(&FieldValue::Integer(4))
    );
    assert_eq!(
        resources.constant("daily_rate"),
        Some(&FieldValue::Float("800.5".into()))
    );
    assert_eq!(
        resources.constant("kickoff"),
        Some(&FieldValue::Date(
            Date::from_ymd(2026, 4, 20).unwrap()
        ))
    );
    assert_eq!(
        resources.constant("work_hours_per_day"),
        Some(&FieldValue::Duration(8 * 3_600))
    );
    assert_eq!(
        resources.constant("billable"),
        Some(&FieldValue::Boolean(true))
    );
}

#[test]
fn constants_coexist_with_sections_and_are_not_a_section() {
    let yaml = "\
people:
  - id: alice
constants:
  daily_rate:
    type: float
    value: 800
";
    let resources = parse_resources(yaml).unwrap();
    assert_eq!(resources.sections.len(), 1);
    assert!(resources.section("constants").is_none());
    assert_eq!(
        resources.constant("daily_rate"),
        Some(&FieldValue::Float("800".into()))
    );
}

#[test]
fn constants_declaration_order_is_preserved() {
    let yaml = "\
constants:
  zulu:
    type: integer
    value: 1
  alpha:
    type: integer
    value: 2
";
    let resources = parse_resources(yaml).unwrap();
    let names: Vec<&str> = resources.constants.iter().map(|(name, _)| name.as_str()).collect();
    assert_eq!(names, vec!["zulu", "alpha"]);
}

#[test]
fn null_constants_section_is_empty() {
    let yaml = "constants:\n  # all commented out\n";
    let resources = parse_resources(yaml).unwrap();
    assert!(resources.constants.is_empty());
}

#[test]
fn float_constant_accepts_integer_value() {
    let yaml = "constants:\n  rate:\n    type: float\n    value: 800\n";
    let resources = parse_resources(yaml).unwrap();
    assert_eq!(resources.constant("rate"), Some(&FieldValue::Float("800".into())));
}

#[test]
fn integer_constant_rejects_fractional_value() {
    let yaml = "constants:\n  size:\n    type: integer\n    value: 4.5\n";
    let error = parse_resources(yaml).unwrap_err();
    assert!(matches!(
        error,
        ResourcesLoadError::InvalidConstantValue { ref name, .. } if name == "size"
    ));
}

#[test]
fn unsupported_constant_type_is_an_error() {
    let yaml = "constants:\n  status:\n    type: choice\n    value: open\n";
    let error = parse_resources(yaml).unwrap_err();
    assert!(matches!(
        error,
        ResourcesLoadError::UnsupportedConstantType { ref declared, .. }
            if declared == "choice"
    ));
}

#[test]
fn invalid_date_constant_is_an_error() {
    let yaml = "constants:\n  kickoff:\n    type: date\n    value: 2026-02-30\n";
    let error = parse_resources(yaml).unwrap_err();
    assert!(matches!(
        error,
        ResourcesLoadError::InvalidConstantValue { ref name, .. } if name == "kickoff"
    ));
}

#[test]
fn invalid_duration_constant_is_an_error() {
    let yaml = "constants:\n  pace:\n    type: duration\n    value: garbage\n";
    let error = parse_resources(yaml).unwrap_err();
    assert!(matches!(
        error,
        ResourcesLoadError::InvalidConstantValue { ref name, .. } if name == "pace"
    ));
}

#[test]
fn constant_with_unknown_key_is_an_error() {
    // Constant declarations are closed shapes — `vaule:` is a typo,
    // not freeform metadata.
    let yaml = "constants:\n  rate:\n    type: float\n    vaule: 800\n";
    let error = parse_resources(yaml).unwrap_err();
    assert!(matches!(error, ResourcesLoadError::InvalidConstants { .. }));
}

#[test]
fn constant_missing_value_is_an_error() {
    let yaml = "constants:\n  rate:\n    type: float\n";
    let error = parse_resources(yaml).unwrap_err();
    assert!(matches!(error, ResourcesLoadError::InvalidConstants { .. }));
}

#[test]
fn constants_as_sequence_is_an_error() {
    let yaml = "constants:\n  - id: rate\n";
    let error = parse_resources(yaml).unwrap_err();
    assert!(matches!(error, ResourcesLoadError::InvalidConstants { .. }));
}
