use workdown_core::model::{Date, FieldMap, FieldValue, WorkItem, WorkItemId};
use workdown_core::query::eval::{matches_predicate, QueryEvalError};
use workdown_core::query::parse::parse_where;
use workdown_core::query::types::{
    Comparison, FieldReference, Operand, Operator, Predicate, QueryRegex,
};
use workdown_core::schema::{FieldDefinition, FieldTypeConfig, NamedField, Schema};
use workdown_core::store::{load_file, Store};

fn named(name: &str, definition: FieldDefinition) -> NamedField {
    NamedField {
        name: name.to_owned(),
        definition,
    }
}

/// A schema with one field of each common type.
fn test_schema() -> Schema {
    let mut status = FieldDefinition::new(FieldTypeConfig::Choice {
        values: vec!["open".into(), "in_progress".into(), "done".into()],
    });
    status.required = true;
    Schema {
        fields: vec![
            named(
                "title",
                FieldDefinition::new(FieldTypeConfig::String { pattern: None }),
            ),
            named("status", status),
            named(
                "points",
                FieldDefinition::new(FieldTypeConfig::Integer {
                    min: None,
                    max: None,
                }),
            ),
            named(
                "weight",
                FieldDefinition::new(FieldTypeConfig::Float {
                    min: None,
                    max: None,
                }),
            ),
            named("active", FieldDefinition::new(FieldTypeConfig::Boolean)),
            named("tags", FieldDefinition::new(FieldTypeConfig::List)),
            named(
                "labels",
                FieldDefinition::new(FieldTypeConfig::Multichoice {
                    values: vec!["backend".into(), "frontend".into(), "devops".into()],
                }),
            ),
            named(
                "parent",
                FieldDefinition::new(FieldTypeConfig::Link {
                    allow_cycles: Some(false),
                    inverse: Some("children".into()),
                }),
            ),
            named(
                "depends_on",
                FieldDefinition::new(FieldTypeConfig::Links {
                    allow_cycles: Some(false),
                    inverse: Some("dependents".into()),
                }),
            ),
            named("due_date", FieldDefinition::new(FieldTypeConfig::Date)),
            named(
                "estimate",
                FieldDefinition::new(FieldTypeConfig::Duration {
                    min: None,
                    max: None,
                }),
            ),
            named("background", FieldDefinition::new(FieldTypeConfig::Color)),
        ],
    }
}

/// A work item with the given fields plus the `id` projection every
/// loaded item carries.
fn make_item(id: &str, fields: Vec<(&str, FieldValue)>) -> WorkItem {
    let mut map = FieldMap::new();
    for (key, value) in fields {
        map.insert(key.to_owned(), value);
    }
    map.insert("id".to_owned(), FieldValue::String(id.to_owned()));
    WorkItem {
        id: WorkItemId::from(id.to_owned()),
        fields: map,
        body: String::new(),
        source_path: format!("{id}.md"),
    }
}

fn check(item: &WorkItem, predicate: &Predicate, schema: &Schema) -> Result<bool, QueryEvalError> {
    let store = Store::empty();
    matches_predicate(item, predicate, schema, &store)
}

fn comparison(field: &str, operator: Operator, value: &str) -> Predicate {
    Predicate::Comparison(Comparison {
        field: FieldReference::Local(field.to_owned()),
        operator,
        operand: Operand::Value(value.to_owned()),
    })
}

fn regex_comparison(field: &str, pattern: &str, flags: &str) -> Predicate {
    Predicate::Comparison(Comparison {
        field: FieldReference::Local(field.to_owned()),
        operator: Operator::Matches,
        operand: Operand::Regex(QueryRegex::new(pattern, flags).unwrap()),
    })
}

fn related_comparison(relation: &str, field: &str, operator: Operator, value: &str) -> Predicate {
    Predicate::Comparison(Comparison {
        field: FieldReference::Related {
            relation: relation.to_owned(),
            field: field.to_owned(),
        },
        operator,
        operand: Operand::Value(value.to_owned()),
    })
}

/// A store built from Markdown files, read in file-name order.
fn store_from_files(schema: &Schema, files: Vec<(&str, &str)>) -> Store {
    let mut files = files;
    files.sort_by(|a, b| a.0.cmp(b.0));
    let loaded = files
        .into_iter()
        .map(|(name, content)| load_file(name, content, schema))
        .collect();
    Store::load(loaded, schema).0
}

#[test]
fn string_equal_match() {
    let schema = test_schema();
    let item = make_item("t1", vec![("status", FieldValue::Choice("open".into()))]);
    let predicate = comparison("status", Operator::Equal, "open");
    assert!(check(&item, &predicate, &schema).unwrap());
}

#[test]
fn string_equal_no_match() {
    let schema = test_schema();
    let item = make_item("t1", vec![("status", FieldValue::Choice("done".into()))]);
    let predicate = comparison("status", Operator::Equal, "open");
    assert!(!check(&item, &predicate, &schema).unwrap());
}

#[test]
fn string_not_equal() {
    let schema = test_schema();
    let item = make_item("t1", vec![("status", FieldValue::Choice("open".into()))]);
    let predicate = comparison("status", Operator::NotEqual, "done");
    assert!(check(&item, &predicate, &schema).unwrap());
}

#[test]
fn color_not_equal_on_resolved_hex() {
    let schema = test_schema();
    let item = make_item("t1", vec![("background", FieldValue::Color("red".into()))]);
    let predicate = comparison("background", Operator::NotEqual, "blue");
    assert!(check(&item, &predicate, &schema).unwrap());
}

#[test]
fn color_invalid_comparison_value_never_matches() {
    let schema = test_schema();
    let item = make_item("t1", vec![("background", FieldValue::Color("red".into()))]);
    let equal_predicate = comparison("background", Operator::Equal, "teal");
    assert!(!check(&item, &equal_predicate, &schema).unwrap());
}

#[test]
fn integer_greater_than_match() {
    let schema = test_schema();
    let item = make_item("t1", vec![("points", FieldValue::Integer(5))]);
    let predicate = comparison("points", Operator::GreaterThan, "3");
    assert!(check(&item, &predicate, &schema).unwrap());
}

#[test]
fn integer_greater_than_no_match() {
    let schema = test_schema();
    let item = make_item("t1", vec![("points", FieldValue::Integer(2))]);
    let predicate = comparison("points", Operator::GreaterThan, "3");
    assert!(!check(&item, &predicate, &schema).unwrap());
}

#[test]
fn integer_equal() {
    let schema = test_schema();
    let item = make_item("t1", vec![("points", FieldValue::Integer(5))]);
    let predicate = comparison("points", Operator::Equal, "5");
    assert!(check(&item, &predicate, &schema).unwrap());
}

#[test]
fn integer_less_or_equal() {
    let schema = test_schema();
    let item = make_item("t1", vec![("points", FieldValue::Integer(3))]);
    let predicate = comparison("points", Operator::LessOrEqual, "3");
    assert!(check(&item, &predicate, &schema).unwrap());
}

#[test]
fn float_greater_or_equal() {
    let schema = test_schema();
    let item = make_item("t1", vec![("weight", FieldValue::Float("1.5".into()))]);
    let predicate = comparison("weight", Operator::GreaterOrEqual, "1.5");
    assert!(check(&item, &predicate, &schema).unwrap());
}

#[test]
fn boolean_equal_true() {
    let schema = test_schema();
    let item = make_item("t1", vec![("active", FieldValue::Boolean(true))]);
    let predicate = comparison("active", Operator::Equal, "true");
    assert!(check(&item, &predicate, &schema).unwrap());
}

#[test]
fn boolean_equal_false() {
    let schema = test_schema();
    let item = make_item("t1", vec![("active", FieldValue::Boolean(true))]);
    let predicate = comparison("active", Operator::Equal, "false");
    assert!(!check(&item, &predicate, &schema).unwrap());
}

#[test]
fn string_contains() {
    let schema = test_schema();
    let item = make_item(
        "t1",
        vec![("title", FieldValue::String("Fix login bug".into()))],
    );
    let predicate = comparison("title", Operator::Contains, "login");
    assert!(check(&item, &predicate, &schema).unwrap());
}

#[test]
fn list_contains_membership() {
    let schema = test_schema();
    let item = make_item(
        "t1",
        vec![(
            "tags",
            FieldValue::List(vec!["auth".into(), "backend".into()]),
        )],
    );
    let predicate = comparison("tags", Operator::Equal, "auth");
    assert!(check(&item, &predicate, &schema).unwrap());
}

#[test]
fn multichoice_membership() {
    let schema = test_schema();
    let item = make_item(
        "t1",
        vec![(
            "labels",
            FieldValue::Multichoice(vec!["backend".into(), "frontend".into()]),
        )],
    );
    let predicate = comparison("labels", Operator::Equal, "backend");
    assert!(check(&item, &predicate, &schema).unwrap());
}

#[test]
fn regex_match() {
    let schema = test_schema();
    let item = make_item(
        "t1",
        vec![("title", FieldValue::String("Fix-login-bug".into()))],
    );
    let predicate = regex_comparison("title", "^Fix-.*", "");
    assert!(check(&item, &predicate, &schema).unwrap());
}

#[test]
fn regex_case_insensitive() {
    let schema = test_schema();
    let item = make_item(
        "t1",
        vec![("title", FieldValue::String("fix-login-bug".into()))],
    );
    let predicate = regex_comparison("title", "^Fix-.*", "i");
    assert!(check(&item, &predicate, &schema).unwrap());
}

#[test]
fn is_set_with_value() {
    let schema = test_schema();
    let item = make_item(
        "t1",
        vec![("title", FieldValue::String("Something".into()))],
    );
    let predicate = comparison("title", Operator::IsSet, "");
    assert!(check(&item, &predicate, &schema).unwrap());
}

#[test]
fn is_set_without_value() {
    let schema = test_schema();
    let item = make_item("t1", vec![]);
    let predicate = comparison("title", Operator::IsSet, "");
    assert!(!check(&item, &predicate, &schema).unwrap());
}

#[test]
fn is_not_set() {
    let schema = test_schema();
    let item = make_item("t1", vec![]);
    let predicate = comparison("title", Operator::IsNotSet, "");
    assert!(check(&item, &predicate, &schema).unwrap());
}

#[test]
fn missing_field_no_match() {
    let schema = test_schema();
    let item = make_item("t1", vec![]);
    let predicate = comparison("points", Operator::GreaterThan, "3");
    assert!(!check(&item, &predicate, &schema).unwrap());
}

/// An absent field fails every positive comparison.
#[test]
fn missing_field_fails_positive_operators() {
    let schema = test_schema();
    let item = make_item("t1", vec![]);
    for (field, operator, value) in [
        ("status", Operator::Equal, "done"),
        ("points", Operator::GreaterThan, "3"),
        ("points", Operator::LessOrEqual, "3"),
        ("title", Operator::Contains, "fix"),
        ("title", Operator::Matches, "/^fix/"),
        ("labels", Operator::Equal, "backend"),
    ] {
        let predicate = comparison(field, operator, value);
        assert!(
            !check(&item, &predicate, &schema).unwrap(),
            "{field} {operator:?} {value} should not match an absent field"
        );
    }
}

/// …and satisfies the negative ones, so an item that never set a status
/// still counts as "not done".
#[test]
fn missing_field_satisfies_negative_operators() {
    let schema = test_schema();
    let item = make_item("t1", vec![]);
    for (field, value) in [("status", "done"), ("points", "3"), ("labels", "backend")] {
        let predicate = comparison(field, Operator::NotEqual, value);
        assert!(
            check(&item, &predicate, &schema).unwrap(),
            "{field} != {value} should match an absent field"
        );
    }
}

/// The contract `not in` relies on: it agrees with `!=` for every item,
/// including one carrying no value for the field.
#[test]
fn not_in_agrees_with_not_equal_on_absent_field() {
    let schema = test_schema();
    let absent = make_item("t1", vec![]);
    let present = make_item("t2", vec![("status", FieldValue::String("done".into()))]);

    for item in [&absent, &present] {
        let single = parse_where("status!=done").unwrap();
        let membership = parse_where("status not in done").unwrap();
        assert_eq!(
            check(item, &single, &schema).unwrap(),
            check(item, &membership, &schema).unwrap(),
            "'status!=done' and 'status not in done' disagree on {}",
            item.id.as_str()
        );
    }
}

/// The stricter reading — exclude items with no value — stays reachable by
/// AND-ing the presence check, which is how a `where:` list combines.
#[test]
fn presence_check_restores_strict_exclusion() {
    let schema = test_schema();
    let absent = make_item("t1", vec![]);
    let predicate = Predicate::And(vec![
        parse_where("status!=done").unwrap(),
        parse_where("status?").unwrap(),
    ]);
    assert!(!check(&absent, &predicate, &schema).unwrap());
}

#[test]
fn membership_matches_listed_values_only() {
    let schema = test_schema();
    let predicate = parse_where("status in open,in_progress").unwrap();
    for (value, expected) in [("open", true), ("in_progress", true), ("done", false)] {
        let item = make_item("t1", vec![("status", FieldValue::String(value.into()))]);
        assert_eq!(
            check(&item, &predicate, &schema).unwrap(),
            expected,
            "{value}"
        );
    }
}

#[test]
fn negated_membership_excludes_listed_values_only() {
    let schema = test_schema();
    let predicate = parse_where("status not in done,open").unwrap();
    for (value, expected) in [("open", false), ("done", false), ("in_progress", true)] {
        let item = make_item("t1", vec![("status", FieldValue::String(value.into()))]);
        assert_eq!(
            check(&item, &predicate, &schema).unwrap(),
            expected,
            "{value}"
        );
    }
}

/// On a collection field, `equal` means membership, so `in` asks whether
/// the collection holds any of the listed members.
#[test]
fn membership_on_a_collection_field() {
    let schema = test_schema();
    let item = make_item(
        "t1",
        vec![(
            "labels",
            FieldValue::Multichoice(vec!["backend".into(), "devops".into()]),
        )],
    );
    assert!(check(
        &item,
        &parse_where("labels in backend,frontend").unwrap(),
        &schema
    )
    .unwrap());
    assert!(!check(&item, &parse_where("labels in frontend").unwrap(), &schema).unwrap());
    assert!(!check(
        &item,
        &parse_where("labels not in devops,frontend").unwrap(),
        &schema
    )
    .unwrap());
}

#[test]
fn and_both_match() {
    let schema = test_schema();
    let item = make_item(
        "t1",
        vec![
            ("status", FieldValue::Choice("open".into())),
            ("points", FieldValue::Integer(5)),
        ],
    );
    let predicate = Predicate::And(vec![
        comparison("status", Operator::Equal, "open"),
        comparison("points", Operator::GreaterThan, "3"),
    ]);
    assert!(check(&item, &predicate, &schema).unwrap());
}

#[test]
fn and_one_fails() {
    let schema = test_schema();
    let item = make_item(
        "t1",
        vec![
            ("status", FieldValue::Choice("open".into())),
            ("points", FieldValue::Integer(2)),
        ],
    );
    let predicate = Predicate::And(vec![
        comparison("status", Operator::Equal, "open"),
        comparison("points", Operator::GreaterThan, "3"),
    ]);
    assert!(!check(&item, &predicate, &schema).unwrap());
}

#[test]
fn or_one_matches() {
    let schema = test_schema();
    let item = make_item("t1", vec![("status", FieldValue::Choice("open".into()))]);
    let predicate = Predicate::Or(vec![
        comparison("status", Operator::Equal, "open"),
        comparison("status", Operator::Equal, "done"),
    ]);
    assert!(check(&item, &predicate, &schema).unwrap());
}

#[test]
fn not_negates() {
    let schema = test_schema();
    let item = make_item("t1", vec![("status", FieldValue::Choice("open".into()))]);
    let predicate = Predicate::Not(Box::new(comparison("status", Operator::Equal, "done")));
    assert!(check(&item, &predicate, &schema).unwrap());
}

#[test]
fn duration_greater_than_match() {
    let schema = test_schema();
    // 5d > 1h
    let item = make_item("t1", vec![("estimate", FieldValue::Duration(432_000))]);
    let predicate = comparison("estimate", Operator::GreaterThan, "1h");
    assert!(check(&item, &predicate, &schema).unwrap());
}

#[test]
fn duration_greater_than_no_match() {
    let schema = test_schema();
    // 30min < 1h
    let item = make_item("t1", vec![("estimate", FieldValue::Duration(1_800))]);
    let predicate = comparison("estimate", Operator::GreaterThan, "1h");
    assert!(!check(&item, &predicate, &schema).unwrap());
}

#[test]
fn duration_compound_rhs_parses() {
    let schema = test_schema();
    // estimate = 1w 2d (= 9 days = 777_600s); compare > "1w 1d" (= 8 days)
    let item = make_item("t1", vec![("estimate", FieldValue::Duration(777_600))]);
    let predicate = comparison("estimate", Operator::GreaterThan, "1w 1d");
    assert!(check(&item, &predicate, &schema).unwrap());
}

#[test]
fn duration_negative_works() {
    let schema = test_schema();
    // -2d < 0s
    let item = make_item("t1", vec![("estimate", FieldValue::Duration(-172_800))]);
    let predicate = comparison("estimate", Operator::LessThan, "0s");
    assert!(check(&item, &predicate, &schema).unwrap());
}

#[test]
fn duration_invalid_rhs_returns_false() {
    let schema = test_schema();
    let item = make_item("t1", vec![("estimate", FieldValue::Duration(432_000))]);
    let predicate = comparison("estimate", Operator::GreaterThan, "garbage");
    assert!(!check(&item, &predicate, &schema).unwrap());
}

#[test]
fn date_greater_than() {
    let schema = test_schema();
    let item = make_item(
        "t1",
        vec![(
            "due_date",
            FieldValue::Date(Date::from_ymd(2026, 3, 15).unwrap()),
        )],
    );
    let predicate = comparison("due_date", Operator::GreaterThan, "2026-03-01");
    assert!(check(&item, &predicate, &schema).unwrap());
}

#[test]
fn link_equal() {
    let schema = test_schema();
    let item = make_item(
        "t1",
        vec![(
            "parent",
            FieldValue::Link(WorkItemId::from("epic-1".to_owned())),
        )],
    );
    let predicate = comparison("parent", Operator::Equal, "epic-1");
    assert!(check(&item, &predicate, &schema).unwrap());
}

#[test]
fn links_membership() {
    let schema = test_schema();
    let item = make_item(
        "t1",
        vec![(
            "depends_on",
            FieldValue::Links(vec![
                WorkItemId::from("task-a".to_owned()),
                WorkItemId::from("task-b".to_owned()),
            ]),
        )],
    );
    let predicate = comparison("depends_on", Operator::Equal, "task-a");
    assert!(check(&item, &predicate, &schema).unwrap());
}

/// The reported bug: `id=alpha` matched nothing at all.
#[test]
fn id_equality_matches() {
    let schema = test_schema();
    let item = make_item("alpha", vec![]);
    assert!(check(&item, &comparison("id", Operator::Equal, "alpha"), &schema).unwrap());
    assert!(!check(&item, &comparison("id", Operator::Equal, "beta"), &schema).unwrap());
}

/// The id is a string by construction, so the full string operator set
/// applies — and it is never absent, so `id?` always holds.
#[test]
fn id_supports_string_operators() {
    let schema = test_schema();
    let item = make_item("auth-login", vec![]);
    for (operator, value, expected) in [
        (Operator::NotEqual, "other", true),
        (Operator::Contains, "login", true),
        (Operator::Contains, "logout", false),
        (Operator::IsSet, "", true),
        (Operator::IsNotSet, "", false),
    ] {
        assert_eq!(
            check(&item, &comparison("id", operator, value), &schema).unwrap(),
            expected,
            "id {operator:?} {value}"
        );
    }
    for (pattern, expected) in [("^auth-", true), ("^billing-", false)] {
        assert_eq!(
            check(&item, &regex_comparison("id", pattern, ""), &schema).unwrap(),
            expected,
            "id Matches /{pattern}/"
        );
    }
}

#[test]
fn id_membership() {
    let schema = test_schema();
    let item = make_item("alpha", vec![]);
    assert!(check(&item, &parse_where("id in alpha,beta").unwrap(), &schema).unwrap());
    assert!(!check(&item, &parse_where("id in beta,gamma").unwrap(), &schema).unwrap());
}

#[test]
fn related_forward_link_match() {
    let schema = test_schema();
    let store = store_from_files(
        &schema,
        vec![
            ("epic.md", "---\nstatus: open\n---\n"),
            ("task-a.md", "---\nstatus: done\nparent: epic\n---\n"),
        ],
    );
    let item = store.get("task-a").unwrap();
    let predicate = related_comparison("parent", "status", Operator::Equal, "open");
    assert!(matches_predicate(item, &predicate, &schema, &store).unwrap());
}

#[test]
fn related_forward_link_no_match() {
    let schema = test_schema();
    let store = store_from_files(
        &schema,
        vec![
            ("epic.md", "---\nstatus: done\n---\n"),
            ("task-a.md", "---\nstatus: done\nparent: epic\n---\n"),
        ],
    );
    let item = store.get("task-a").unwrap();
    let predicate = related_comparison("parent", "status", Operator::Equal, "open");
    assert!(!matches_predicate(item, &predicate, &schema, &store).unwrap());
}

#[test]
fn related_forward_link_missing_target() {
    // task has parent: missing but target doesn't exist in store.
    let schema = test_schema();
    let store = store_from_files(
        &schema,
        vec![("task-a.md", "---\nstatus: done\nparent: missing\n---\n")],
    );
    let item = store.get("task-a").unwrap();
    let predicate = related_comparison("parent", "status", Operator::Equal, "open");
    assert!(!matches_predicate(item, &predicate, &schema, &store).unwrap());
}

#[test]
fn related_forward_link_unset_relation() {
    // Task with no parent at all.
    let schema = test_schema();
    let store =
        store_from_files(&schema, vec![("task-a.md", "---\nstatus: open\n---\n")]);
    let item = store.get("task-a").unwrap();
    let predicate = related_comparison("parent", "status", Operator::Equal, "open");
    assert!(!matches_predicate(item, &predicate, &schema, &store).unwrap());
}

#[test]
fn related_forward_links_any_matches() {
    // depends_on (links) — "any" semantics: true if any dep has open status.
    let schema = test_schema();
    let store = store_from_files(
        &schema,
        vec![
            ("dep-a.md", "---\nstatus: done\n---\n"),
            ("dep-b.md", "---\nstatus: open\n---\n"),
            (
                "task.md",
                "---\nstatus: open\ndepends_on: [dep-a, dep-b]\n---\n",
            ),
        ],
    );
    let item = store.get("task").unwrap();
    let predicate = related_comparison("depends_on", "status", Operator::Equal, "open");
    assert!(matches_predicate(item, &predicate, &schema, &store).unwrap());
}

#[test]
fn related_forward_links_none_match() {
    let schema = test_schema();
    let store = store_from_files(
        &schema,
        vec![
            ("dep-a.md", "---\nstatus: done\n---\n"),
            ("dep-b.md", "---\nstatus: done\n---\n"),
            (
                "task.md",
                "---\nstatus: open\ndepends_on: [dep-a, dep-b]\n---\n",
            ),
        ],
    );
    let item = store.get("task").unwrap();
    let predicate = related_comparison("depends_on", "status", Operator::Equal, "open");
    assert!(!matches_predicate(item, &predicate, &schema, &store).unwrap());
}

#[test]
fn related_inverse_match() {
    // children.status — inverse of parent.
    let schema = test_schema();
    let store = store_from_files(
        &schema,
        vec![
            ("epic.md", "---\nstatus: open\n---\n"),
            ("child-a.md", "---\nstatus: done\nparent: epic\n---\n"),
            ("child-b.md", "---\nstatus: open\nparent: epic\n---\n"),
        ],
    );
    let item = store.get("epic").unwrap();
    let predicate = related_comparison("children", "status", Operator::Equal, "open");
    assert!(matches_predicate(item, &predicate, &schema, &store).unwrap());
}

#[test]
fn related_inverse_no_children() {
    let schema = test_schema();
    let store =
        store_from_files(&schema, vec![("leaf.md", "---\nstatus: open\n---\n")]);
    let item = store.get("leaf").unwrap();
    let predicate = related_comparison("children", "status", Operator::Equal, "open");
    assert!(!matches_predicate(item, &predicate, &schema, &store).unwrap());
}

#[test]
fn related_is_set_on_related_field() {
    let schema = test_schema();
    let store = store_from_files(
        &schema,
        vec![
            ("epic.md", "---\nstatus: open\n---\n"),
            ("task-a.md", "---\nstatus: done\nparent: epic\n---\n"),
        ],
    );
    let item = store.get("task-a").unwrap();
    let predicate = related_comparison("parent", "status", Operator::IsSet, "");
    assert!(matches_predicate(item, &predicate, &schema, &store).unwrap());
}

#[test]
fn related_is_set_unset_relation() {
    // No parent link → is_set should be false.
    let schema = test_schema();
    let store =
        store_from_files(&schema, vec![("task-a.md", "---\nstatus: open\n---\n")]);
    let item = store.get("task-a").unwrap();
    let predicate = related_comparison("parent", "status", Operator::IsSet, "");
    assert!(!matches_predicate(item, &predicate, &schema, &store).unwrap());
}

#[test]
fn related_contains_on_traversal() {
    let schema = test_schema();
    let store = store_from_files(
        &schema,
        vec![
            ("epic.md", "---\ntitle: Fix login bug\nstatus: open\n---\n"),
            ("task-a.md", "---\nstatus: done\nparent: epic\n---\n"),
        ],
    );
    let item = store.get("task-a").unwrap();
    let predicate = related_comparison("parent", "title", Operator::Contains, "login");
    assert!(matches_predicate(item, &predicate, &schema, &store).unwrap());
}

/// A regex on a related field parses and evaluates like every other
/// operator on a related field — pinned end-to-end because a stale
/// parser comment used to claim the combination was rejected.
#[test]
fn related_regex_matches_target_value() {
    let schema = test_schema();
    let store = store_from_files(
        &schema,
        vec![
            ("epic.md", "---\ntitle: Fix login flow\nstatus: open\n---\n"),
            ("task-a.md", "---\nstatus: done\nparent: epic\n---\n"),
        ],
    );
    let item = store.get("task-a").unwrap();
    let matching = parse_where("parent.title/^Fix/").unwrap();
    assert!(matches_predicate(item, &matching, &schema, &store).unwrap());
    let case_insensitive = parse_where("parent.title/^fix/i").unwrap();
    assert!(matches_predicate(item, &case_insensitive, &schema, &store).unwrap());
    let not_matching = parse_where("parent.title/^Add/").unwrap();
    assert!(!matches_predicate(item, &not_matching, &schema, &store).unwrap());
}

/// A regex reaching a collection-valued target field tests each element.
#[test]
fn related_regex_on_collection_target() {
    let schema = test_schema();
    let store = store_from_files(
        &schema,
        vec![
            (
                "dep-a.md",
                "---\nstatus: open\ntags: [auth, backend]\n---\n",
            ),
            ("task.md", "---\nstatus: open\ndepends_on: [dep-a]\n---\n"),
        ],
    );
    let item = store.get("task").unwrap();
    let matching = parse_where("depends_on.tags/^back/").unwrap();
    assert!(matches_predicate(item, &matching, &schema, &store).unwrap());
    let not_matching = parse_where("depends_on.tags/^front/").unwrap();
    assert!(!matches_predicate(item, &not_matching, &schema, &store).unwrap());
}

#[test]
fn related_combined_with_and() {
    let schema = test_schema();
    let store = store_from_files(
        &schema,
        vec![
            ("epic.md", "---\nstatus: open\n---\n"),
            ("task-a.md", "---\nstatus: done\nparent: epic\n---\n"),
        ],
    );
    let item = store.get("task-a").unwrap();
    let predicate = Predicate::And(vec![
        comparison("status", Operator::Equal, "done"),
        related_comparison("parent", "status", Operator::Equal, "open"),
    ]);
    assert!(matches_predicate(item, &predicate, &schema, &store).unwrap());
}

#[test]
fn related_not_a_relation_errors() {
    // `title` is a string field — cannot traverse.
    let schema = test_schema();
    let store = store_from_files(
        &schema,
        vec![("task-a.md", "---\ntitle: A\nstatus: open\n---\n")],
    );
    let item = store.get("task-a").unwrap();
    let predicate = related_comparison("title", "whatever", Operator::Equal, "x");
    let result = matches_predicate(item, &predicate, &schema, &store);
    assert!(matches!(result, Err(QueryEvalError::NotARelation { .. })));
}

/// `parent.id` resolves through the projection on the *target* item, so
/// it works without the traversal knowing anything about ids. These run
/// against a loaded store, exercising the real coercion path.
#[test]
fn related_forward_link_on_id() {
    let schema = test_schema();
    let store = store_from_files(
        &schema,
        vec![
            ("epic.md", "---\nstatus: open\n---\n"),
            ("task-a.md", "---\nstatus: done\nparent: epic\n---\n"),
        ],
    );
    let item = store.get("task-a").unwrap();
    assert!(matches_predicate(
        item,
        &related_comparison("parent", "id", Operator::Equal, "epic"),
        &schema,
        &store
    )
    .unwrap());
    assert!(!matches_predicate(
        item,
        &related_comparison("parent", "id", Operator::Equal, "other"),
        &schema,
        &store
    )
    .unwrap());
}

/// The inverse direction, which had no way to be expressed before:
/// "items that have a child called `child-b`".
#[test]
fn related_inverse_on_id() {
    let schema = test_schema();
    let store = store_from_files(
        &schema,
        vec![
            ("epic.md", "---\nstatus: open\n---\n"),
            ("child-a.md", "---\nstatus: done\nparent: epic\n---\n"),
            ("child-b.md", "---\nstatus: open\nparent: epic\n---\n"),
        ],
    );
    let item = store.get("epic").unwrap();
    assert!(matches_predicate(
        item,
        &related_comparison("children", "id", Operator::Equal, "child-b"),
        &schema,
        &store
    )
    .unwrap());
    assert!(!matches_predicate(
        item,
        &related_comparison("children", "id", Operator::Equal, "child-z"),
        &schema,
        &store
    )
    .unwrap());
}

/// An item whose id comes from an explicit frontmatter key, rather than
/// its filename, is filterable on exactly that id — the parser resolves
/// both sources into the same place before the projection is built.
#[test]
fn id_from_frontmatter_key_is_filterable() {
    let schema = test_schema();
    let store = store_from_files(
        &schema,
        vec![("some-file.md", "---\nid: real-id\nstatus: open\n---\n")],
    );
    let item = store.get("real-id").unwrap();
    assert!(matches_predicate(
        item,
        &comparison("id", Operator::Equal, "real-id"),
        &schema,
        &store
    )
    .unwrap());
    assert!(!matches_predicate(
        item,
        &comparison("id", Operator::Equal, "some-file"),
        &schema,
        &store
    )
    .unwrap());
}

#[test]
fn related_unknown_relation_errors() {
    let schema = test_schema();
    let store =
        store_from_files(&schema, vec![("task-a.md", "---\nstatus: open\n---\n")]);
    let item = store.get("task-a").unwrap();
    let predicate = related_comparison("nonexistent", "status", Operator::Equal, "x");
    let result = matches_predicate(item, &predicate, &schema, &store);
    assert!(matches!(
        result,
        Err(QueryEvalError::UnknownRelation { .. })
    ));
}

#[test]
fn membership_comparison_on_absent_field() {
    let schema = test_schema();
    let item = make_item("task-a", vec![]);
    assert!(matches!(check(&item, &comparison("status", Operator::NotIn, "done"), &schema), Ok(true)));
    assert!(matches!(check(&item, &comparison("status", Operator::In, "done"), &schema), Ok(false)));
}
