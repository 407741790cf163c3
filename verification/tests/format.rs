use workdown_core::model::{FieldMap, FieldValue, WorkItem, WorkItemId};
use workdown_core::query::format::{
    format_field_value, render_delimited, render_json, DelimitedError, DelimitedOptions,
};
use workdown_core::query::types::{QueryResult, QueryRow};

fn make_item(id: &str, fields: Vec<(&str, FieldValue)>) -> WorkItem {
    let mut map = FieldMap::new();
    for (name, value) in fields {
        map.insert(name.to_owned(), value);
    }
    WorkItem {
        id: WorkItemId::from(id.to_owned()),
        fields: map,
        body: String::new(),
        source_path: format!("{id}.md"),
    }
}

fn tsv_options() -> DelimitedOptions {
    DelimitedOptions {
        delimiter: b'\t',
        header: true,
        list_separator: ';',
    }
}

#[test]
fn format_string_value() {
    assert_eq!(
        format_field_value(&FieldValue::String("hello".into())),
        "hello"
    );
}

#[test]
fn format_integer_value() {
    assert_eq!(format_field_value(&FieldValue::Integer(42)), "42");
}

#[test]
fn format_list_value() {
    assert_eq!(
        format_field_value(&FieldValue::List(vec!["a".into(), "b".into()])),
        "a, b"
    );
}

#[test]
fn format_links_value() {
    assert_eq!(
        format_field_value(&FieldValue::Links(vec![
            WorkItemId::from("x".to_owned()),
            WorkItemId::from("y".to_owned()),
        ])),
        "x, y"
    );
}

#[test]
fn render_json_produces_valid_json() {
    let result = QueryResult {
        columns: vec!["id".into(), "title".into()],
        items: vec![
            QueryRow {
                id: "task-a".into(),
                values: vec!["task-a".into(), "Fix Login".into()],
            },
            QueryRow {
                id: "task-b".into(),
                values: vec!["task-b".into(), "Add Dashboard".into()],
            },
        ],
    };

    let json = render_json(&result);
    let parsed: serde_json::Value = serde_json::from_str(&json).unwrap();
    assert!(parsed.is_array());
    assert_eq!(parsed.as_array().unwrap().len(), 2);
    assert_eq!(parsed[0]["id"], "task-a");
    assert_eq!(parsed[0]["title"], "Fix Login");
}

#[test]
fn render_json_empty_result() {
    let result = QueryResult {
        columns: vec!["id".into()],
        items: vec![],
    };
    let json = render_json(&result);
    let parsed: serde_json::Value = serde_json::from_str(&json).unwrap();
    assert_eq!(parsed.as_array().unwrap().len(), 0);
}

#[test]
fn delimited_renders_header_and_basic_row() {
    let item = make_item(
        "task-a",
        vec![
            ("title", FieldValue::String("Hello".into())),
            ("points", FieldValue::Integer(3)),
        ],
    );
    let columns = vec!["id".to_owned(), "title".to_owned(), "points".to_owned()];
    let output = render_delimited(&[&item], &columns, &tsv_options()).unwrap();
    assert_eq!(output, "id\ttitle\tpoints\ntask-a\tHello\t3\n");
}

#[test]
fn delimited_omits_header_when_disabled() {
    let item = make_item("task-a", vec![("title", FieldValue::String("Hi".into()))]);
    let columns = vec!["id".to_owned(), "title".to_owned()];
    let options = DelimitedOptions {
        header: false,
        ..tsv_options()
    };
    let output = render_delimited(&[&item], &columns, &options).unwrap();
    assert_eq!(output, "task-a\tHi\n");
}

#[test]
fn delimited_joins_lists_with_list_separator() {
    let item = make_item(
        "task-a",
        vec![(
            "tags",
            FieldValue::List(vec!["auth".into(), "backend".into()]),
        )],
    );
    let columns = vec!["id".to_owned(), "tags".to_owned()];
    let output = render_delimited(&[&item], &columns, &tsv_options()).unwrap();
    assert_eq!(output, "id\ttags\ntask-a\tauth;backend\n");
}

#[test]
fn delimited_missing_field_is_empty_cell() {
    let item = make_item("task-a", vec![]);
    let columns = vec!["id".to_owned(), "title".to_owned()];
    let output = render_delimited(&[&item], &columns, &tsv_options()).unwrap();
    assert_eq!(output, "id\ttitle\ntask-a\t\n");
}

#[test]
fn delimited_csv_quotes_cells_containing_delimiter() {
    // CSV mode: title "Hello, world" must be quoted so the comma is not
    // read as a column break.
    let item = make_item(
        "task-a",
        vec![("title", FieldValue::String("Hello, world".into()))],
    );
    let columns = vec!["id".to_owned(), "title".to_owned()];
    let options = DelimitedOptions {
        delimiter: b',',
        header: true,
        list_separator: ';',
    };
    let output = render_delimited(&[&item], &columns, &options).unwrap();
    assert_eq!(output, "id,title\ntask-a,\"Hello, world\"\n");
}

#[test]
fn delimited_errors_on_embedded_separator_in_list_element() {
    let item = make_item(
        "task-a",
        vec![(
            "tags",
            FieldValue::List(vec!["auth;sensitive".into(), "backend".into()]),
        )],
    );
    let columns = vec!["id".to_owned(), "tags".to_owned()];
    let result = render_delimited(&[&item], &columns, &tsv_options());
    match result {
        Err(DelimitedError::EmbeddedSeparator {
            item_id,
            field,
            separator,
        }) => {
            assert_eq!(item_id, "task-a");
            assert_eq!(field, "tags");
            assert_eq!(separator, ';');
        }
        other => panic!("expected EmbeddedSeparator, got {other:?}"),
    }
}

#[test]
fn delimited_errors_on_delimiter_list_separator_collision() {
    let item = make_item("task-a", vec![]);
    let columns = vec!["id".to_owned()];
    let options = DelimitedOptions {
        delimiter: b';',
        header: true,
        list_separator: ';',
    };
    let result = render_delimited(&[&item], &columns, &options);
    assert!(matches!(
        result,
        Err(DelimitedError::DelimiterConflict { .. })
    ));
}

#[test]
fn delimited_error_texts() {
    let embedded = DelimitedError::EmbeddedSeparator {
        item_id: "task-a".to_owned(),
        field: "tags".to_owned(),
        separator: ';',
    };
    assert_eq!(
        embedded.to_text(),
        "item 'task-a' field 'tags' contains list separator ';' in a value; pick a different --delimiter or remove the character"
    );
    let conflict = DelimitedError::DelimiterConflict {
        delimiter: ',',
        list_separator: ',',
    };
    assert_eq!(
        conflict.to_text(),
        "column delimiter ',' matches the list-cell separator ','; pick a different --delimiter"
    );
    assert_eq!(
        DelimitedError::Io("disk full".to_owned()).to_text(),
        "failed writing delimited output: disk full"
    );
}
