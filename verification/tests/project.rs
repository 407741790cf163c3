use workdown_core::diagnostic::{DiagnosticBody, FileDiagnosticKind};
use workdown_core::model::Severity;
use workdown_core::project::LoadError;

#[test]
fn load_error_becomes_a_read_error_on_its_path() {
    let error = LoadError::Items {
        path: "project/items".to_owned(),
        detail: "permission denied".to_owned(),
    };
    let diagnostic = error.to_diagnostic();
    assert_eq!(diagnostic.severity, Severity::Error);
    match diagnostic.body {
        DiagnosticBody::File(file) => {
            assert_eq!(file.path, "project/items");
            match file.kind {
                FileDiagnosticKind::ReadError { detail } => assert_eq!(detail, "permission denied"),
            }
        }
        other => panic!("expected a file diagnostic, got {other:?}"),
    }
}

#[test]
fn load_error_text_names_what_failed() {
    let schema = LoadError::Schema {
        path: "schema.yaml".to_owned(),
        detail: "bad".to_owned(),
    };
    assert_eq!(schema.to_text(), "failed to load schema from schema.yaml: bad");
    let items = LoadError::Items {
        path: "items".to_owned(),
        detail: "gone".to_owned(),
    };
    assert_eq!(items.to_text(), "failed to read items directory items: gone");
}
