//! A loaded project and the failures that keep one from loading.
//!
//! Only a schema or an items directory that cannot be read is a hard
//! failure; everything else rides along as diagnostics inside the project.

use vstd::prelude::*;

use crate::diagnostic::{Diagnostic, DiagnosticBody, FileDiagnostic, FileDiagnosticKind};
use crate::model::Severity;
use crate::resources::Resources;
use crate::schema::Schema;
use crate::store::{read_error_view, Store};
use crate::text::concat;
use crate::views::Views;

verus! {

/// A fully loaded project. `views` is `None` when the project has no
/// usable `views.yaml`; `resources` is empty when it has no
/// `resources.yaml` or the file failed to load (a diagnostic says why).
pub struct Project {
    pub store: Store,
    pub schema: Schema,
    pub views: Option<Views>,
    pub resources: Resources,
    /// Every finding collected while loading.
    pub diagnostics: Vec<Diagnostic>,
}

/// Failures that prevent a project from loading.
#[derive(Debug, Clone)]
pub enum LoadError {
    /// The schema could not be read or is invalid.
    Schema { path: String, detail: String },
    /// The items directory could not be read.
    Items { path: String, detail: String },
}

/// The display text of a load failure.
pub open spec fn load_error_text(error: LoadError) -> Seq<char> {
    match error {
        LoadError::Schema { path, detail } => "failed to load schema from "@ + path@ + ": "@ + detail@,
        LoadError::Items { path, detail } => "failed to read items directory "@ + path@ + ": "@ + detail@,
    }
}

impl LoadError {
    /// The failure as a file-scoped read error pinned to the path that
    /// failed, so a front end can report it like any other finding.
    pub fn to_diagnostic(&self) -> (r: Diagnostic)
        ensures
            r@ == (match self {
                LoadError::Schema { path, detail } => read_error_view(path@, detail@),
                LoadError::Items { path, detail } => read_error_view(path@, detail@),
            }),
    {
        let (path, detail) = match self {
            LoadError::Schema { path, detail } => (path.clone(), detail.clone()),
            LoadError::Items { path, detail } => (path.clone(), detail.clone()),
        };
        Diagnostic {
            severity: Severity::Error,
            body: DiagnosticBody::File(FileDiagnostic { path, kind: FileDiagnosticKind::ReadError { detail } }),
        }
    }

    /// The failure's display text.
    pub fn to_text(&self) -> (r: String)
        ensures
            r@ == load_error_text(*self),
    {
        let (lead, path, detail) = match self {
            LoadError::Schema { path, detail } => ("failed to load schema from ", path, detail),
            LoadError::Items { path, detail } => ("failed to read items directory ", path, detail),
        };
        let head = concat(lead, path.as_str());
        let head = concat(head.as_str(), ": ");
        let r = concat(head.as_str(), detail.as_str());
        assert(r@ =~= load_error_text(*self));
        r
    }
}

} // verus!
