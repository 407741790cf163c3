//! The project's identity as the browser sees it: the name and the
//! description from the `project:` block of `config.yaml`.

use vstd::prelude::*;

use crate::text::{chars_of, string_of, trim, trim_chars};

verus! {

/// The `project:` block of `config.yaml`.
#[derive(Debug, Clone)]
pub struct ProjectMeta {
    pub name: String,
    pub description: String,
}

/// Who the project is: its name, and its description unless that is blank.
#[derive(Debug, Clone)]
pub struct ProjectIdentity {
    pub name: String,
    pub description: Option<String>,
}

/// Project the config's `project:` block onto the identity: the name as
/// written, the description trimmed, and none when nothing is left.
pub fn build(project: &ProjectMeta) -> (r: ProjectIdentity)
    ensures
        r.name@ == project.name@,
        match r.description {
            Some(text) => text@ == trim(project.description@) && text@.len() > 0,
            None => trim(project.description@).len() == 0,
        },
{
    let chars = chars_of(project.description.as_str());
    let trimmed = trim_chars(chars.as_slice());
    let description = if trimmed.len() == 0 {
        None
    } else {
        Some(string_of(trimmed.as_slice()))
    };
    ProjectIdentity { name: project.name.clone(), description }
}

} // verus!
