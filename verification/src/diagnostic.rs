//! Diagnostics: the problems loading a project turns up, attached to one
//! file, to several files, or to one work item.

use vstd::prelude::*;

use crate::model::{texts_of, FieldType, Severity, WorkItemId};

verus! {

/// A problem with one file as a whole.
#[derive(Debug, Clone)]
pub enum FileDiagnosticKind {
    /// The file could not be read or parsed as a work item.
    ReadError { detail: String },
}

/// A problem that spans several files.
#[derive(Debug, Clone)]
pub enum FilesDiagnosticKind {
    /// Two files claim the same work item id.
    DuplicateId { id: WorkItemId },
}

/// Why a frontmatter value does not fit its field.
#[derive(Debug, Clone)]
pub enum FieldValueError {
    /// The value is of another kind than the field's type takes.
    TypeMismatch { expected: FieldType, got: String },
    /// The field's pattern is not a valid regular expression.
    InvalidPattern { pattern: String, error: String },
    /// The text does not match the field's pattern.
    PatternMismatch { value: String, pattern: String },
    /// The text is not one of the field's values.
    InvalidChoice { value: String, allowed: Vec<String> },
    /// These members are not among the field's values.
    InvalidMultichoice { values: Vec<String>, allowed: Vec<String> },
    /// The number lies outside the field's bounds.
    OutOfRange { value: String, min: Option<String>, max: Option<String> },
    /// The text is not a duration in suffix shorthand.
    InvalidDuration { value: String },
    /// The duration lies outside the field's bounds.
    OutOfRangeDuration { value: String, min: Option<String>, max: Option<String> },
    /// The text is not a `YYYY-MM-DD` date.
    InvalidDate { value: String },
}

pub enum FieldValueErrorView {
    TypeMismatch { expected: FieldType, got: Seq<char> },
    InvalidPattern { pattern: Seq<char>, error: Seq<char> },
    PatternMismatch { value: Seq<char>, pattern: Seq<char> },
    InvalidChoice { value: Seq<char>, allowed: Seq<Seq<char>> },
    InvalidMultichoice { values: Seq<Seq<char>>, allowed: Seq<Seq<char>> },
    OutOfRange { value: Seq<char>, min: Option<Seq<char>>, max: Option<Seq<char>> },
    InvalidDuration { value: Seq<char> },
    OutOfRangeDuration { value: Seq<char>, min: Option<Seq<char>>, max: Option<Seq<char>> },
    InvalidDate { value: Seq<char> },
}

pub open spec fn optional_text(text: Option<String>) -> Option<Seq<char>> {
    match text {
        Some(t) => Some(t@),
        None => None,
    }
}

impl View for FieldValueError {
    type V = FieldValueErrorView;

    open spec fn view(&self) -> FieldValueErrorView {
        match self {
            FieldValueError::TypeMismatch { expected, got } => FieldValueErrorView::TypeMismatch {
                expected: *expected,
                got: got@,
            },
            FieldValueError::InvalidPattern { pattern, error } => FieldValueErrorView::InvalidPattern {
                pattern: pattern@,
                error: error@,
            },
            FieldValueError::PatternMismatch { value, pattern } => FieldValueErrorView::PatternMismatch {
                value: value@,
                pattern: pattern@,
            },
            FieldValueError::InvalidChoice { value, allowed } => FieldValueErrorView::InvalidChoice {
                value: value@,
                allowed: texts_of(allowed@),
            },
            FieldValueError::InvalidMultichoice { values, allowed } => FieldValueErrorView::InvalidMultichoice {
                values: texts_of(values@),
                allowed: texts_of(allowed@),
            },
            FieldValueError::OutOfRange { value, min, max } => FieldValueErrorView::OutOfRange {
                value: value@,
                min: optional_text(*min),
                max: optional_text(*max),
            },
            FieldValueError::InvalidDuration { value } => FieldValueErrorView::InvalidDuration {
                value: value@,
            },
            FieldValueError::OutOfRangeDuration { value, min, max } =>
                FieldValueErrorView::OutOfRangeDuration {
                value: value@,
                min: optional_text(*min),
                max: optional_text(*max),
            },
            FieldValueError::InvalidDate { value } => FieldValueErrorView::InvalidDate { value: value@ },
        }
    }
}

/// A problem with one field of one work item.
#[derive(Debug, Clone)]
pub enum ItemDiagnosticKind {
    /// A link field names an item the project does not have.
    BrokenLink { field: String, target_id: WorkItemId },
    /// A required field has no value.
    MissingRequired { field: String },
    /// The frontmatter sets a field the schema does not define.
    UnknownField { field: String },
    /// A written value does not fit the field's type or constraints.
    InvalidFieldValue { field: String, detail: FieldValueError },
    /// The item sets an aggregate field by hand, and so does an ancestor
    /// its value would roll up into.
    AggregateChainConflict { field: String, conflicting_ancestor_id: WorkItemId },
    /// A leaf of the roll-up tree that no hand-written value covers, itself
    /// or through an ancestor.
    AggregateMissingValue { field: String },
    /// A resource-backed value names no entry of its section.
    UnknownResourceRef { field: String, section: String, value: String },
    /// A dependency loop among derived fields that no single link field
    /// explains: the `item.field` nodes around it, the first repeated last.
    DeriveCycle { chain: Vec<String> },
    /// A pull that asked to be told found link targets lacking its source
    /// field, as `target.field`.
    PullMissingInputs { field: String, missing_inputs: Vec<String> },
    /// A required computed field is blank because its inputs are absent.
    ComputeMissingInputs { field: String, missing_inputs: Vec<String> },
    /// A required conditional field is blank because no branch matched;
    /// the inputs its conditions lack.
    WhenUnmatched { field: String, missing_inputs: Vec<String> },
}

/// A problem with a configuration file of the project.
#[derive(Debug, Clone)]
pub enum ConfigDiagnosticKind {
    /// A field's default is a generator, which can never name a resource.
    ResourceDefaultGenerator { field: String, section: String, generator: String },
    /// A field's literal default is not an entry of its resource section.
    ResourceDefaultUnknown { field: String, section: String, value: String },
    /// A field names a resource section `resources.yaml` does not declare.
    ResourceSectionUnknown { field: String, section: String },
    /// A field names a resource section with no entries yet.
    ResourceSectionEmpty { field: String, section: String },
}

#[derive(Debug, Clone)]
pub struct ConfigDiagnostic {
    pub path: String,
    pub kind: ConfigDiagnosticKind,
}

#[derive(Debug, Clone)]
pub struct FileDiagnostic {
    pub path: String,
    pub kind: FileDiagnosticKind,
}

#[derive(Debug, Clone)]
pub struct FilesDiagnostic {
    pub paths: Vec<String>,
    pub kind: FilesDiagnosticKind,
}

#[derive(Debug, Clone)]
pub struct ItemDiagnostic {
    pub path: String,
    pub item_id: WorkItemId,
    pub kind: ItemDiagnosticKind,
}

/// What a diagnostic is about.
#[derive(Debug, Clone)]
pub enum DiagnosticBody {
    Config(ConfigDiagnostic),
    File(FileDiagnostic),
    Files(FilesDiagnostic),
    Item(ItemDiagnostic),
}

/// One finding, with its severity.
#[derive(Debug, Clone)]
pub struct Diagnostic {
    pub severity: Severity,
    pub body: DiagnosticBody,
}

// ── Views ───────────────────────────────────────────────────────────

pub enum ItemKindView {
    BrokenLink { field: Seq<char>, target_id: Seq<char> },
    MissingRequired { field: Seq<char> },
    UnknownField { field: Seq<char> },
    InvalidFieldValue { field: Seq<char>, detail: FieldValueErrorView },
    AggregateChainConflict { field: Seq<char>, conflicting_ancestor_id: Seq<char> },
    AggregateMissingValue { field: Seq<char> },
    UnknownResourceRef { field: Seq<char>, section: Seq<char>, value: Seq<char> },
    DeriveCycle { chain: Seq<Seq<char>> },
    PullMissingInputs { field: Seq<char>, missing_inputs: Seq<Seq<char>> },
    ComputeMissingInputs { field: Seq<char>, missing_inputs: Seq<Seq<char>> },
    WhenUnmatched { field: Seq<char>, missing_inputs: Seq<Seq<char>> },
}

pub enum ConfigKindView {
    ResourceDefaultGenerator { field: Seq<char>, section: Seq<char>, generator: Seq<char> },
    ResourceDefaultUnknown { field: Seq<char>, section: Seq<char>, value: Seq<char> },
    ResourceSectionUnknown { field: Seq<char>, section: Seq<char> },
    ResourceSectionEmpty { field: Seq<char>, section: Seq<char> },
}

pub enum DiagnosticBodyView {
    Config { path: Seq<char>, kind: ConfigKindView },
    ReadError { path: Seq<char>, detail: Seq<char> },
    DuplicateId { paths: Seq<Seq<char>>, id: Seq<char> },
    Item { path: Seq<char>, item_id: Seq<char>, kind: ItemKindView },
}

pub struct DiagnosticView {
    pub severity: Severity,
    pub body: DiagnosticBodyView,
}

impl View for ItemDiagnosticKind {
    type V = ItemKindView;

    open spec fn view(&self) -> ItemKindView {
        match self {
            ItemDiagnosticKind::BrokenLink { field, target_id } => ItemKindView::BrokenLink {
                field: field@,
                target_id: target_id@,
            },
            ItemDiagnosticKind::MissingRequired { field } => ItemKindView::MissingRequired {
                field: field@,
            },
            ItemDiagnosticKind::UnknownField { field } => ItemKindView::UnknownField {
                field: field@,
            },
            ItemDiagnosticKind::InvalidFieldValue { field, detail } => ItemKindView::InvalidFieldValue {
                field: field@,
                detail: detail@,
            },
            ItemDiagnosticKind::AggregateChainConflict { field, conflicting_ancestor_id } =>
                ItemKindView::AggregateChainConflict {
                field: field@,
                conflicting_ancestor_id: conflicting_ancestor_id@,
            },
            ItemDiagnosticKind::AggregateMissingValue { field } => ItemKindView::AggregateMissingValue {
                field: field@,
            },
            ItemDiagnosticKind::UnknownResourceRef { field, section, value } =>
                ItemKindView::UnknownResourceRef { field: field@, section: section@, value: value@ },
            ItemDiagnosticKind::DeriveCycle { chain } => ItemKindView::DeriveCycle { chain: texts_of(chain@) },
            ItemDiagnosticKind::PullMissingInputs { field, missing_inputs } => ItemKindView::PullMissingInputs {
                field: field@,
                missing_inputs: texts_of(missing_inputs@),
            },
            ItemDiagnosticKind::ComputeMissingInputs { field, missing_inputs } =>
                ItemKindView::ComputeMissingInputs { field: field@, missing_inputs: texts_of(missing_inputs@) },
            ItemDiagnosticKind::WhenUnmatched { field, missing_inputs } => ItemKindView::WhenUnmatched {
                field: field@,
                missing_inputs: texts_of(missing_inputs@),
            },
        }
    }
}

impl View for ConfigDiagnosticKind {
    type V = ConfigKindView;

    open spec fn view(&self) -> ConfigKindView {
        match self {
            ConfigDiagnosticKind::ResourceDefaultGenerator { field, section, generator } =>
                ConfigKindView::ResourceDefaultGenerator {
                field: field@,
                section: section@,
                generator: generator@,
            },
            ConfigDiagnosticKind::ResourceDefaultUnknown { field, section, value } =>
                ConfigKindView::ResourceDefaultUnknown {
                field: field@,
                section: section@,
                value: value@,
            },
            ConfigDiagnosticKind::ResourceSectionUnknown { field, section } =>
                ConfigKindView::ResourceSectionUnknown { field: field@, section: section@ },
            ConfigDiagnosticKind::ResourceSectionEmpty { field, section } =>
                ConfigKindView::ResourceSectionEmpty { field: field@, section: section@ },
        }
    }
}

impl View for Diagnostic {
    type V = DiagnosticView;

    open spec fn view(&self) -> DiagnosticView {
        DiagnosticView {
            severity: self.severity,
            body: match self.body {
                DiagnosticBody::Config(config) => DiagnosticBodyView::Config {
                    path: config.path@,
                    kind: config.kind@,
                },
                DiagnosticBody::File(file) => match file.kind {
                    FileDiagnosticKind::ReadError { detail } => DiagnosticBodyView::ReadError {
                        path: file.path@,
                        detail: detail@,
                    },
                },
                DiagnosticBody::Files(files) => match files.kind {
                    FilesDiagnosticKind::DuplicateId { id } => DiagnosticBodyView::DuplicateId {
                        paths: files.paths@.map_values(|path: String| path@),
                        id: id@,
                    },
                },
                DiagnosticBody::Item(item) => DiagnosticBodyView::Item {
                    path: item.path@,
                    item_id: item.item_id@,
                    kind: item.kind@,
                },
            },
        }
    }
}

pub open spec fn diagnostic_views(diagnostics: Seq<Diagnostic>) -> Seq<DiagnosticView> {
    diagnostics.map_values(|d: Diagnostic| d@)
}

/// A finding about one work item.
pub fn item_diagnostic(
    severity: Severity,
    path: String,
    item_id: WorkItemId,
    kind: ItemDiagnosticKind,
) -> (r: Diagnostic)
    ensures
        r@ == (DiagnosticView {
            severity,
            body: DiagnosticBodyView::Item { path: path@, item_id: item_id@, kind: kind@ },
        }),
{
    Diagnostic { severity, body: DiagnosticBody::Item(ItemDiagnostic { path, item_id, kind }) }
}

} // verus!
