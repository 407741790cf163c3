//! Resources (`resources.yaml`): named sections of entries that fields can
//! draw their values from, and the check of the schema's `resource:` links
//! against them.

use vstd::prelude::*;

use crate::diagnostic::{
    diagnostic_views, ConfigDiagnostic, ConfigDiagnosticKind, ConfigKindView, Diagnostic,
    DiagnosticBody, DiagnosticBodyView, DiagnosticView,
};
use crate::model::{FieldValue, Severity};
use crate::schema::{generator_text, DefaultValue, NamedField, Schema};
use crate::text::str_eq;

verus! {

/// One entry of a resource section.
#[derive(Debug, Clone)]
pub struct ResourceEntry {
    pub id: String,
    pub name: Option<String>,
}

/// A named section of entries.
#[derive(Debug, Clone)]
pub struct ResourceSection {
    pub name: String,
    pub entries: Vec<ResourceEntry>,
}

/// The loaded `resources.yaml`: its sections and its named constants in
/// file order, and whether a document was loaded at all.
#[derive(Debug, Clone)]
pub struct Resources {
    pub sections: Vec<ResourceSection>,
    pub constants: Vec<(String, FieldValue)>,
    pub document_loaded: bool,
}

/// The position of the first section named `name`.
pub open spec fn section_index(sections: Seq<ResourceSection>, name: Seq<char>) -> Option<int>
    decreases sections.len(),
{
    if sections.len() == 0 {
        None
    } else {
        match section_index(sections.drop_last(), name) {
            Some(i) => Some(i),
            None => if sections.last().name@ == name {
                Some(sections.len() - 1)
            } else {
                None
            },
        }
    }
}

proof fn lemma_section_index(sections: Seq<ResourceSection>, name: Seq<char>)
    ensures
        section_index(sections, name) matches Some(i) ==> 0 <= i < sections.len()
            && sections[i].name@ == name && forall|k: int| 0 <= k < i ==> sections[k].name@ != name,
        section_index(sections, name) is None ==> forall|k: int|
            0 <= k < sections.len() ==> sections[k].name@ != name,
    decreases sections.len(),
{
    if sections.len() > 0 {
        let init = sections.drop_last();
        lemma_section_index(init, name);
        assert forall|k: int| 0 <= k < init.len() implies init[k] == sections[k] by {}
    }
}

impl ResourceEntry {
    /// The text an entry is shown by: its name, or its id when it has none.
    pub fn label(&self) -> (r: &str)
        ensures
            r@ == match self.name {
                Some(name) => name@,
                None => self.id@,
            },
    {
        match &self.name {
            Some(name) => name.as_str(),
            None => self.id.as_str(),
        }
    }
}

/// The position of the first constant named `name`.
pub open spec fn constant_index(constants: Seq<(String, FieldValue)>, name: Seq<char>) -> Option<int>
    decreases constants.len(),
{
    if constants.len() == 0 {
        None
    } else {
        match constant_index(constants.drop_last(), name) {
            Some(i) => Some(i),
            None => if constants.last().0@ == name {
                Some(constants.len() - 1)
            } else {
                None
            },
        }
    }
}

proof fn lemma_constant_index(constants: Seq<(String, FieldValue)>, name: Seq<char>)
    ensures
        constant_index(constants, name) matches Some(i) ==> 0 <= i < constants.len()
            && constants[i].0@ == name && forall|k: int| 0 <= k < i ==> constants[k].0@ != name,
        constant_index(constants, name) is None ==> forall|k: int|
            0 <= k < constants.len() ==> constants[k].0@ != name,
    decreases constants.len(),
{
    if constants.len() > 0 {
        let init = constants.drop_last();
        lemma_constant_index(init, name);
        assert forall|k: int| 0 <= k < init.len() implies init[k] == constants[k] by {}
    }
}

impl Resources {
    /// Whether nothing is declared: no section and no constant.
    pub fn is_empty(&self) -> (r: bool)
        ensures
            r == (self.sections@.len() == 0 && self.constants@.len() == 0),
    {
        self.sections.len() == 0 && self.constants.len() == 0
    }

    /// The value of the constant named `name`.
    pub fn constant(&self, name: &str) -> (r: Option<&FieldValue>)
        ensures
            match r {
                Some(value) => constant_index(self.constants@, name@) matches Some(i) && *value
                    == self.constants@[i].1,
                None => constant_index(self.constants@, name@) is None,
            },
    {
        proof {
            lemma_constant_index(self.constants@, name@);
        }
        let mut i: usize = 0;
        while i < self.constants.len()
            invariant
                i <= self.constants@.len(),
                forall|k: int| 0 <= k < i ==> self.constants@[k].0@ != name@,
            decreases self.constants@.len() - i,
        {
            if str_eq(self.constants[i].0.as_str(), name) {
                proof {
                    lemma_constant_index(self.constants@, name@);
                    if let Some(j) = constant_index(self.constants@, name@) {
                        assert(j == i);
                    }
                }
                return Some(&self.constants[i].1);
            }
            i = i + 1;
        }
        None
    }

    /// The entries of the section named `name`.
    pub fn section(&self, name: &str) -> (r: Option<&Vec<ResourceEntry>>)
        ensures
            match r {
                Some(entries) => section_index(self.sections@, name@) matches Some(i) && *entries
                    == self.sections@[i].entries,
                None => section_index(self.sections@, name@) is None,
            },
    {
        proof {
            lemma_section_index(self.sections@, name@);
        }
        let mut i: usize = 0;
        while i < self.sections.len()
            invariant
                i <= self.sections@.len(),
                forall|k: int| 0 <= k < i ==> self.sections@[k].name@ != name@,
            decreases self.sections@.len() - i,
        {
            if str_eq(self.sections[i].name.as_str(), name) {
                proof {
                    lemma_section_index(self.sections@, name@);
                    if let Some(j) = section_index(self.sections@, name@) {
                        assert(j == i);
                    }
                }
                return Some(&self.sections[i].entries);
            }
            i = i + 1;
        }
        None
    }
}

/// What a field's `resource:` resolves to.
pub enum OptionSetView {
    /// The section exists and declares at least one entry: these ids.
    Usable(Seq<Seq<char>>),
    /// A document was loaded but declares no such section.
    SectionUnknown,
    /// The section is empty, or no document was loaded.
    SectionEmpty,
}

pub open spec fn option_set(section: Seq<char>, resources: Resources) -> OptionSetView {
    match section_index(resources.sections@, section) {
        Some(i) => {
            let entries = resources.sections@[i].entries@;
            if entries.len() > 0 {
                OptionSetView::Usable(entries.map_values(|entry: ResourceEntry| entry.id@))
            } else {
                OptionSetView::SectionEmpty
            }
        },
        None => if resources.document_loaded {
            OptionSetView::SectionUnknown
        } else {
            OptionSetView::SectionEmpty
        },
    }
}

pub open spec fn config_view(path: Seq<char>, severity: Severity, kind: ConfigKindView) -> DiagnosticView {
    DiagnosticView { severity, body: DiagnosticBodyView::Config { path, kind } }
}

/// The findings about one field: a generator default, then the state of
/// its section (or a literal default the section does not hold).
pub open spec fn field_findings(field: NamedField, resources: Resources, path: Seq<char>) -> Seq<DiagnosticView> {
    match field.definition.resource {
        None => Seq::empty(),
        Some(section) => {
            let name = field.name@;
            let section = section@;
            (match field.definition.default {
                Some(DefaultValue::Generator(generator)) => seq![
                    config_view(
                        path,
                        Severity::Error,
                        ConfigKindView::ResourceDefaultGenerator {
                            field: name,
                            section,
                            generator: generator_text(generator),
                        },
                    ),
                ],
                _ => Seq::empty(),
            }) + match option_set(section, resources) {
                OptionSetView::Usable(ids) => match field.definition.default {
                    Some(DefaultValue::String(value)) => if ids.contains(value@) {
                        Seq::empty()
                    } else {
                        seq![
                            config_view(
                                path,
                                Severity::Error,
                                ConfigKindView::ResourceDefaultUnknown { field: name, section, value: value@ },
                            ),
                        ]
                    },
                    _ => Seq::empty(),
                },
                OptionSetView::SectionUnknown => seq![
                    config_view(path, Severity::Error, ConfigKindView::ResourceSectionUnknown { field: name, section }),
                ],
                OptionSetView::SectionEmpty => seq![
                    config_view(path, Severity::Warning, ConfigKindView::ResourceSectionEmpty { field: name, section }),
                ],
            }
        },
    }
}

/// The findings of the first `n` fields.
pub open spec fn findings(fields: Seq<NamedField>, resources: Resources, path: Seq<char>, n: int) -> Seq<DiagnosticView>
    decreases n,
{
    if n <= 0 {
        Seq::empty()
    } else {
        findings(fields, resources, path, n - 1) + field_findings(fields[n - 1], resources, path)
    }
}

fn config_diagnostic(path: &str, severity: Severity, kind: ConfigDiagnosticKind) -> (r: Diagnostic)
    ensures
        r@ == config_view(path@, severity, kind@),
{
    Diagnostic { severity, body: DiagnosticBody::Config(ConfigDiagnostic { path: path.to_owned(), kind }) }
}

fn holds_entry(entries: &Vec<ResourceEntry>, value: &str) -> (r: bool)
    ensures
        r == entries@.map_values(|entry: ResourceEntry| entry.id@).contains(value@),
{
    let ghost ids = entries@.map_values(|entry: ResourceEntry| entry.id@);
    let mut i: usize = 0;
    while i < entries.len()
        invariant
            i <= entries@.len(),
            ids == entries@.map_values(|entry: ResourceEntry| entry.id@),
            forall|k: int| 0 <= k < i ==> ids[k] != value@,
        decreases entries@.len() - i,
    {
        if str_eq(entries[i].id.as_str(), value) {
            assert(ids[i as int] == value@);
            return true;
        }
        i = i + 1;
    }
    false
}

/// Check every `resource:`-backed field against the loaded resources; the
/// findings are pinned to `schema_path`.
pub fn evaluate(schema: &Schema, resources: &Resources, schema_path: &str) -> (r: Vec<Diagnostic>)
    ensures
        diagnostic_views(r@) == findings(schema.fields@, *resources, schema_path@, schema.fields@.len() as int),
{
    let mut out: Vec<Diagnostic> = Vec::new();
    let mut f: usize = 0;
    while f < schema.fields.len()
        invariant
            f <= schema.fields@.len(),
            diagnostic_views(out@) == findings(schema.fields@, *resources, schema_path@, f as int),
        decreases schema.fields@.len() - f,
    {
        let field = &schema.fields[f];
        let ghost before = diagnostic_views(out@);
        if let Some(section) = &field.definition.resource {
            if let Some(DefaultValue::Generator(generator)) = &field.definition.default {
                let diagnostic = config_diagnostic(
                    schema_path,
                    Severity::Error,
                    ConfigDiagnosticKind::ResourceDefaultGenerator {
                        field: field.name.clone(),
                        section: section.clone(),
                        generator: generator.token().to_owned(),
                    },
                );
                out.push(diagnostic);
                assert(diagnostic_views(out@) =~= before.push(diagnostic@));
            }
            let ghost middle = diagnostic_views(out@);
            proof {
                lemma_section_index(resources.sections@, section@);
            }
            match resources.section(section.as_str()) {
                Some(entries) => {
                    if entries.len() > 0 {
                        if let Some(DefaultValue::String(value)) = &field.definition.default {
                            if !holds_entry(entries, value.as_str()) {
                                let diagnostic = config_diagnostic(
                                    schema_path,
                                    Severity::Error,
                                    ConfigDiagnosticKind::ResourceDefaultUnknown {
                                        field: field.name.clone(),
                                        section: section.clone(),
                                        value: value.clone(),
                                    },
                                );
                                out.push(diagnostic);
                                assert(diagnostic_views(out@) =~= middle.push(diagnostic@));
                            }
                        }
                    } else {
                        let diagnostic = config_diagnostic(
                            schema_path,
                            Severity::Warning,
                            ConfigDiagnosticKind::ResourceSectionEmpty { field: field.name.clone(), section: section.clone() },
                        );
                        out.push(diagnostic);
                        assert(diagnostic_views(out@) =~= middle.push(diagnostic@));
                    }
                },
                None => {
                    let diagnostic = if resources.document_loaded {
                        config_diagnostic(
                            schema_path,
                            Severity::Error,
                            ConfigDiagnosticKind::ResourceSectionUnknown { field: field.name.clone(), section: section.clone() },
                        )
                    } else {
                        config_diagnostic(
                            schema_path,
                            Severity::Warning,
                            ConfigDiagnosticKind::ResourceSectionEmpty { field: field.name.clone(), section: section.clone() },
                        )
                    };
                    out.push(diagnostic);
                    assert(diagnostic_views(out@) =~= middle.push(diagnostic@));
                },
            }
        }
        assert(diagnostic_views(out@) =~= findings(schema.fields@, *resources, schema_path@, f + 1));
        f = f + 1;
    }
    out
}

} // verus!
