//! The check of every item's resource-backed values against the entries
//! that `resources.yaml` declares.
//!
//! Only fields whose option set is usable are checked: a field whose
//! section is unknown or empty is reported once against the schema (see
//! [`crate::resources::evaluate`]) and stays silent on every item.

use vstd::prelude::*;

use crate::diagnostic::{
    diagnostic_views, item_diagnostic, DiagnosticBodyView, DiagnosticView, ItemDiagnosticKind,
    ItemKindView, Diagnostic,
};
use crate::model::{texts_of, FieldType, FieldValue, FieldValueView, Severity, WorkItem};
use crate::resources::{option_set, OptionSetView, ResourceEntry, Resources};
use crate::schema::{config_type, NamedField, Schema};
use crate::text::contains_text;

verus! {

/// A resource-backed field whose values can be checked: its name, the
/// section it names and that section's entry ids.
#[derive(Debug, Clone)]
pub struct ValidatableField {
    pub field: String,
    pub section: String,
    pub entry_ids: Vec<String>,
}

pub open spec fn validatable_view(field: ValidatableField) -> (Seq<char>, Seq<char>, Seq<Seq<char>>) {
    (field.field@, field.section@, texts_of(field.entry_ids@))
}

pub open spec fn validatable_views(fields: Seq<ValidatableField>) -> Seq<(Seq<char>, Seq<char>, Seq<Seq<char>>)> {
    fields.map_values(|field: ValidatableField| validatable_view(field))
}

/// The types whose values can name a resource entry.
pub open spec fn names_entries(field_type: FieldType) -> bool {
    field_type == FieldType::String || field_type == FieldType::List
}

/// What one schema field contributes: itself, when it names a section,
/// has a string or list type, and its section is usable.
pub open spec fn checkable(field: NamedField, resources: Resources) -> Seq<(Seq<char>, Seq<char>, Seq<Seq<char>>)> {
    match field.definition.resource {
        Some(section) => if names_entries(config_type(field.definition.type_config)) {
            match option_set(section@, resources) {
                OptionSetView::Usable(ids) => seq![(field.name@, section@, ids)],
                _ => Seq::empty(),
            }
        } else {
            Seq::empty()
        },
        None => Seq::empty(),
    }
}

/// The checkable fields among the first `n` schema fields, in schema order.
pub open spec fn validatable(fields: Seq<NamedField>, resources: Resources, n: int) -> Seq<(Seq<char>, Seq<char>, Seq<Seq<char>>)>
    decreases n,
{
    if n <= 0 {
        Seq::empty()
    } else {
        validatable(fields, resources, n - 1) + checkable(fields[n - 1], resources)
    }
}

fn entry_ids(entries: &Vec<ResourceEntry>) -> (r: Vec<String>)
    ensures
        texts_of(r@) == entries@.map_values(|entry: ResourceEntry| entry.id@),
{
    let mut ids: Vec<String> = Vec::new();
    let mut i: usize = 0;
    while i < entries.len()
        invariant
            i <= entries@.len(),
            texts_of(ids@) == entries@.take(i as int).map_values(|entry: ResourceEntry| entry.id@),
        decreases entries@.len() - i,
    {
        let ghost prefix = texts_of(ids@);
        let id = entries[i].id.clone();
        ids.push(id);
        assert(texts_of(ids@) =~= prefix.push(entries@[i as int].id@));
        assert(texts_of(ids@) =~= entries@.take(i + 1).map_values(|entry: ResourceEntry| entry.id@));
        i = i + 1;
    }
    assert(entries@.take(entries@.len() as int) =~= entries@);
    ids
}

/// The fields whose values are worth checking against a resource, in
/// schema order: those that name a section, have a string or list type,
/// and whose section declares at least one entry.
pub fn validatable_fields(schema: &Schema, resources: &Resources) -> (r: Vec<ValidatableField>)
    ensures
        validatable_views(r@) == validatable(schema.fields@, *resources, schema.fields@.len() as int),
{
    let mut out: Vec<ValidatableField> = Vec::new();
    let mut f: usize = 0;
    while f < schema.fields.len()
        invariant
            f <= schema.fields@.len(),
            validatable_views(out@) == validatable(schema.fields@, *resources, f as int),
        decreases schema.fields@.len() - f,
    {
        let field = &schema.fields[f];
        let ghost before = validatable_views(out@);
        if let Some(section) = &field.definition.resource {
            let field_type = field.definition.field_type();
            if matches!(field_type, FieldType::String | FieldType::List) {
                match resources.section(section.as_str()) {
                    Some(entries) => {
                        if entries.len() > 0 {
                            let ids = entry_ids(entries);
                            let entry = ValidatableField {
                                field: field.name.clone(),
                                section: section.clone(),
                                entry_ids: ids,
                            };
                            out.push(entry);
                            assert(validatable_views(out@) =~= before.push(validatable_view(entry)));
                        }
                    },
                    None => {},
                }
            }
        }
        assert(validatable_views(out@) =~= validatable(schema.fields@, *resources, f + 1));
        f = f + 1;
    }
    out
}

/// The entry ids a value claims: one for a string, each element for a
/// list, none for any other value.
pub open spec fn claimed(value: FieldValueView) -> Seq<Seq<char>> {
    match value {
        FieldValueView::String(text) => seq![text],
        FieldValueView::List(entries) => entries,
        _ => Seq::empty(),
    }
}

/// The entry ids that `value` claims.
pub fn referenced_values(value: &FieldValue) -> (r: Vec<String>)
    ensures
        texts_of(r@) == claimed(value@),
{
    match value {
        FieldValue::String(text) => {
            let r = vec![text.clone()];
            assert(texts_of(r@) =~= claimed(value@));
            r
        },
        FieldValue::List(entries) => {
            let r = entries.clone();
            assert(texts_of(r@) =~= claimed(value@));
            r
        },
        _ => {
            let r: Vec<String> = Vec::new();
            assert(texts_of(r@) =~= claimed(value@));
            r
        },
    }
}

pub open spec fn unknown_view(item: WorkItem, field: Seq<char>, section: Seq<char>, value: Seq<char>) -> DiagnosticView {
    DiagnosticView {
        severity: Severity::Warning,
        body: DiagnosticBodyView::Item {
            path: item.source_path@,
            item_id: item.id@,
            kind: ItemKindView::UnknownResourceRef { field, section, value },
        },
    }
}

/// One warning per claimed id that is not among `ids`, in claim order.
pub open spec fn unknown_refs(
    item: WorkItem,
    field: Seq<char>,
    section: Seq<char>,
    ids: Seq<Seq<char>>,
    claims: Seq<Seq<char>>,
) -> Seq<DiagnosticView>
    decreases claims.len(),
{
    if claims.len() == 0 {
        Seq::empty()
    } else {
        unknown_refs(item, field, section, ids, claims.drop_last()) + if ids.contains(claims.last()) {
            Seq::empty()
        } else {
            seq![unknown_view(item, field, section, claims.last())]
        }
    }
}

/// The warnings of `item` over the first `n` checkable fields.
pub open spec fn item_unknown_refs(
    item: WorkItem,
    checks: Seq<(Seq<char>, Seq<char>, Seq<Seq<char>>)>,
    n: int,
) -> Seq<DiagnosticView>
    decreases n,
{
    if n <= 0 {
        Seq::empty()
    } else {
        let (field, section, ids) = checks[n - 1];
        item_unknown_refs(item, checks, n - 1) + match item.fields.lookup(field) {
            Some(value) => unknown_refs(item, field, section, ids, claimed(value)),
            None => Seq::empty(),
        }
    }
}

/// The warnings of the first `k` items, item by item, field by field.
pub open spec fn all_unknown_refs(
    items: Seq<WorkItem>,
    checks: Seq<(Seq<char>, Seq<char>, Seq<Seq<char>>)>,
    k: int,
) -> Seq<DiagnosticView>
    decreases k,
{
    if k <= 0 {
        Seq::empty()
    } else {
        all_unknown_refs(items, checks, k - 1) + item_unknown_refs(items[k - 1], checks, checks.len() as int)
    }
}

/// One warning per item value that is not an entry of its section: for
/// each item, each checkable field the item sets, each id the value
/// claims that the section does not declare.
pub fn check(items: &Vec<WorkItem>, schema: &Schema, resources: &Resources) -> (r: Vec<Diagnostic>)
    ensures
        diagnostic_views(r@) == all_unknown_refs(
            items@,
            validatable(schema.fields@, *resources, schema.fields@.len() as int),
            items@.len() as int,
        ),
{
    let fields = validatable_fields(schema, resources);
    let ghost checks = validatable_views(fields@);
    let mut out: Vec<Diagnostic> = Vec::new();
    let mut k: usize = 0;
    while k < items.len()
        invariant
            k <= items@.len(),
            checks == validatable_views(fields@),
            diagnostic_views(out@) == all_unknown_refs(items@, checks, k as int),
        decreases items@.len() - k,
    {
        let item = &items[k];
        let ghost item_base = diagnostic_views(out@);
        let mut n: usize = 0;
        while n < fields.len()
            invariant
                k < items@.len(),
                *item == items@[k as int],
                n <= fields@.len(),
                checks == validatable_views(fields@),
                diagnostic_views(out@) == item_base + item_unknown_refs(*item, checks, n as int),
            decreases fields@.len() - n,
        {
            let checked = &fields[n];
            let ghost field_base = diagnostic_views(out@);
            assert(checks[n as int] == validatable_view(*checked));
            match item.fields.get(checked.field.as_str()) {
                Some(value) => {
                    let claims = referenced_values(value);
                    let ghost claim_views = texts_of(claims@);
                    let mut c: usize = 0;
                    while c < claims.len()
                        invariant
                            c <= claims@.len(),
                            k < items@.len(),
                            *item == items@[k as int],
                            claim_views == texts_of(claims@),
                            diagnostic_views(out@) == field_base + unknown_refs(
                                *item,
                                checked.field@,
                                checked.section@,
                                texts_of(checked.entry_ids@),
                                claim_views.take(c as int),
                            ),
                        decreases claims@.len() - c,
                    {
                        let ghost before = diagnostic_views(out@);
                        assert(claim_views.take(c + 1).drop_last() =~= claim_views.take(c as int));
                        assert(claim_views.take(c + 1).last() == claims@[c as int]@);
                        if !contains_text(&checked.entry_ids, claims[c].as_str()) {
                            let diagnostic = item_diagnostic(
                                Severity::Warning,
                                item.source_path.clone(),
                                item.id.duplicate(),
                                ItemDiagnosticKind::UnknownResourceRef {
                                    field: checked.field.clone(),
                                    section: checked.section.clone(),
                                    value: claims[c].clone(),
                                },
                            );
                            out.push(diagnostic);
                            assert(diagnostic_views(out@) =~= before.push(diagnostic@));
                        }
                        c = c + 1;
                    }
                    assert(claim_views.take(claims@.len() as int) =~= claim_views);
                },
                None => {},
            }
            assert(diagnostic_views(out@) =~= item_base + item_unknown_refs(*item, checks, n + 1));
            n = n + 1;
        }
        assert(diagnostic_views(out@) =~= all_unknown_refs(items@, checks, k + 1));
        k = k + 1;
    }
    out
}


// ── Laws ────────────────────────────────────────────────────────────

/// A warning about an item's value is owed only where the field's section
/// is usable and does not declare the value.
pub open spec fn warns_rightly(diagnostic: DiagnosticView, resources: Resources) -> bool {
    match diagnostic.body {
        DiagnosticBodyView::Item { kind: ItemKindView::UnknownResourceRef { section, value, .. }, .. } =>
            diagnostic.severity == Severity::Warning && match option_set(section, resources) {
                OptionSetView::Usable(ids) => !ids.contains(value),
                _ => false,
            },
        _ => false,
    }
}

pub open spec fn all_warn_rightly(diagnostics: Seq<DiagnosticView>, resources: Resources) -> bool {
    forall|j: int| 0 <= j < diagnostics.len() ==> warns_rightly(#[trigger] diagnostics[j], resources)
}

pub open spec fn all_usable(checks: Seq<(Seq<char>, Seq<char>, Seq<Seq<char>>)>, resources: Resources) -> bool {
    forall|j: int| 0 <= j < checks.len() ==> option_set((#[trigger] checks[j]).1, resources)
        == OptionSetView::Usable(checks[j].2)
}

proof fn lemma_concat_warn(a: Seq<DiagnosticView>, b: Seq<DiagnosticView>, resources: Resources)
    requires
        all_warn_rightly(a, resources),
        all_warn_rightly(b, resources),
    ensures
        all_warn_rightly(a + b, resources),
{
    assert forall|j: int| 0 <= j < (a + b).len() implies warns_rightly(#[trigger] (a + b)[j], resources) by {
        if j < a.len() {
            assert((a + b)[j] == a[j]);
        } else {
            assert((a + b)[j] == b[j - a.len()]);
        }
    }
}

proof fn lemma_validatable_usable(fields: Seq<NamedField>, resources: Resources, n: int)
    requires
        0 <= n <= fields.len(),
    ensures
        all_usable(validatable(fields, resources, n), resources),
    decreases n,
{
    if n > 0 {
        lemma_validatable_usable(fields, resources, n - 1);
        let a = validatable(fields, resources, n - 1);
        let b = checkable(fields[n - 1], resources);
        assert forall|j: int| 0 <= j < (a + b).len() implies option_set((#[trigger] (a + b)[j]).1, resources)
            == OptionSetView::Usable((a + b)[j].2) by {
            if j < a.len() {
                assert((a + b)[j] == a[j]);
            } else {
                assert((a + b)[j] == b[j - a.len()]);
            }
        }
    }
}

proof fn lemma_unknown_refs_warn(
    item: WorkItem,
    field: Seq<char>,
    section: Seq<char>,
    ids: Seq<Seq<char>>,
    claims: Seq<Seq<char>>,
    resources: Resources,
)
    requires
        option_set(section, resources) == OptionSetView::Usable(ids),
    ensures
        all_warn_rightly(unknown_refs(item, field, section, ids, claims), resources),
    decreases claims.len(),
{
    if claims.len() > 0 {
        lemma_unknown_refs_warn(item, field, section, ids, claims.drop_last(), resources);
        let tail = if ids.contains(claims.last()) {
            Seq::empty()
        } else {
            seq![unknown_view(item, field, section, claims.last())]
        };
        assert(all_warn_rightly(tail, resources));
        lemma_concat_warn(unknown_refs(item, field, section, ids, claims.drop_last()), tail, resources);
    }
}

proof fn lemma_item_warn(
    item: WorkItem,
    checks: Seq<(Seq<char>, Seq<char>, Seq<Seq<char>>)>,
    n: int,
    resources: Resources,
)
    requires
        all_usable(checks, resources),
        n <= checks.len(),
    ensures
        all_warn_rightly(item_unknown_refs(item, checks, n), resources),
    decreases n,
{
    if n > 0 {
        lemma_item_warn(item, checks, n - 1, resources);
        let (field, section, ids) = checks[n - 1];
        let tail = match item.fields.lookup(field) {
            Some(value) => unknown_refs(item, field, section, ids, claimed(value)),
            None => Seq::empty(),
        };
        if let Some(value) = item.fields.lookup(field) {
            lemma_unknown_refs_warn(item, field, section, ids, claimed(value), resources);
        }
        assert(all_warn_rightly(tail, resources));
        lemma_concat_warn(item_unknown_refs(item, checks, n - 1), tail, resources);
    }
}

proof fn lemma_all_warn(
    items: Seq<WorkItem>,
    checks: Seq<(Seq<char>, Seq<char>, Seq<Seq<char>>)>,
    k: int,
    resources: Resources,
)
    requires
        all_usable(checks, resources),
        k <= items.len(),
    ensures
        all_warn_rightly(all_unknown_refs(items, checks, k), resources),
    decreases k,
{
    if k > 0 {
        lemma_all_warn(items, checks, k - 1, resources);
        lemma_item_warn(items[k - 1], checks, checks.len() as int, resources);
        lemma_concat_warn(
            all_unknown_refs(items, checks, k - 1),
            item_unknown_refs(items[k - 1], checks, checks.len() as int),
            resources,
        );
    }
}

/// Every finding of the item check is a warning about a value that its
/// field's section, usable, does not declare: a field whose section is
/// unknown or empty (reported once against the schema) stays silent on
/// every item, and a declared entry is never reported.
pub proof fn law_item_warnings_name_usable_sections(items: Seq<WorkItem>, schema: Schema, resources: Resources)
    ensures
        all_warn_rightly(
            all_unknown_refs(
                items,
                validatable(schema.fields@, resources, schema.fields@.len() as int),
                items.len() as int,
            ),
            resources,
        ),
{
    let checks = validatable(schema.fields@, resources, schema.fields@.len() as int);
    lemma_validatable_usable(schema.fields@, resources, schema.fields@.len() as int);
    lemma_all_warn(items, checks, items.len() as int, resources);
}

} // verus!
