//! The work item store: the loaded items indexed by id, the link records
//! that answer "who points here", and the diagnostics loading collected.
//!
//! Reading the files is left to the caller; [`Store::assemble`] takes what
//! was read, in file-name order, and does the rest: the first file with a
//! given id wins, later ones are reported as duplicates, and every link to an
//! item the project does not have is reported as broken.

use vstd::prelude::*;

use crate::diagnostic::{
    diagnostic_views, item_diagnostic, Diagnostic, DiagnosticBody, DiagnosticBodyView,
    DiagnosticView, FileDiagnostic, FileDiagnosticKind, FilesDiagnostic, FilesDiagnosticKind,
    ItemDiagnosticKind, ItemKindView,
};
use crate::model::{
    ids_of, index_of_name, lemma_index_of_name, FieldValue, FieldValueView, Severity, WorkItem,
    WorkItemId,
};
use crate::schema::Schema;
use crate::text::str_eq;
use crate::yaml::YamlValue;

verus! {

// ── Items by id ─────────────────────────────────────────────────────

/// The ids of `items`, in order.
pub open spec fn item_ids(items: Seq<WorkItem>) -> Seq<Seq<char>> {
    items.map_values(|item: WorkItem| item.id@)
}

/// Whether some item has id `id`.
pub open spec fn has_item(items: Seq<WorkItem>, id: Seq<char>) -> bool {
    index_of_name(item_ids(items), id) is Some
}

/// No two items share an id.
pub open spec fn ids_unique(items: Seq<WorkItem>) -> bool {
    forall|i: int, j: int|
        0 <= i < items.len() && 0 <= j < items.len() && i != j ==> (#[trigger] items[i]).id@
            != (#[trigger] items[j]).id@
}

/// The position of the item with id `id` in `items`.
pub(crate) fn find_item(items: &Vec<WorkItem>, id: &str) -> (r: Option<usize>)
    ensures
        match r {
            Some(i) => i < items@.len() && index_of_name(item_ids(items@), id@) == Some(i as int),
            None => index_of_name(item_ids(items@), id@) is None,
        },
{
    let ghost ids = item_ids(items@);
    proof {
        lemma_index_of_name(ids, id@);
    }
    let mut i: usize = 0;
    while i < items.len()
        invariant
            i <= items@.len(),
            ids == item_ids(items@),
            forall|k: int| 0 <= k < i ==> ids[k] != id@,
        decreases items@.len() - i,
    {
        if str_eq(items[i].id.as_str(), id) {
            proof {
                lemma_index_of_name(ids, id@);
                assert(ids[i as int] == id@);
                if let Some(j) = index_of_name(ids, id@) {
                    assert(j == i);
                }
            }
            return Some(i);
        }
        i = i + 1;
    }
    None
}

// ── Links ───────────────────────────────────────────────────────────

/// The ids a field value links to: one for a link, all for a links
/// field, none otherwise.
pub open spec fn field_targets(value: FieldValueView) -> Seq<Seq<char>> {
    match value {
        FieldValueView::Link(id) => seq![id],
        FieldValueView::Links(ids) => ids,
        _ => Seq::empty(),
    }
}

/// Copies of the ids a field value links to.
pub fn targets_of(value: &FieldValue) -> (r: Vec<WorkItemId>)
    ensures
        ids_of(r@) == field_targets(value@),
{
    let mut out: Vec<WorkItemId> = Vec::new();
    match value {
        FieldValue::Link(id) => {
            out.push(id.duplicate());
            assert(ids_of(out@) =~= field_targets(value@));
        },
        FieldValue::Links(ids) => {
            let mut i: usize = 0;
            while i < ids.len()
                invariant
                    i <= ids@.len(),
                    ids_of(out@) == ids_of(ids@).take(i as int),
                decreases ids@.len() - i,
            {
                let ghost before = out@;
                let copy = ids[i].duplicate();
                out.push(copy);
                proof {
                    assert(out@ =~= before.push(copy));
                    assert(ids_of(out@) =~= ids_of(before).push(copy@));
                    assert(ids_of(ids@).take(i + 1) =~= ids_of(ids@).take(i as int).push(ids@[i as int]@));
                    assert(ids_of(out@) =~= ids_of(ids@).take(i + 1));
                }
                i = i + 1;
            }
            assert(ids_of(ids@).take(ids@.len() as int) =~= ids_of(ids@));
        },
        _ => {
            assert(ids_of(out@) =~= field_targets(value@));
        },
    }
    out
}

/// One item's links through one field, recorded when the store is loaded.
#[derive(Debug, Clone)]
pub struct LinkRecord {
    pub source: WorkItemId,
    pub field: String,
    pub targets: Vec<WorkItemId>,
}

/// `source` once for every time `targets` names `target`.
pub open spec fn hits(targets: Seq<Seq<char>>, target: Seq<char>, source: Seq<char>) -> Seq<Seq<char>>
    decreases targets.len(),
{
    if targets.len() == 0 {
        Seq::empty()
    } else {
        hits(targets.drop_last(), target, source) + if targets.last() == target {
            seq![source]
        } else {
            Seq::empty()
        }
    }
}

/// A link record as (source id, field name, target ids).
pub type LinkView = (Seq<char>, Seq<char>, Seq<Seq<char>>);

pub open spec fn link_views(records: Seq<LinkRecord>) -> Seq<LinkView> {
    records.map_values(|record: LinkRecord| (record.source@, record.field@, ids_of(record.targets@)))
}

/// The ids of the items that link to `target` through `field`, one per
/// link, in record order.
pub open spec fn sources_of(records: Seq<LinkView>, field: Seq<char>, target: Seq<char>) -> Seq<Seq<char>>
    decreases records.len(),
{
    if records.len() == 0 {
        Seq::empty()
    } else {
        let last = records.last();
        sources_of(records.drop_last(), field, target) + if last.1 == field {
            hits(last.2, target, last.0)
        } else {
            Seq::empty()
        }
    }
}

/// The items among `items` that the ids name, skipping ids of no item.
pub open spec fn present_items(items: Seq<WorkItem>, ids: Seq<Seq<char>>) -> Seq<WorkItem>
    decreases ids.len(),
{
    if ids.len() == 0 {
        Seq::empty()
    } else {
        present_items(items, ids.drop_last()) + match index_of_name(item_ids(items), ids.last()) {
            Some(i) => seq![items[i]],
            None => Seq::empty(),
        }
    }
}

// ── The store ───────────────────────────────────────────────────────

/// An in-memory index of all work items in a project.
pub struct Store {
    pub(crate) items: Vec<WorkItem>,
    pub(crate) links: Vec<LinkRecord>,
    pub(crate) diagnostics: Vec<Diagnostic>,
}

pub struct StoreView {
    pub items: Seq<WorkItem>,
    pub links: Seq<LinkView>,
    pub diagnostics: Seq<Diagnostic>,
}

impl View for Store {
    type V = StoreView;

    closed spec fn view(&self) -> StoreView {
        StoreView {
            items: self.items@,
            links: link_views(self.links@),
            diagnostics: self.diagnostics@,
        }
    }
}

impl Store {
    /// No two items share an id.
    #[verifier::type_invariant]
    pub(crate) open spec fn ids_are_unique(&self) -> bool {
        ids_unique(self.items@)
    }

    pub(crate) proof fn lemma_view(&self)
        ensures
            self@.items == self.items@,
            self@.links == link_views(self.links@),
            self@.diagnostics == self.diagnostics@,
    {
    }

    /// Set `field` of the item at `q` to `value`; every other field and
    /// item stays as it was.
    pub(crate) fn set_item_field(&mut self, q: usize, field: String, value: FieldValue)
        requires
            q < old(self)@.items.len(),
        ensures
            final(self)@.items == old(self)@.items.update(q as int, final(self)@.items[q as int]),
            final(self)@.links == old(self)@.links,
            final(self).links@ == old(self).links@,
            final(self)@.diagnostics == old(self)@.diagnostics,
            final(self)@.items[q as int].id == old(self)@.items[q as int].id,
            final(self)@.items[q as int].body == old(self)@.items[q as int].body,
            final(self)@.items[q as int].source_path == old(self)@.items[q as int].source_path,
            final(self)@.items[q as int].fields.lookup(field@) == Some(value@),
            forall|other: Seq<char>| other != field@ ==> #[trigger] final(self)@.items[q as int].fields.lookup(other)
                == old(self)@.items[q as int].fields.lookup(other),
    {
        proof {
            use_type_invariant(&*self);
        }
        let mut items: Vec<WorkItem> = Vec::new();
        std::mem::swap(&mut items, &mut self.items);
        let ghost before = items@;
        let mut item = items.remove(q);
        item.fields.insert(field, value);
        let ghost after = item;
        items.insert(q, item);
        proof {
            assert(items@ =~= before.update(q as int, after));
            assert forall|a: int, b: int|
                0 <= a < items@.len() && 0 <= b < items@.len() && a != b implies (#[trigger] items@[a]).id@
                    != (#[trigger] items@[b]).id@ by {
                assert(before[a].id@ != before[b].id@);
            }
        }
        self.items = items;
    }

    /// Put `item` in place of the item at `q`, whose id it has.
    pub(crate) fn replace_item(&mut self, q: usize, item: WorkItem)
        requires
            q < old(self)@.items.len(),
            item.id@ == old(self)@.items[q as int].id@,
        ensures
            final(self)@.items == old(self)@.items.update(q as int, item),
            final(self)@.links == old(self)@.links,
            final(self).links@ == old(self).links@,
            final(self)@.diagnostics == old(self)@.diagnostics,
    {
        proof {
            use_type_invariant(&*self);
        }
        let mut items: Vec<WorkItem> = Vec::new();
        std::mem::swap(&mut items, &mut self.items);
        let ghost before = items@;
        items.set(q, item);
        proof {
            assert forall|a: int, b: int|
                0 <= a < items@.len() && 0 <= b < items@.len() && a != b implies (#[trigger] items@[a]).id@
                    != (#[trigger] items@[b]).id@ by {
                assert(before[a].id@ != before[b].id@);
            }
        }
        self.items = items;
    }

    /// Add an item whose id no item of the store has.
    pub(crate) fn push_item(&mut self, item: WorkItem)
        requires
            !has_item(old(self)@.items, item.id@),
        ensures
            final(self)@.items == old(self)@.items.push(item),
            final(self)@.links == old(self)@.links,
            final(self).links@ == old(self).links@,
            final(self)@.diagnostics == old(self)@.diagnostics,
    {
        proof {
            use_type_invariant(&*self);
            lemma_index_of_name(item_ids(self.items@), item.id@);
        }
        let mut items: Vec<WorkItem> = Vec::new();
        std::mem::swap(&mut items, &mut self.items);
        let ghost before = items@;
        items.push(item);
        proof {
            assert forall|a: int, b: int|
                0 <= a < items@.len() && 0 <= b < items@.len() && a != b implies (#[trigger] items@[a]).id@
                    != (#[trigger] items@[b]).id@ by {
                if a == before.len() {
                    assert(item_ids(before)[b] == before[b].id@);
                } else if b == before.len() {
                    assert(item_ids(before)[a] == before[a].id@);
                } else {
                    assert(before[a].id@ != before[b].id@);
                }
            }
        }
        self.items = items;
    }

    /// Add `found` to the end of the diagnostics.
    pub(crate) fn append_diagnostics(&mut self, found: Vec<Diagnostic>)
        ensures
            final(self)@.items == old(self)@.items,
            final(self)@.links == old(self)@.links,
            final(self).links@ == old(self).links@,
            final(self)@.diagnostics == old(self)@.diagnostics + found@,
    {
        proof {
            use_type_invariant(&*self);
        }
        let mut diagnostics: Vec<Diagnostic> = Vec::new();
        std::mem::swap(&mut diagnostics, &mut self.diagnostics);
        let mut found = found;
        diagnostics.append(&mut found);
        self.diagnostics = diagnostics;
    }

    /// A store with no items, links or diagnostics.
    pub fn empty() -> (r: Self)
        ensures
            r@.items.len() == 0,
            r@.links.len() == 0,
            r@.diagnostics.len() == 0,
    {
        Store { items: Vec::new(), links: Vec::new(), diagnostics: Vec::new() }
    }

    /// Insert a work item, replacing the item with the same id if there is
    /// one. Link records are not rebuilt: they stay as loaded.
    pub fn insert(&mut self, item: WorkItem)
        ensures
            final(self)@.items == match index_of_name(item_ids(old(self)@.items), item.id@) {
                Some(i) => old(self)@.items.update(i, item),
                None => old(self)@.items.push(item),
            },
            final(self)@.links == old(self)@.links,
            final(self)@.diagnostics == old(self)@.diagnostics,
            ids_unique(final(self)@.items),
    {
        proof {
            lemma_index_of_name(item_ids(self@.items), item.id@);
        }
        match find_item(&self.items, item.id.as_str()) {
            Some(i) => {
                proof {
                    assert(item_ids(self@.items)[i as int] == self@.items[i as int].id@);
                }
                self.replace_item(i, item);
            },
            None => {
                self.push_item(item);
            },
        }
        proof {
            use_type_invariant(&*self);
        }
    }

    /// Look up a work item by its id.
    pub fn get(&self, id: &str) -> (r: Option<&WorkItem>)
        ensures
            match r {
                Some(item) => index_of_name(item_ids(self@.items), id@) matches Some(i) && *item
                    == self@.items[i],
                None => !has_item(self@.items, id@),
            },
    {
        proof {
            lemma_index_of_name(item_ids(self@.items), id@);
        }
        match find_item(&self.items, id) {
            Some(i) => Some(&self.items[i]),
            None => None,
        }
    }

    /// All loaded work items, in load order.
    pub fn all_items(&self) -> (r: Vec<&WorkItem>)
        ensures
            r@.len() == self@.items.len(),
            forall|i: int| 0 <= i < r@.len() ==> *(#[trigger] r@[i]) == self@.items[i],
            ids_unique(self@.items),
    {
        proof {
            use_type_invariant(self);
        }
        let mut out: Vec<&WorkItem> = Vec::new();
        let mut i: usize = 0;
        while i < self.items.len()
            invariant
                i <= self.items@.len(),
                out@.len() == i,
                forall|k: int| 0 <= k < i ==> *(#[trigger] out@[k]) == self.items@[k],
            decreases self.items@.len() - i,
        {
            out.push(&self.items[i]);
            i = i + 1;
        }
        out
    }

    /// The items that link to `item_id` through `field_name`: one entry per
    /// link recorded at load time whose source is still in the store.
    pub fn referring_items(&self, item_id: &str, field_name: &str) -> (r: Vec<&WorkItem>)
        ensures
            r@.len() == present_items(self@.items, sources_of(self@.links, field_name@, item_id@)).len(),
            forall|i: int|
                0 <= i < r@.len() ==> *(#[trigger] r@[i]) == present_items(
                    self@.items,
                    sources_of(self@.links, field_name@, item_id@),
                )[i],
    {
        let mut out: Vec<&WorkItem> = Vec::new();
        let ghost mut expected: Seq<WorkItem> = Seq::empty();
        let mut k: usize = 0;
        while k < self.links.len()
            invariant
                k <= self.links@.len(),
                self@.links.len() == self.links@.len(),
                expected == present_items(
                    self@.items,
                    sources_of(self@.links.take(k as int), field_name@, item_id@),
                ),
                out@.len() == expected.len(),
                forall|i: int| 0 <= i < out@.len() ==> *(#[trigger] out@[i]) == expected[i],
            decreases self.links@.len() - k,
        {
            let record = &self.links[k];
            let ghost prefix = self@.links.take(k as int);
            let ghost grown = self@.links.take(k + 1);
            proof {
                assert(grown.drop_last() =~= prefix);
                assert(grown.last() == (record.source@, record.field@, ids_of(record.targets@)));
            }
            if str_eq(record.field.as_str(), field_name) {
                let ghost targets = ids_of(record.targets@);
                let ghost base = sources_of(prefix, field_name@, item_id@);
                let mut j: usize = 0;
                while j < record.targets.len()
                    invariant
                        j <= record.targets@.len(),
                        targets == ids_of(record.targets@),
                        expected == present_items(
                            self@.items,
                            base + hits(targets.take(j as int), item_id@, record.source@),
                        ),
                        out@.len() == expected.len(),
                        forall|i: int| 0 <= i < out@.len() ==> *(#[trigger] out@[i]) == expected[i],
                    decreases record.targets@.len() - j,
                {
                    let ghost before = base + hits(targets.take(j as int), item_id@, record.source@);
                    proof {
                        assert(targets.take(j + 1).drop_last() =~= targets.take(j as int));
                    }
                    if str_eq(record.targets[j].as_str(), item_id) {
                        let ghost after = before.push(record.source@);
                        proof {
                            assert(targets.take(j + 1).last() == item_id@);
                            assert(base + hits(targets.take(j + 1), item_id@, record.source@)
                                =~= after);
                            assert(after.drop_last() =~= before);
                            lemma_index_of_name(item_ids(self@.items), record.source@);
                        }
                        match find_item(&self.items, record.source.as_str()) {
                            Some(i) => {
                                out.push(&self.items[i]);
                                proof {
                                    expected = expected.push(self@.items[i as int]);
                                }
                            },
                            None => {},
                        }
                        assert(expected == present_items(self@.items, after));
                    } else {
                        proof {
                            assert(targets.take(j + 1).last() != item_id@);
                            assert(base + hits(targets.take(j + 1), item_id@, record.source@)
                                =~= before);
                        }
                    }
                    j = j + 1;
                }
                proof {
                    assert(targets.take(targets.len() as int) =~= targets);
                    assert(sources_of(grown, field_name@, item_id@) == base + hits(
                        targets,
                        item_id@,
                        record.source@,
                    ));
                }
            } else {
                proof {
                    assert(sources_of(grown, field_name@, item_id@) =~= sources_of(
                        prefix,
                        field_name@,
                        item_id@,
                    ));
                }
            }
            k = k + 1;
        }
        assert(self@.links.take(self@.links.len() as int) =~= self@.links);
        out
    }

    /// All diagnostics collected during loading.
    pub fn diagnostics(&self) -> (r: &[Diagnostic])
        ensures
            r@ == self@.diagnostics,
    {
        self.diagnostics.as_slice()
    }

    /// Whether any diagnostics were collected during loading.
    pub fn has_errors(&self) -> (r: bool)
        ensures
            r == (self@.diagnostics.len() > 0),
    {
        self.diagnostics.len() > 0
    }

    /// Whether any diagnostic (error or warning) was collected.
    pub fn has_diagnostics(&self) -> (r: bool)
        ensures
            r == (self@.diagnostics.len() > 0),
    {
        self.diagnostics.len() > 0
    }

    /// Number of loaded items.
    pub fn len(&self) -> (r: usize)
        ensures
            r == self@.items.len(),
    {
        self.items.len()
    }

    /// Whether the store holds no items.
    pub fn is_empty(&self) -> (r: bool)
        ensures
            r == (self@.items.len() == 0),
    {
        self.items.len() == 0
    }
}

// ── Loading ─────────────────────────────────────────────────────────

/// One file of the items directory, as read.
#[derive(Debug, Clone)]
pub enum LoadedFile {
    /// A file that could not be read or parsed as a work item.
    Unreadable { path: String, detail: String },
    /// A parsed work item with its coerced fields, and what coercion found.
    Parsed { item: WorkItem, diagnostics: Vec<Diagnostic> },
}

/// A file's frontmatter entries and body, when its text reads as a work item.
pub open spec fn item_parts(content: Seq<char>) -> (Seq<(String, YamlValue)>, Seq<char>) {
    match crate::frontmatter::split_outcome(content) {
        Ok(parts) => parts,
        Err(_) => (Seq::empty(), Seq::empty()),
    }
}

/// Read one work item file's text: a file that does not read as a work
/// item is unreadable, with the parse error's message; otherwise the item
/// carries its typed fields plus its id as the `id` field, and what typing
/// found.
pub fn load_file(path: &str, content: &str, schema: &Schema) -> (r: LoadedFile)
    ensures
        match r {
            LoadedFile::Unreadable { path: p, detail } => p@ == path@
                && crate::frontmatter::failure_message(content@, path@) == Some(detail@),
            LoadedFile::Parsed { item, diagnostics } => {
                let (entries, body) = item_parts(content@);
                let frontmatter = crate::frontmatter::without_named(entries, "id"@);
                &&& crate::frontmatter::failure_message(content@, path@) is None
                &&& crate::frontmatter::split_outcome(content@) is Ok
                &&& crate::frontmatter::resolved_id(entries, path@) == Some(item.id@)
                &&& item.body@ == body
                &&& item.source_path@ == path@
                &&& forall|name: Seq<char>| #[trigger] item.fields.lookup(name) == if name == "id"@ {
                    Some(FieldValueView::String(item.id@))
                } else {
                    crate::coerce::typed_value(frontmatter, schema.fields@, name)
                }
                &&& diagnostic_views(diagnostics@) == crate::coerce::schema_reports(
                    path@,
                    item.id@,
                    frontmatter,
                    schema.fields@,
                    schema.fields@.len() as int,
                ) + crate::coerce::unknown_reports(path@, item.id@, frontmatter, schema.fields@, frontmatter.len() as int)
            },
        },
{
    proof {
        reveal_strlit("id");
    }
    match crate::frontmatter::parse_work_item(content, path) {
        Err(error) => {
            proof {
                crate::frontmatter::lemma_failure_message(content@, path@, error);
            }
            LoadedFile::Unreadable { path: path.to_owned(), detail: error.to_text() }
        },
        Ok(raw) => {
            let (mut fields, diagnostics) = crate::coerce::coerce_fields(&raw, schema);
            let ghost typed = fields;
            let id_text = raw.id.as_str().to_owned();
            fields.insert("id".to_owned(), FieldValue::String(id_text));
            proof {
                assert forall|name: Seq<char>| #[trigger] fields.lookup(name) == if name == "id"@ {
                    Some(FieldValueView::String(raw.id@))
                } else {
                    crate::coerce::typed_value(raw.frontmatter@, schema.fields@, name)
                } by {
                    if name != "id"@ {
                        assert(typed.lookup(name) == crate::coerce::typed_value(raw.frontmatter@, schema.fields@, name));
                    }
                }
            }
            LoadedFile::Parsed {
                item: WorkItem { id: raw.id, fields, body: raw.body, source_path: raw.source_path },
                diagnostics,
            }
        },
    }
}

pub open spec fn read_error_view(path: Seq<char>, detail: Seq<char>) -> DiagnosticView {
    DiagnosticView {
        severity: Severity::Error,
        body: DiagnosticBodyView::ReadError { path, detail },
    }
}

pub open spec fn duplicate_view(first: Seq<char>, second: Seq<char>, id: Seq<char>) -> DiagnosticView {
    DiagnosticView {
        severity: Severity::Error,
        body: DiagnosticBodyView::DuplicateId { paths: seq![first, second], id },
    }
}

pub open spec fn broken_view(item: WorkItem, field: Seq<char>, target: Seq<char>) -> DiagnosticView {
    DiagnosticView {
        severity: Severity::Error,
        body: DiagnosticBodyView::Item {
            path: item.source_path@,
            item_id: item.id@,
            kind: ItemKindView::BrokenLink { field, target_id: target },
        },
    }
}

/// The items the first `n` files contribute and what reading them found:
/// unreadable files are reported, the first file with an id wins and later
/// files with that id are reported as duplicates naming both paths.
pub open spec fn accepted(files: Seq<LoadedFile>, n: int) -> (Seq<WorkItem>, Seq<DiagnosticView>)
    decreases n,
{
    if n <= 0 {
        (Seq::empty(), Seq::empty())
    } else {
        let (items, found) = accepted(files, n - 1);
        match files[n - 1] {
            LoadedFile::Unreadable { path, detail } => (items, found.push(read_error_view(path@, detail@))),
            LoadedFile::Parsed { item, diagnostics } => match index_of_name(item_ids(items), item.id@) {
                Some(first) => (
                    items,
                    found.push(duplicate_view(items[first].source_path@, item.source_path@, item.id@)),
                ),
                None => (items.push(item), found + diagnostic_views(diagnostics@)),
            },
        }
    }
}

/// The broken links among `targets` of `item`'s field `field`.
pub open spec fn broken_links(items: Seq<WorkItem>, item: WorkItem, field: Seq<char>, targets: Seq<Seq<char>>) -> Seq<DiagnosticView>
    decreases targets.len(),
{
    if targets.len() == 0 {
        Seq::empty()
    } else {
        broken_links(items, item, field, targets.drop_last()) + if has_item(items, targets.last()) {
            Seq::empty()
        } else {
            seq![broken_view(item, field, targets.last())]
        }
    }
}

/// The broken links of the first `n` fields of `item`.
pub open spec fn item_broken_links(items: Seq<WorkItem>, item: WorkItem, n: int) -> Seq<DiagnosticView>
    decreases n,
{
    if n <= 0 {
        Seq::empty()
    } else {
        item_broken_links(items, item, n - 1) + broken_links(
            items,
            item,
            item.fields.spec_names()[n - 1],
            field_targets(item.fields.spec_values()[n - 1]),
        )
    }
}

/// The broken links of the first `k` items, item by item, field by field.
pub open spec fn all_broken_links(items: Seq<WorkItem>, k: int) -> Seq<DiagnosticView>
    decreases k,
{
    if k <= 0 {
        Seq::empty()
    } else {
        all_broken_links(items, k - 1) + item_broken_links(
            items,
            items[k - 1],
            items[k - 1].fields.spec_names().len() as int,
        )
    }
}

/// The link records of the first `n` fields of `item`.
pub open spec fn item_records(item: WorkItem, n: int) -> Seq<LinkView>
    decreases n,
{
    if n <= 0 {
        Seq::empty()
    } else {
        item_records(item, n - 1).push(
            (item.id@, item.fields.spec_names()[n - 1], field_targets(item.fields.spec_values()[n - 1])),
        )
    }
}

/// The link records of the first `k` items: one per field of each item.
pub open spec fn all_records(items: Seq<WorkItem>, k: int) -> Seq<LinkView>
    decreases k,
{
    if k <= 0 {
        Seq::empty()
    } else {
        all_records(items, k - 1) + item_records(
            items[k - 1],
            items[k - 1].fields.spec_names().len() as int,
        )
    }
}

impl Store {
    /// Build the store from the files of the items directory, read in
    /// file-name order: keep the first item of each id, report unreadable
    /// files and duplicate ids, record every item's links, and report every
    /// link to an item the store does not hold.
    pub fn assemble(files: Vec<LoadedFile>) -> (r: Store)
        ensures
            r@.items == accepted(files@, files@.len() as int).0,
            ids_unique(r@.items),
            diagnostic_views(r@.diagnostics) == accepted(files@, files@.len() as int).1
                + all_broken_links(r@.items, r@.items.len() as int),
            r@.links == all_records(r@.items, r@.items.len() as int),
    {
        let ghost input = files@;
        let mut items: Vec<WorkItem> = Vec::new();
        let mut diagnostics: Vec<Diagnostic> = Vec::new();
        let mut rest = files;
        let mut done: usize = 0;
        let total = rest.len();
        assert(rest@ =~= input.subrange(0, input.len() as int));
        while rest.len() > 0
            invariant
                total == input.len(),
                done + rest@.len() == input.len(),
                rest@ == input.subrange(done as int, input.len() as int),
                items@ == accepted(input, done as int).0,
                diagnostic_views(diagnostics@) == accepted(input, done as int).1,
                ids_unique(items@),
            decreases rest@.len(),
        {
            let file = rest.remove(0);
            assert(file == input[done as int]);
            proof {
                assert(rest@ =~= input.subrange(done + 1, input.len() as int));
            }
            let ghost before = diagnostic_views(diagnostics@);
            let ghost items_before = items@;
            match file {
                LoadedFile::Unreadable { path, detail } => {
                    diagnostics.push(
                        Diagnostic {
                            severity: Severity::Error,
                            body: DiagnosticBody::File(
                                FileDiagnostic { path, kind: FileDiagnosticKind::ReadError { detail } },
                            ),
                        },
                    );
                    assert(diagnostic_views(diagnostics@) =~= before.push(diagnostics@.last()@));
                },
                LoadedFile::Parsed { item, diagnostics: found } => {
                    proof {
                        lemma_index_of_name(item_ids(items@), item.id@);
                    }
                    match find_item(&items, item.id.as_str()) {
                        Some(first) => {
                            let first_path = items[first].source_path.clone();
                            let id = item.id.duplicate();
                            let paths = vec![first_path, item.source_path];
                            assert(paths@.map_values(|path: String| path@) =~= seq![
                                items@[first as int].source_path@,
                                item.source_path@,
                            ]);
                            diagnostics.push(
                                Diagnostic {
                                    severity: Severity::Error,
                                    body: DiagnosticBody::Files(
                                        FilesDiagnostic {
                                            paths,
                                            kind: FilesDiagnosticKind::DuplicateId { id },
                                        },
                                    ),
                                },
                            );
                            assert(diagnostic_views(diagnostics@) =~= before.push(diagnostics@.last()@));
                        },
                        None => {
                            let mut found = found;
                            diagnostics.append(&mut found);
                            assert(diagnostic_views(diagnostics@) =~= before + diagnostic_views(
                                input[done as int]->Parsed_diagnostics@,
                            ));
                            items.push(item);
                            proof {
                                let after = items@;
                                assert forall|a: int, b: int|
                                    0 <= a < after.len() && 0 <= b < after.len() && a
                                        != b implies (#[trigger] after[a]).id@ != (#[trigger] after[b]).id@ by {
                                    if a == items_before.len() {
                                        assert(item_ids(items_before)[b] == items_before[b].id@);
                                    }
                                    if b == items_before.len() {
                                        assert(item_ids(items_before)[a] == items_before[a].id@);
                                    }
                                }
                            }
                        },
                    }
                },
            }
            done = done + 1;
        }
        let ghost loaded = accepted(input, input.len() as int);
        // Links: record every field's targets and report the broken ones.
        let mut links: Vec<LinkRecord> = Vec::new();
        let mut k: usize = 0;
        while k < items.len()
            invariant
                k <= items@.len(),
                ids_unique(items@),
                items@ == loaded.0,
                diagnostic_views(diagnostics@) == loaded.1 + all_broken_links(items@, k as int),
                link_views(links@) == all_records(items@, k as int),
            decreases items@.len() - k,
        {
            let item = &items[k];
            let count = item.fields.len();
            let ghost found_base = diagnostic_views(diagnostics@);
            let ghost links_base = link_views(links@);
            let mut n: usize = 0;
            while n < count
                invariant
                    k < items@.len(),
                    *item == items@[k as int],
                    count == item.fields.spec_names().len(),
                    n <= count,
                    diagnostic_views(diagnostics@) == found_base + item_broken_links(items@, *item, n as int),
                    link_views(links@) == links_base + item_records(*item, n as int),
                decreases count - n,
            {
                let (field, value) = item.fields.entry(n);
                let targets = targets_of(value);
                let ghost target_views = ids_of(targets@);
                let ghost field_base = diagnostic_views(diagnostics@);
                let mut t: usize = 0;
                while t < targets.len()
                    invariant
                        t <= targets@.len(),
                        k < items@.len(),
                        *item == items@[k as int],
                        target_views == ids_of(targets@),
                        diagnostic_views(diagnostics@) == field_base + broken_links(
                            items@,
                            *item,
                            field@,
                            target_views.take(t as int),
                        ),
                    decreases targets@.len() - t,
                {
                    let ghost before = diagnostic_views(diagnostics@);
                    proof {
                        assert(target_views.take(t + 1).drop_last() =~= target_views.take(t as int));
                        assert(target_views.take(t + 1).last() == targets@[t as int]@);
                        lemma_index_of_name(item_ids(items@), targets@[t as int]@);
                    }
                    match find_item(&items, targets[t].as_str()) {
                        Some(_) => {
                            assert(diagnostic_views(diagnostics@) =~= field_base + broken_links(
                                items@,
                                *item,
                                field@,
                                target_views.take(t + 1),
                            ));
                        },
                        None => {
                            let diagnostic = item_diagnostic(
                                Severity::Error,
                                item.source_path.clone(),
                                item.id.duplicate(),
                                ItemDiagnosticKind::BrokenLink {
                                    field: field.to_owned(),
                                    target_id: targets[t].duplicate(),
                                },
                            );
                            diagnostics.push(diagnostic);
                            assert(diagnostic_views(diagnostics@) =~= before.push(diagnostic@));
                            assert(diagnostic_views(diagnostics@) =~= field_base + broken_links(
                                items@,
                                *item,
                                field@,
                                target_views.take(t + 1),
                            ));
                        },
                    }
                    t = t + 1;
                }
                proof {
                    assert(target_views.take(target_views.len() as int) =~= target_views);
                    assert(diagnostic_views(diagnostics@) =~= found_base + item_broken_links(
                        items@,
                        *item,
                        n + 1,
                    ));
                }
                let ghost links_before = link_views(links@);
                let record = LinkRecord {
                    source: item.id.duplicate(),
                    field: field.to_owned(),
                    targets,
                };
                links.push(record);
                proof {
                    assert(link_views(links@) =~= links_before.push(
                        (record.source@, record.field@, ids_of(record.targets@)),
                    ));
                    assert(link_views(links@) =~= links_base + item_records(*item, n + 1));
                }
                n = n + 1;
            }
            proof {
                assert(diagnostic_views(diagnostics@) =~= loaded.1 + all_broken_links(items@, k + 1));
                assert(link_views(links@) =~= all_records(items@, k + 1));
            }
            k = k + 1;
        }
        Store { items, links, diagnostics }
    }
}

// ── Laws ────────────────────────────────────────────────────────────

proof fn lemma_sources_concat(a: Seq<LinkView>, b: Seq<LinkView>, field: Seq<char>, target: Seq<char>)
    ensures
        sources_of(a + b, field, target) == sources_of(a, field, target) + sources_of(b, field, target),
    decreases b.len(),
{
    if b.len() == 0 {
        assert(a + b =~= a);
        assert(sources_of(a, field, target) + sources_of(b, field, target) =~= sources_of(a, field, target));
    } else {
        lemma_sources_concat(a, b.drop_last(), field, target);
        assert((a + b).drop_last() =~= a + b.drop_last());
        assert((a + b).last() == b.last());
    }
}

proof fn lemma_hits_contain(targets: Seq<Seq<char>>, target: Seq<char>, source: Seq<char>, t: int)
    requires
        0 <= t < targets.len(),
        targets[t] == target,
    ensures
        hits(targets, target, source).contains(source),
    decreases targets.len(),
{
    if t < targets.len() - 1 {
        lemma_hits_contain(targets.drop_last(), target, source, t);
        let earlier = hits(targets.drop_last(), target, source);
        let i = choose|i: int| 0 <= i < earlier.len() && earlier[i] == source;
        assert(hits(targets, target, source)[i] == source);
    } else {
        let all = hits(targets, target, source);
        assert(all[all.len() - 1] == source);
    }
}

proof fn lemma_item_records_contain(item: WorkItem, m: int, j: int, t: int)
    requires
        0 <= j < m <= item.fields.spec_names().len(),
        0 <= t < field_targets(item.fields.spec_values()[j]).len(),
    ensures
        sources_of(
            item_records(item, m),
            item.fields.spec_names()[j],
            field_targets(item.fields.spec_values()[j])[t],
        ).contains(item.id@),
    decreases m,
{
    let field = item.fields.spec_names()[j];
    let target = field_targets(item.fields.spec_values()[j])[t];
    if j < m - 1 {
        lemma_item_records_contain(item, m - 1, j, t);
        let record = (item.id@, item.fields.spec_names()[m - 1], field_targets(item.fields.spec_values()[m - 1]));
        lemma_sources_concat(item_records(item, m - 1), seq![record], field, target);
        assert(item_records(item, m) == item_records(item, m - 1) + seq![record]);
        let earlier = sources_of(item_records(item, m - 1), field, target);
        let i = choose|i: int| 0 <= i < earlier.len() && earlier[i] == item.id@;
        assert(sources_of(item_records(item, m), field, target)[i] == item.id@);
    } else {
        let record = (item.id@, field, field_targets(item.fields.spec_values()[j]));
        lemma_sources_concat(item_records(item, m - 1), seq![record], field, target);
        assert(item_records(item, m) == item_records(item, m - 1) + seq![record]);
        assert(seq![record].drop_last() =~= Seq::<LinkView>::empty());
        lemma_hits_contain(record.2, target, item.id@, t);
        let found = hits(record.2, target, item.id@);
        let i = choose|i: int| 0 <= i < found.len() && found[i] == item.id@;
        let before = sources_of(item_records(item, m - 1), field, target);
        assert(seq![record].last() == record);
        assert(sources_of(seq![record].drop_last(), field, target) =~= Seq::<Seq<char>>::empty());
        assert(sources_of(seq![record], field, target) =~= found);
        assert(sources_of(item_records(item, m), field, target)[before.len() + i] == item.id@);
    }
}

/// Every link is found in reverse: when an item's field links to a target,
/// the item is among the sources the store records for that field and
/// target (whether or not the target exists).
pub proof fn law_links_are_found_in_reverse(items: Seq<WorkItem>, k: int, j: int, t: int)
    requires
        0 <= k < items.len(),
        0 <= j < items[k].fields.spec_names().len(),
        0 <= t < field_targets(items[k].fields.spec_values()[j]).len(),
    ensures
        sources_of(
            all_records(items, items.len() as int),
            items[k].fields.spec_names()[j],
            field_targets(items[k].fields.spec_values()[j])[t],
        ).contains(items[k].id@),
{
    lemma_records_contain(items, items.len() as int, k, j, t);
}

proof fn lemma_records_contain(items: Seq<WorkItem>, n: int, k: int, j: int, t: int)
    requires
        0 <= k < n <= items.len(),
        0 <= j < items[k].fields.spec_names().len(),
        0 <= t < field_targets(items[k].fields.spec_values()[j]).len(),
    ensures
        sources_of(
            all_records(items, n),
            items[k].fields.spec_names()[j],
            field_targets(items[k].fields.spec_values()[j])[t],
        ).contains(items[k].id@),
    decreases n,
{
    let item = items[k];
    let field = item.fields.spec_names()[j];
    let target = field_targets(item.fields.spec_values()[j])[t];
    let last = item_records(items[n - 1], items[n - 1].fields.spec_names().len() as int);
    lemma_sources_concat(all_records(items, n - 1), last, field, target);
    if k < n - 1 {
        lemma_records_contain(items, n - 1, k, j, t);
        let earlier = sources_of(all_records(items, n - 1), field, target);
        let i = choose|i: int| 0 <= i < earlier.len() && earlier[i] == item.id@;
        assert(sources_of(all_records(items, n), field, target)[i] == item.id@);
    } else {
        lemma_item_records_contain(item, item.fields.spec_names().len() as int, j, t);
        let found = sources_of(last, field, target);
        let i = choose|i: int| 0 <= i < found.len() && found[i] == item.id@;
        let before = sources_of(all_records(items, n - 1), field, target);
        assert(sources_of(all_records(items, n), field, target)[before.len() + i] == item.id@);
    }
}


/// In a store, whose ids are unique, looking up an item's id finds that
/// very item: `get` of the id of the `k`-th item of `all_items` gives it.
pub proof fn law_each_item_is_found_by_its_id(items: Seq<WorkItem>, k: int)
    requires
        ids_unique(items),
        0 <= k < items.len(),
    ensures
        index_of_name(item_ids(items), items[k].id@) == Some(k),
        has_item(items, items[k].id@),
{
    lemma_index_of_name(item_ids(items), items[k].id@);
    assert(item_ids(items)[k] == items[k].id@);
    match index_of_name(item_ids(items), items[k].id@) {
        Some(j) => {
            assert(item_ids(items)[j] == items[j].id@);
            if j != k {
                assert(items[j].id@ != items[k].id@);
            }
        },
        None => {},
    }
}

} // verus!
