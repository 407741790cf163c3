//! The editing vocabulary for a client: the projection of a project's
//! schema, item ids and resources that field editors and the create-item
//! form are built from.

use vstd::prelude::*;

use crate::diagnostic::optional_text;
use crate::model::{texts_of, FieldType, WorkItemId};
use crate::order::{id_views, positions_in_id_order, text_lt, lists_in_id_order};
use crate::query::types::{offered_operators, operators_for, Operator};
use crate::resources::{ResourceEntry, Resources};
use crate::schema::{config_type, FieldDefinition, FieldTypeConfig, Schema};
use crate::store::{ids_unique, Store};

verus! {

/// One field's editing metadata: enough to pick the right editor and give
/// immediate hints. Bounds are the decimal text they were written as.
#[derive(Debug, Clone)]
pub struct FieldSchema {
    pub name: String,
    pub field_type: FieldType,
    pub description: Option<String>,
    pub required: bool,
    /// Allowed values of a choice or multichoice field.
    pub values: Option<Vec<String>>,
    /// Bounds of an integer or float field.
    pub min: Option<String>,
    pub max: Option<String>,
    /// Bounds of a duration field, in seconds.
    pub duration_min: Option<String>,
    pub duration_max: Option<String>,
    /// The pattern of a string field.
    pub pattern: Option<String>,
    pub resource: Option<String>,
    /// Whether the field rolls up (carries an `aggregate` block).
    pub aggregate: bool,
}

/// One selectable resource entry: the stored id and its label.
#[derive(Debug, Clone)]
pub struct ResourceOption {
    pub id: String,
    pub label: String,
}

/// One resource section and its entries.
#[derive(Debug, Clone)]
pub struct ResourceList {
    pub name: String,
    pub options: Vec<ResourceOption>,
}

/// The operators offered for one field type.
#[derive(Debug, Clone)]
pub struct FieldTypeOperators {
    pub field_type: FieldType,
    pub operators: Vec<Operator>,
}

/// Everything a client needs to build editors: the fields in declaration
/// order, every item id in id order, the resource lists in file order,
/// and the operators each field type offers.
#[derive(Debug, Clone)]
pub struct SchemaData {
    pub fields: Vec<FieldSchema>,
    pub items: Vec<WorkItemId>,
    pub resources: Vec<ResourceList>,
    pub operators_by_type: Vec<FieldTypeOperators>,
}

/// Every field type, in a stable order.
pub open spec fn all_field_types() -> Seq<FieldType> {
    seq![
        FieldType::String,
        FieldType::Choice,
        FieldType::Multichoice,
        FieldType::Integer,
        FieldType::Float,
        FieldType::Date,
        FieldType::Duration,
        FieldType::Color,
        FieldType::Boolean,
        FieldType::List,
        FieldType::Link,
        FieldType::Links,
    ]
}

pub open spec fn opt_texts(values: Option<Vec<String>>) -> Option<Seq<Seq<char>>> {
    match values {
        Some(v) => Some(texts_of(v@)),
        None => None,
    }
}

/// Whether `data` is the projection of the field named `name` with
/// `definition`.
pub open spec fn projects(data: FieldSchema, name: Seq<char>, definition: FieldDefinition) -> bool {
    let config = definition.type_config;
    &&& data.name@ == name
    &&& data.field_type == config_type(config)
    &&& optional_text(data.description) == optional_text(definition.description)
    &&& data.required == definition.required
    &&& opt_texts(data.values) == match config {
        FieldTypeConfig::Choice { values } => Some(texts_of(values@)),
        FieldTypeConfig::Multichoice { values } => Some(texts_of(values@)),
        _ => None,
    }
    &&& (optional_text(data.min), optional_text(data.max)) == match config {
        FieldTypeConfig::Integer { min, max } => (optional_text(min), optional_text(max)),
        FieldTypeConfig::Float { min, max } => (optional_text(min), optional_text(max)),
        _ => (None, None),
    }
    &&& (optional_text(data.duration_min), optional_text(data.duration_max)) == match config {
        FieldTypeConfig::Duration { min, max } => (optional_text(min), optional_text(max)),
        _ => (None, None),
    }
    &&& optional_text(data.pattern) == match config {
        FieldTypeConfig::String { pattern } => optional_text(pattern),
        _ => None,
    }
    &&& optional_text(data.resource) == optional_text(definition.resource)
    &&& data.aggregate == definition.aggregate is Some
}

/// An entry's label: its name, or its id when it has none.
pub open spec fn label_of(entry: ResourceEntry) -> Seq<char> {
    match entry.name {
        Some(name) => name@,
        None => entry.id@,
    }
}

/// Whether `options` offer `entries`, in order.
pub open spec fn offers(options: Seq<ResourceOption>, entries: Seq<ResourceEntry>) -> bool {
    &&& options.len() == entries.len()
    &&& forall|k: int| 0 <= k < options.len() ==> (#[trigger] options[k]).id@ == entries[k].id@
        && options[k].label@ == label_of(entries[k])
}

impl FieldSchema {
    /// The editing metadata of one field.
    pub fn from_definition(name: &str, definition: &FieldDefinition) -> (r: Self)
        ensures
            projects(r, name@, *definition),
    {
        let values = match &definition.type_config {
            FieldTypeConfig::Choice { values } => Some(values.clone()),
            FieldTypeConfig::Multichoice { values } => Some(values.clone()),
            _ => None,
        };
        let (min, max) = match &definition.type_config {
            FieldTypeConfig::Integer { min, max } => (min.clone(), max.clone()),
            FieldTypeConfig::Float { min, max } => (min.clone(), max.clone()),
            _ => (None, None),
        };
        let (duration_min, duration_max) = match &definition.type_config {
            FieldTypeConfig::Duration { min, max } => (min.clone(), max.clone()),
            _ => (None, None),
        };
        let pattern = match &definition.type_config {
            FieldTypeConfig::String { pattern } => pattern.clone(),
            _ => None,
        };
        FieldSchema {
            name: name.to_owned(),
            field_type: definition.field_type(),
            description: definition.description.clone(),
            required: definition.required,
            values,
            min,
            max,
            duration_min,
            duration_max,
            pattern,
            resource: definition.resource.clone(),
            aggregate: definition.aggregate.is_some(),
        }
    }
}

/// Some item of `items` has id `id`.
pub open spec fn is_item_id(items: Seq<crate::model::WorkItem>, id: Seq<char>) -> bool {
    exists|p: int| 0 <= p < items.len() && items[p].id@ == id
}

/// `ids` lists `id`.
pub open spec fn lists_id(ids: Seq<WorkItemId>, id: Seq<char>) -> bool {
    exists|k: int| 0 <= k < ids.len() && ids[k]@ == id
}

fn field_schemas(schema: &Schema) -> (r: Vec<FieldSchema>)
    ensures
        r@.len() == schema.fields@.len(),
        forall|k: int| 0 <= k < r@.len() ==> projects(
            #[trigger] r@[k],
            schema.fields@[k].name@,
            schema.fields@[k].definition,
        ),
{
    let mut fields: Vec<FieldSchema> = Vec::new();
    let mut f: usize = 0;
    while f < schema.fields.len()
        invariant
            f <= schema.fields@.len(),
            fields@.len() == f,
            forall|k: int| 0 <= k < f ==> projects(
                #[trigger] fields@[k],
                schema.fields@[k].name@,
                schema.fields@[k].definition,
            ),
        decreases schema.fields@.len() - f,
    {
        let field = &schema.fields[f];
        fields.push(FieldSchema::from_definition(field.name.as_str(), &field.definition));
        f = f + 1;
    }
    fields
}

/// The ids of the store's items, each once, in increasing order.
fn ids_in_order(store: &Store) -> (r: Vec<WorkItemId>)
    requires
        ids_unique(store@.items),
    ensures
        forall|k: int, l: int| 0 <= k < l < r@.len() ==> text_lt((#[trigger] r@[k])@, (#[trigger] r@[l])@),
        forall|k: int| 0 <= k < r@.len() ==> is_item_id(store@.items, (#[trigger] r@[k])@),
        forall|p: int| 0 <= p < store@.items.len() ==> lists_id(r@, (#[trigger] store@.items[p]).id@),
{
    let all = store.all_items();
    let mut ids: Vec<WorkItemId> = Vec::new();
    let mut selected: Vec<bool> = Vec::new();
    let mut i: usize = 0;
    while i < all.len()
        invariant
            i <= all@.len(),
            all@.len() == store@.items.len(),
            forall|q: int| 0 <= q < all@.len() ==> *(#[trigger] all@[q]) == store@.items[q],
            ids@.len() == i,
            selected@.len() == i,
            forall|q: int| 0 <= q < i ==> (#[trigger] ids@[q])@ == store@.items[q].id@,
            forall|q: int| 0 <= q < i ==> #[trigger] selected@[q],
        decreases all@.len() - i,
    {
        let id = all[i].id.duplicate();
        ids.push(id);
        selected.push(true);
        i = i + 1;
    }
    assert(crate::order::distinct_ids(id_views(ids@))) by {
        assert forall|a: int, b: int| 0 <= a < ids@.len() && 0 <= b < ids@.len() && a != b implies id_views(ids@)[a]
            != id_views(ids@)[b] by {
            assert(store@.items[a].id@ != store@.items[b].id@);
        }
    }
    let order = positions_in_id_order(&ids, &selected);
    let mut items: Vec<WorkItemId> = Vec::new();
    let mut j: usize = 0;
    while j < order.len()
        invariant
            j <= order@.len(),
            ids@.len() == store@.items.len(),
            forall|q: int| 0 <= q < ids@.len() ==> (#[trigger] ids@[q])@ == store@.items[q].id@,
            lists_in_id_order(id_views(ids@), selected@, order@),
            items@.len() == j,
            forall|k: int| 0 <= k < j ==> (#[trigger] items@[k])@ == ids@[order@[k] as int]@,
        decreases order@.len() - j,
    {
        items.push(ids[order[j]].duplicate());
        j = j + 1;
    }
    assert forall|k: int, l: int| 0 <= k < l < items@.len() implies text_lt(
        (#[trigger] items@[k])@,
        (#[trigger] items@[l])@,
    ) by {
        assert(text_lt(id_views(ids@)[order@[k] as int], id_views(ids@)[order@[l] as int]));
    }
    assert forall|k: int| 0 <= k < items@.len() implies is_item_id(store@.items, (#[trigger] items@[k])@) by {
        let p = order@[k] as int;
        assert(items@[k]@ == store@.items[p].id@);
    }
    assert forall|p: int| 0 <= p < store@.items.len() implies lists_id(items@, (#[trigger] store@.items[p]).id@) by {
        assert(selected@[p]);
        let k = choose|k: int| 0 <= k < order@.len() && (#[trigger] order@[k]) == p;
        assert(items@[k]@ == ids@[p]@);
    }
    items
}

fn resource_lists(resources: &Resources) -> (r: Vec<ResourceList>)
    ensures
        r@.len() == resources.sections@.len(),
        forall|k: int| 0 <= k < r@.len() ==> (#[trigger] r@[k]).name@ == resources.sections@[k].name@
            && offers(r@[k].options@, resources.sections@[k].entries@),
{
    let mut lists: Vec<ResourceList> = Vec::new();
    let mut s: usize = 0;
    while s < resources.sections.len()
        invariant
            s <= resources.sections@.len(),
            lists@.len() == s,
            forall|k: int| 0 <= k < s ==> (#[trigger] lists@[k]).name@ == resources.sections@[k].name@
                && offers(lists@[k].options@, resources.sections@[k].entries@),
        decreases resources.sections@.len() - s,
    {
        let section = &resources.sections[s];
        let mut options: Vec<ResourceOption> = Vec::new();
        let mut e: usize = 0;
        while e < section.entries.len()
            invariant
                e <= section.entries@.len(),
                options@.len() == e,
                forall|k: int| 0 <= k < e ==> (#[trigger] options@[k]).id@ == section.entries@[k].id@
                    && options@[k].label@ == label_of(section.entries@[k]),
            decreases section.entries@.len() - e,
        {
            let entry = &section.entries[e];
            options.push(ResourceOption { id: entry.id.clone(), label: entry.label().to_owned() });
            e = e + 1;
        }
        lists.push(ResourceList { name: section.name.clone(), options });
        s = s + 1;
    }
    lists
}

fn operator_table() -> (r: Vec<FieldTypeOperators>)
    ensures
        r@.len() == all_field_types().len(),
        forall|k: int| 0 <= k < r@.len() ==> (#[trigger] r@[k]).field_type == all_field_types()[k]
            && r@[k].operators@ == offered_operators(all_field_types()[k]),
{
    let types = [
        FieldType::String,
        FieldType::Choice,
        FieldType::Multichoice,
        FieldType::Integer,
        FieldType::Float,
        FieldType::Date,
        FieldType::Duration,
        FieldType::Color,
        FieldType::Boolean,
        FieldType::List,
        FieldType::Link,
        FieldType::Links,
    ];
    assert(types@ == all_field_types());
    let mut table: Vec<FieldTypeOperators> = Vec::new();
    let mut t: usize = 0;
    while t < 12
        invariant
            t <= 12,
            types@ == all_field_types(),
            table@.len() == t,
            forall|k: int| 0 <= k < t ==> (#[trigger] table@[k]).field_type == all_field_types()[k]
                && table@[k].operators@ == offered_operators(all_field_types()[k]),
        decreases 12 - t,
    {
        let field_type = types[t];
        table.push(FieldTypeOperators { field_type, operators: operators_for(field_type) });
        t = t + 1;
    }
    table
}

/// The editing vocabulary of a project: every field's metadata in schema
/// order, every item id once in increasing order, every resource section's
/// options with their labels, and the operators each field type offers.
pub fn build(schema: &Schema, store: &Store, resources: &Resources) -> (r: SchemaData)
    ensures
        r.fields@.len() == schema.fields@.len(),
        forall|k: int| 0 <= k < r.fields@.len() ==> projects(
            #[trigger] r.fields@[k],
            schema.fields@[k].name@,
            schema.fields@[k].definition,
        ),
        forall|k: int, l: int| 0 <= k < l < r.items@.len() ==> text_lt(
            (#[trigger] r.items@[k])@,
            (#[trigger] r.items@[l])@,
        ),
        forall|k: int| 0 <= k < r.items@.len() ==> is_item_id(store@.items, (#[trigger] r.items@[k])@),
        forall|p: int| 0 <= p < store@.items.len() ==> lists_id(r.items@, (#[trigger] store@.items[p]).id@),
        r.resources@.len() == resources.sections@.len(),
        forall|k: int| 0 <= k < r.resources@.len() ==> (#[trigger] r.resources@[k]).name@
            == resources.sections@[k].name@ && offers(r.resources@[k].options@, resources.sections@[k].entries@),
        r.operators_by_type@.len() == all_field_types().len(),
        forall|k: int| 0 <= k < r.operators_by_type@.len() ==> (#[trigger] r.operators_by_type@[k]).field_type
            == all_field_types()[k] && r.operators_by_type@[k].operators@ == offered_operators(all_field_types()[k]),
{
    proof {
        use_type_invariant(store);
        store.lemma_view();
    }
    SchemaData {
        fields: field_schemas(schema),
        items: ids_in_order(store),
        resources: resource_lists(resources),
        operators_by_type: operator_table(),
    }
}

} // verus!
