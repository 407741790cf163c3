//! The query pipeline around evaluation: selecting the items a predicate
//! matches, choosing the columns, and formatting one row per item.

use vstd::prelude::*;

use crate::model::WorkItem;
use crate::query::eval::{lists_only_on_absent, matches_predicate, predicate_outcome, EvalErrorView, QueryEvalError};
use crate::query::format::{display_text, format_field_value};
use crate::query::types::{Predicate, QueryRow};
use crate::schema::{NamedField, Schema};
use crate::store::Store;
use crate::text::str_eq;

verus! {

/// The items among `items` the predicate holds for, in order, or the first
/// error evaluation meets.
pub open spec fn selection(items: Seq<WorkItem>, predicate: Option<&Predicate>, schema: Schema, store: crate::store::StoreView, n: int) -> Result<Seq<WorkItem>, EvalErrorView>
    decreases n,
{
    if n <= 0 {
        Ok(Seq::empty())
    } else {
        match selection(items, predicate, schema, store, n - 1) {
            Err(error) => Err(error),
            Ok(chosen) => match predicate {
                None => Ok(chosen.push(items[n - 1])),
                Some(p) => match predicate_outcome(items[n - 1], p.tree(), schema, store) {
                    Err(error) => Err(error),
                    Ok(true) => Ok(chosen.push(items[n - 1])),
                    Ok(false) => Ok(chosen),
                },
            },
        }
    }
}

proof fn lemma_selection_stays(items: Seq<WorkItem>, predicate: Option<&Predicate>, schema: Schema, store: crate::store::StoreView, k: int, n: int)
    requires
        0 < k <= n,
        selection(items, predicate, schema, store, k) is Err,
    ensures
        selection(items, predicate, schema, store, n) == selection(items, predicate, schema, store, k),
    decreases n - k,
{
    if n > k {
        lemma_selection_stays(items, predicate, schema, store, k, n - 1);
    }
}

/// The items of the store the predicate holds for (all of them without
/// one), in store order.
pub fn select_items<'a>(predicate: Option<&Predicate>, store: &'a Store, schema: &Schema) -> (r: Result<Vec<&'a WorkItem>, QueryEvalError>)
    requires
        predicate matches Some(p) ==> p.wf() && forall|k: int|
            0 <= k < store@.items.len() ==> lists_only_on_absent(#[trigger] store@.items[k], p.tree()),
    ensures
        match r {
            Ok(items) => selection(store@.items, predicate, *schema, store@, store@.items.len() as int)
                matches Ok(chosen) && items@.len() == chosen.len() && forall|k: int|
                0 <= k < items@.len() ==> *(#[trigger] items@[k]) == chosen[k],
            Err(error) => selection(store@.items, predicate, *schema, store@, store@.items.len() as int)
                == Err::<Seq<WorkItem>, EvalErrorView>(error@),
        },
{
    let all = store.all_items();
    let ghost items = store@.items;
    let mut chosen: Vec<&'a WorkItem> = Vec::new();
    let ghost mut expected: Seq<WorkItem> = Seq::empty();
    let mut i: usize = 0;
    while i < all.len()
        invariant
            i <= all@.len(),
            all@.len() == items.len(),
            items == store@.items,
            forall|k: int| 0 <= k < all@.len() ==> *(#[trigger] all@[k]) == items[k],
            predicate matches Some(p) ==> p.wf() && forall|k: int|
                0 <= k < items.len() ==> lists_only_on_absent(#[trigger] items[k], p.tree()),
            selection(items, predicate, *schema, store@, i as int) == Ok::<Seq<WorkItem>, EvalErrorView>(expected),
            chosen@.len() == expected.len(),
            forall|k: int| 0 <= k < chosen@.len() ==> *(#[trigger] chosen@[k]) == expected[k],
        decreases all@.len() - i,
    {
        let item = all[i];
        let matches = match predicate {
            Some(p) => match matches_predicate(item, p, schema, store) {
                Ok(holds) => holds,
                Err(error) => {
                    proof {
                        assert(selection(items, predicate, *schema, store@, i + 1) == Err::<Seq<WorkItem>, EvalErrorView>(error@));
                        lemma_selection_stays(items, predicate, *schema, store@, i + 1, items.len() as int);
                    }
                    return Err(error);
                },
            },
            None => true,
        };
        if matches {
            chosen.push(item);
            proof {
                expected = expected.push(items[i as int]);
            }
        }
        i = i + 1;
    }
    Ok(chosen)
}

/// The default columns: `id`, then every required field in schema order.
pub open spec fn default_columns_of(fields: Seq<NamedField>) -> Seq<Seq<char>>
    decreases fields.len(),
{
    if fields.len() == 0 {
        seq!["id"@]
    } else {
        default_columns_of(fields.drop_last()) + if fields.last().definition.required {
            seq![fields.last().name@]
        } else {
            Seq::empty()
        }
    }
}

pub open spec fn texts(values: Seq<String>) -> Seq<Seq<char>> {
    values.map_values(|v: String| v@)
}

/// The default column list: `id` followed by all required fields in
/// schema order.
pub fn default_columns(schema: &Schema) -> (r: Vec<String>)
    ensures
        texts(r@) == default_columns_of(schema.fields@),
{
    let mut columns: Vec<String> = Vec::new();
    columns.push("id".to_owned());
    assert(texts(columns@) =~= seq!["id"@]);
    let mut i: usize = 0;
    while i < schema.fields.len()
        invariant
            i <= schema.fields@.len(),
            texts(columns@) == default_columns_of(schema.fields@.take(i as int)),
        decreases schema.fields@.len() - i,
    {
        proof {
            assert(schema.fields@.take(i + 1).drop_last() =~= schema.fields@.take(i as int));
        }
        let ghost before = columns@;
        if schema.fields[i].definition.required {
            let name = schema.fields[i].name.clone();
            columns.push(name);
            assert(texts(columns@) =~= texts(before).push(name@));
        }
        assert(texts(columns@) =~= default_columns_of(schema.fields@.take(i + 1)));
        i = i + 1;
    }
    assert(schema.fields@.take(schema.fields@.len() as int) =~= schema.fields@);
    columns
}

/// The cell of `item` under `column`: the id for `id`, the display text of
/// the field's value, or nothing when the item has none.
pub open spec fn cell_text(item: WorkItem, column: Seq<char>) -> Seq<char> {
    if column == "id"@ {
        item.id@
    } else {
        match item.fields.lookup(column) {
            Some(value) => display_text(value),
            None => Seq::empty(),
        }
    }
}

/// Build the result row of one work item.
pub fn build_row(item: &WorkItem, columns: &[String]) -> (r: QueryRow)
    ensures
        r.id@ == item.id@,
        texts(r.values@) == columns@.map_values(|column: String| cell_text(*item, column@)),
{
    let ghost expected = columns@.map_values(|column: String| cell_text(*item, column@));
    let mut values: Vec<String> = Vec::new();
    let mut i: usize = 0;
    while i < columns.len()
        invariant
            i <= columns@.len(),
            expected == columns@.map_values(|column: String| cell_text(*item, column@)),
            texts(values@) == expected.take(i as int),
        decreases columns@.len() - i,
    {
        let column = columns[i].as_str();
        let cell = if str_eq(column, "id") {
            item.id.as_str().to_owned()
        } else {
            match item.fields.get(column) {
                Some(value) => format_field_value(value),
                None => String::new(),
            }
        };
        let ghost before = values@;
        values.push(cell);
        proof {
            assert(texts(values@) =~= texts(before).push(cell@));
            assert(expected.take(i + 1) =~= expected.take(i as int).push(expected[i as int]));
        }
        i = i + 1;
    }
    assert(expected.take(columns@.len() as int) =~= expected);
    QueryRow { id: item.id.as_str().to_owned(), values }
}

} // verus!
