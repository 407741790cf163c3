//! Formatting of query results: display text of field values, and the
//! cells of delimited (CSV / TSV) output.

use vstd::prelude::*;

use crate::duration::{duration_text, format_duration_seconds};
use crate::model::{date_text, ids_of, texts_of, FieldValue, FieldValueView, WorkItem, WorkItemId};
use crate::query::types::{QueryResult, QueryRow};
use crate::text::{chars_of, concat, contains_char, decimal, decimal_text, join, join_strings, push_char};

verus! {

// ── Field value formatting ──────────────────────────────────────────

pub open spec fn comma_space() -> Seq<char> {
    seq![',', ' ']
}

pub open spec fn bool_text(flag: bool) -> Seq<char> {
    if flag {
        seq!['t', 'r', 'u', 'e']
    } else {
        seq!['f', 'a', 'l', 's', 'e']
    }
}

/// The display text of a field value: text as written, numbers in
/// decimal, dates as `YYYY-MM-DD`, durations in shorthand, collections
/// joined with `", "`.
pub open spec fn display_text(value: FieldValueView) -> Seq<char> {
    match value {
        FieldValueView::String(text) => text,
        FieldValueView::Choice(text) => text,
        FieldValueView::Date(date) => date_text(date),
        FieldValueView::Duration(seconds) => duration_text(seconds),
        FieldValueView::Link(id) => id,
        FieldValueView::Integer(number) => decimal(number),
        FieldValueView::Float(text) => text,
        FieldValueView::Boolean(flag) => bool_text(flag),
        FieldValueView::Color(text) => text,
        FieldValueView::Multichoice(values) => join(values, comma_space()),
        FieldValueView::List(values) => join(values, comma_space()),
        FieldValueView::Links(ids) => join(ids, comma_space()),
    }
}

fn bool_to_text(flag: bool) -> (r: String)
    ensures
        r@ == bool_text(flag),
{
    proof {
        reveal_strlit("true");
        reveal_strlit("false");
        assert("true"@ =~= seq!['t', 'r', 'u', 'e']);
        assert("false"@ =~= seq!['f', 'a', 'l', 's', 'e']);
    }
    if flag {
        "true".to_owned()
    } else {
        "false".to_owned()
    }
}

/// The ids as their texts.
fn id_texts(ids: &Vec<WorkItemId>) -> (r: Vec<String>)
    ensures
        texts_of(r@) == ids_of(ids@),
{
    let mut out: Vec<String> = Vec::new();
    let mut i: usize = 0;
    while i < ids.len()
        invariant
            i <= ids@.len(),
            texts_of(out@) == ids_of(ids@).take(i as int),
        decreases ids@.len() - i,
    {
        let text = ids[i].as_str().to_owned();
        let ghost before = out@;
        out.push(text);
        proof {
            assert(texts_of(out@) =~= texts_of(before).push(text@));
            assert(ids_of(ids@).take(i + 1) =~= ids_of(ids@).take(i as int).push(ids@[i as int]@));
        }
        i = i + 1;
    }
    assert(ids_of(ids@).take(ids@.len() as int) =~= ids_of(ids@));
    out
}

/// Format a field value as a human-readable display string.
pub fn format_field_value(value: &FieldValue) -> (r: String)
    ensures
        r@ == display_text(value@),
{
    proof {
        reveal_strlit(", ");
        assert(", "@ =~= comma_space());
    }
    match value {
        FieldValue::String(text) => text.clone(),
        FieldValue::Choice(text) => text.clone(),
        FieldValue::Date(date) => date.to_text(),
        FieldValue::Duration(seconds) => format_duration_seconds(*seconds),
        FieldValue::Link(id) => id.as_str().to_owned(),
        FieldValue::Integer(number) => decimal_text(*number),
        FieldValue::Float(text) => text.clone(),
        FieldValue::Boolean(flag) => bool_to_text(*flag),
        FieldValue::Color(text) => text.clone(),
        FieldValue::Multichoice(values) => join_strings(values.as_slice(), ", "),
        FieldValue::List(values) => join_strings(values.as_slice(), ", "),
        FieldValue::Links(ids) => {
            let texts = id_texts(ids);
            join_strings(texts.as_slice(), ", ")
        },
    }
}

// ── Delimited output ────────────────────────────────────────────────

/// Options controlling delimited output.
#[derive(Debug, Clone, Copy)]
pub struct DelimitedOptions {
    /// Column delimiter as a raw byte (e.g. `b','` for CSV, `b'\t'` for TSV).
    pub delimiter: u8,
    /// Emit a header row with column names.
    pub header: bool,
    /// In-cell separator for list / multichoice / links values.
    pub list_separator: char,
}

/// Errors produced while rendering delimited output.
#[derive(Debug)]
pub enum DelimitedError {
    /// A list/multichoice/links element contains the configured list
    /// separator, which would make the cell ambiguous.
    EmbeddedSeparator { item_id: String, field: String, separator: char },
    /// The column delimiter equals the list separator.
    DelimiterConflict { delimiter: char, list_separator: char },
    /// Low-level write failure from the delimited writer.
    Io(String),
}

/// The display text of a delimited-output error.
pub open spec fn delimited_error_text(error: DelimitedError) -> Seq<char> {
    match error {
        DelimitedError::EmbeddedSeparator { item_id, field, separator } => "item '"@ + item_id@ + "' field '"@
            + field@ + "' contains list separator '"@ + seq![separator]
            + "' in a value; pick a different --delimiter or remove the character"@,
        DelimitedError::DelimiterConflict { delimiter, list_separator } => "column delimiter '"@ + seq![delimiter]
            + "' matches the list-cell separator '"@ + seq![list_separator] + "'; pick a different --delimiter"@,
        DelimitedError::Io(message) => "failed writing delimited output: "@ + message@,
    }
}

impl DelimitedError {
    /// The error's display text.
    pub fn to_text(&self) -> (r: String)
        ensures
            r@ == delimited_error_text(*self),
    {
        match self {
            DelimitedError::EmbeddedSeparator { item_id, field, separator } => {
                let mut out = concat("item '", item_id.as_str());
                out = concat(out.as_str(), "' field '");
                out = concat(out.as_str(), field.as_str());
                out = concat(out.as_str(), "' contains list separator '");
                push_char(&mut out, *separator);
                out = concat(
                    out.as_str(),
                    "' in a value; pick a different --delimiter or remove the character",
                );
                assert(out@ =~= delimited_error_text(*self));
                out
            },
            DelimitedError::DelimiterConflict { delimiter, list_separator } => {
                let mut out = "column delimiter '".to_owned();
                push_char(&mut out, *delimiter);
                out = concat(out.as_str(), "' matches the list-cell separator '");
                push_char(&mut out, *list_separator);
                out = concat(out.as_str(), "'; pick a different --delimiter");
                assert(out@ =~= delimited_error_text(*self));
                out
            },
            DelimitedError::Io(message) => {
                let out = concat("failed writing delimited output: ", message.as_str());
                assert(out@ =~= delimited_error_text(*self));
                out
            },
        }
    }
}

/// The cell text of a multi-valued field: its elements joined with the
/// separator, or `None` when an element contains the separator.
pub open spec fn joined_cell(elements: Seq<Seq<char>>, separator: char) -> Option<Seq<char>> {
    if exists|i: int| 0 <= i < elements.len() && (#[trigger] elements[i]).contains(separator) {
        None
    } else {
        Some(join(elements, seq![separator]))
    }
}

/// The delimited cell of a field value: scalars as displayed, collections
/// joined with the list separator (`None` when an element contains it).
pub open spec fn delimited_cell(value: FieldValueView, separator: char) -> Option<Seq<char>> {
    match value {
        FieldValueView::Multichoice(values) => joined_cell(values, separator),
        FieldValueView::List(values) => joined_cell(values, separator),
        FieldValueView::Links(ids) => joined_cell(ids, separator),
        _ => Some(display_text(value)),
    }
}

/// Join elements with `separator`, erroring if any element itself
/// contains it.
fn join_with_separator(elements: &Vec<String>, separator: char, item_id: &str, field: &str) -> (r:
    Result<String, DelimitedError>)
    ensures
        match r {
            Ok(text) => joined_cell(texts_of(elements@), separator) == Some(text@),
            Err(error) => joined_cell(texts_of(elements@), separator) is None && (error matches DelimitedError::EmbeddedSeparator { item_id: id, field: name, separator: sep } && id@ == item_id@ && name@ == field@ && sep == separator),
        },
{
    let ghost views = texts_of(elements@);
    let mut out = String::new();
    let mut i: usize = 0;
    while i < elements.len()
        invariant
            i <= elements@.len(),
            views == texts_of(elements@),
            out@ == join(views.take(i as int), seq![separator]),
            forall|k: int| 0 <= k < i ==> !(#[trigger] views[k]).contains(separator),
        decreases elements@.len() - i,
    {
        let element = chars_of(elements[i].as_str());
        if contains_char(element.as_slice(), separator) {
            assert(views[i as int].contains(separator));
            return Err(
                DelimitedError::EmbeddedSeparator {
                    item_id: item_id.to_owned(),
                    field: field.to_owned(),
                    separator,
                },
            );
        }
        if i > 0 {
            push_char(&mut out, separator);
        }
        out.append(elements[i].as_str());
        proof {
            let next = views.take(i + 1);
            assert(next.drop_last() =~= views.take(i as int));
            if i == 0 {
                assert(out@ =~= join(next, seq![separator]));
            } else {
                assert(out@ =~= join(views.take(i as int), seq![separator]) + seq![separator]
                    + views[i as int]);
            }
        }
        i = i + 1;
    }
    assert(views.take(elements@.len() as int) =~= views);
    Ok(out)
}

/// Format a field value for delimited output, joining multi-valued fields
/// with `list_separator` and erroring if any element itself contains it.
pub fn format_value_delimited(value: &FieldValue, list_separator: char, item_id: &str, field: &str) -> (r:
    Result<String, DelimitedError>)
    ensures
        match r {
            Ok(text) => delimited_cell(value@, list_separator) == Some(text@),
            Err(error) => delimited_cell(value@, list_separator) is None && (error matches DelimitedError::EmbeddedSeparator { item_id: id, field: name, separator } && id@ == item_id@ && name@ == field@ && separator == list_separator),
        },
{
    match value {
        FieldValue::Multichoice(values) => join_with_separator(values, list_separator, item_id, field),
        FieldValue::List(values) => join_with_separator(values, list_separator, item_id, field),
        FieldValue::Links(ids) => {
            let texts = id_texts(ids);
            join_with_separator(&texts, list_separator, item_id, field)
        },
        _ => Ok(format_field_value(value)),
    }
}

// ── Rendering delimited output ──────────────────────────────────────

/// The text the `csv` writer (with `delimiter` between fields and `\n`
/// after each record) produces for one record.
pub uninterp spec fn csv_line(fields: Seq<Seq<char>>, delimiter: u8) -> Seq<char>;

/// Writes one record with a `csv::Writer` built with `delimiter` and a `\n`
/// terminator into memory, and returns the bytes as text. The contract
/// claims that on success the text is `csv_line` of the fields, and that an
/// ASCII delimiter always succeeds: a fresh writer into a `Vec` has no
/// field count to disagree with and no I/O to fail, and with every byte it
/// adds (delimiter, quote, terminator) being ASCII the output stays UTF-8.
/// The writer's quoting rules are left unsaid.
#[verifier::external_body]
fn csv_record(fields: &[String], delimiter: u8) -> (r: Result<String, String>)
    ensures
        r matches Ok(line) ==> line@ == csv_line(texts_of(fields@), delimiter),
        delimiter < 128 ==> r is Ok,
{
    let mut writer = csv::WriterBuilder::new()
        .delimiter(delimiter)
        .terminator(csv::Terminator::Any(b'\n'))
        .from_writer(Vec::<u8>::new());
    if let Err(error) = writer.write_record(fields) {
        return Err(error.to_string());
    }
    match writer.into_inner() {
        Ok(bytes) => String::from_utf8(bytes).map_err(|error| error.to_string()),
        Err(error) => Err(error.to_string()),
    }
}

/// The delimited cell of `column` for `item`: its id for `id`, nothing for
/// a field it lacks, else the value's cell.
pub open spec fn cell_of(item: WorkItem, column: Seq<char>, separator: char) -> Option<Seq<char>> {
    if column == "id"@ {
        Some(item.id@)
    } else {
        match item.fields.lookup(column) {
            Some(value) => delimited_cell(value, separator),
            None => Some(Seq::empty()),
        }
    }
}

/// The first column of `item` whose cell cannot be written, if any.
pub open spec fn first_bad_column(item: WorkItem, columns: Seq<Seq<char>>, separator: char) -> Option<Seq<char>>
    decreases columns.len(),
{
    if columns.len() == 0 {
        None
    } else {
        match first_bad_column(item, columns.drop_last(), separator) {
            Some(column) => Some(column),
            None => if cell_of(item, columns.last(), separator) is None {
                Some(columns.last())
            } else {
                None
            },
        }
    }
}

/// The first (item id, column) whose cell cannot be written, items in order.
pub open spec fn first_bad_cell(items: Seq<WorkItem>, columns: Seq<Seq<char>>, separator: char) -> Option<(Seq<char>, Seq<char>)>
    decreases items.len(),
{
    if items.len() == 0 {
        None
    } else {
        match first_bad_cell(items.drop_last(), columns, separator) {
            Some(found) => Some(found),
            None => match first_bad_column(items.last(), columns, separator) {
                Some(column) => Some((items.last().id@, column)),
                None => None,
            },
        }
    }
}

/// The cells of a row none of whose cells is bad.
pub open spec fn row_cells(item: WorkItem, columns: Seq<Seq<char>>, separator: char) -> Seq<Seq<char>> {
    columns.map_values(|column: Seq<char>| cell_of(item, column, separator)->0)
}

/// The rows of all items, one `csv` line each.
pub open spec fn rows_text(items: Seq<WorkItem>, columns: Seq<Seq<char>>, options: DelimitedOptions) -> Seq<char>
    decreases items.len(),
{
    if items.len() == 0 {
        Seq::empty()
    } else {
        rows_text(items.drop_last(), columns, options) + csv_line(
            row_cells(items.last(), columns, options.list_separator),
            options.delimiter,
        )
    }
}

/// Whether the list separator would read as the column delimiter.
pub open spec fn separator_conflicts(options: DelimitedOptions) -> bool {
    (options.list_separator as u32) < 128 && options.list_separator as u32 == options.delimiter as u32
}

pub open spec fn item_refs(items: Seq<&WorkItem>) -> Seq<WorkItem> {
    items.map_values(|item: &WorkItem| *item)
}

/// Render matched items as CSV/TSV: `options.delimiter` between columns,
/// `options.list_separator` inside list, multichoice and links cells, a
/// header row when asked for, `\n` after every record.
pub fn render_delimited(items: &[&WorkItem], columns: &[String], options: &DelimitedOptions) -> (r: Result<String, DelimitedError>)
    ensures
        separator_conflicts(*options) ==> (r matches Err(DelimitedError::DelimiterConflict { delimiter, list_separator })
            && delimiter as u32 == options.delimiter as u32 && list_separator == options.list_separator),
        !separator_conflicts(*options) ==> match r {
            Ok(text) => first_bad_cell(item_refs(items@), texts_of(columns@), options.list_separator) is None
                && text@ == (if options.header { csv_line(texts_of(columns@), options.delimiter) } else { Seq::empty() })
                + rows_text(item_refs(items@), texts_of(columns@), *options),
            Err(DelimitedError::EmbeddedSeparator { item_id, field, separator }) => first_bad_cell(
                item_refs(items@),
                texts_of(columns@),
                options.list_separator,
            ) == Some((item_id@, field@)) && separator == options.list_separator,
            Err(DelimitedError::Io(_)) => options.delimiter >= 128,
            Err(DelimitedError::DelimiterConflict { .. }) => false,
        },
{
    let separator = options.list_separator;
    if (separator as u32) < 128 && separator as u32 == options.delimiter as u32 {
        return Err(DelimitedError::DelimiterConflict { delimiter: options.delimiter as char, list_separator: separator });
    }
    let ghost all = item_refs(items@);
    let ghost names = texts_of(columns@);
    let mut out = String::new();
    if options.header {
        match csv_record(columns, options.delimiter) {
            Ok(line) => {
                out.append(line.as_str());
            },
            Err(message) => return Err(DelimitedError::Io(message)),
        }
    }
    let ghost head = out@;
    proof {
        assert(all.take(0) =~= Seq::<WorkItem>::empty());
    }
    let mut k: usize = 0;
    while k < items.len()
        invariant
            k <= items@.len(),
            all == item_refs(items@),
            names == texts_of(columns@),
            separator == options.list_separator,
            !separator_conflicts(*options),
            first_bad_cell(all.take(k as int), names, separator) is None,
            out@ == head + rows_text(all.take(k as int), names, *options),
        decreases items@.len() - k,
    {
        let item = items[k];
        proof {
            assert(all.take(k + 1).drop_last() =~= all.take(k as int));
            assert(all.take(k + 1).last() == *item);
        }
        let mut row: Vec<String> = Vec::new();
        let mut c: usize = 0;
        while c < columns.len()
            invariant
                c <= columns@.len(),
                names == texts_of(columns@),
                k < items@.len(),
                all == item_refs(items@),
                *item == all[k as int],
                all.take(k + 1).drop_last() == all.take(k as int),
                all.take(k + 1).last() == *item,
                first_bad_cell(all.take(k as int), names, separator) is None,
                separator == options.list_separator,
                !separator_conflicts(*options),
                first_bad_column(*item, names.take(c as int), separator) is None,
                texts_of(row@) == row_cells(*item, names.take(c as int), separator),
            decreases columns@.len() - c,
        {
            let column = columns[c].as_str();
            proof {
                assert(names.take(c + 1).drop_last() =~= names.take(c as int));
                assert(names.take(c + 1).last() == column@);
            }
            let cell = if str_eq_local(column, "id") {
                item.id.as_str().to_owned()
            } else {
                match item.fields.get(column) {
                    Some(value) => match format_value_delimited(value, separator, item.id.as_str(), column) {
                        Ok(text) => text,
                        Err(error) => {
                            proof {
                                assert(first_bad_column(*item, names.take(c + 1), separator) == Some(column@));
                                lemma_bad_column_stays(*item, names, separator, c as int + 1);
                                assert(names.take(names.len() as int) =~= names);
                                assert(first_bad_cell(all.take(k + 1), names, separator) == Some((item.id@, column@)));
                                lemma_bad_cell_stays(all, names, separator, k as int + 1);
                                assert(all.take(all.len() as int) =~= all);
                            }
                            return Err(error);
                        },
                    },
                    None => String::new(),
                }
            };
            let ghost before = row@;
            row.push(cell);
            proof {
                assert(texts_of(row@) =~= texts_of(before).push(cell@));
                assert(row_cells(*item, names.take(c + 1), separator) =~= row_cells(*item, names.take(c as int), separator).push(cell@));
            }
            c = c + 1;
        }
        proof {
            assert(names.take(columns@.len() as int) =~= names);
        }
        match csv_record(row.as_slice(), options.delimiter) {
            Ok(line) => {
                out.append(line.as_str());
            },
            Err(message) => return Err(DelimitedError::Io(message)),
        }
        proof {
            assert(out@ =~= head + rows_text(all.take(k + 1), names, *options));
        }
        k = k + 1;
    }
    proof {
        assert(all.take(items@.len() as int) =~= all);
    }
    Ok(out)
}

fn str_eq_local(a: &str, b: &str) -> (r: bool)
    ensures
        r == (a@ == b@),
{
    crate::text::str_eq(a, b)
}

proof fn lemma_bad_column_stays(item: WorkItem, columns: Seq<Seq<char>>, separator: char, c: int)
    requires
        0 < c <= columns.len(),
        first_bad_column(item, columns.take(c), separator) is Some,
    ensures
        first_bad_column(item, columns.take(columns.len() as int), separator) == first_bad_column(item, columns.take(c), separator),
    decreases columns.len() - c,
{
    if c < columns.len() {
        assert(columns.take(c + 1).drop_last() =~= columns.take(c));
        lemma_bad_column_stays(item, columns, separator, c + 1);
    }
}

proof fn lemma_bad_cell_stays(items: Seq<WorkItem>, columns: Seq<Seq<char>>, separator: char, k: int)
    requires
        0 < k <= items.len(),
        first_bad_cell(items.take(k), columns, separator) is Some,
    ensures
        first_bad_cell(items.take(items.len() as int), columns, separator) == first_bad_cell(items.take(k), columns, separator),
    decreases items.len() - k,
{
    if k < items.len() {
        assert(items.take(k + 1).drop_last() =~= items.take(k));
        lemma_bad_cell_stays(items, columns, separator, k + 1);
    }
}

// ── JSON output ─────────────────────────────────────────────────────

/// The text `serde_json::to_string_pretty` gives for an array with one
/// object per row, each mapping every column to the row's text under it.
pub uninterp spec fn json_rows(columns: Seq<Seq<char>>, rows: Seq<Seq<Seq<char>>>) -> Seq<char>;

pub open spec fn rows_view(rows: Seq<Vec<String>>) -> Seq<Seq<Seq<char>>> {
    rows.map_values(|row: Vec<String>| texts_of(row@))
}

/// Serializes the rows with `serde_json::to_string_pretty`, as an array of
/// objects whose keys are the columns and whose values are JSON strings;
/// `columns` and each row are paired one for one. The contract claims that
/// the text is `json_rows` of the columns and rows, and that the call
/// succeeds: serialization fails only for a map with non-string keys or a
/// failing writer, and here every key is a string and the writer a `Vec`.
#[verifier::external_body]
fn json_array(columns: &[String], rows: &Vec<Vec<String>>) -> (r: Result<String, String>)
    ensures
        r matches Ok(text) ==> text@ == json_rows(texts_of(columns@), rows_view(rows@)),
        r is Ok,
{
    let mut items: Vec<serde_json::Value> = Vec::new();
    for row in rows {
        let mut object = serde_json::Map::new();
        for (column, value) in columns.iter().zip(row.iter()) {
            object.insert(column.clone(), serde_json::Value::String(value.clone()));
        }
        items.push(serde_json::Value::Object(object));
    }
    serde_json::to_string_pretty(&items).map_err(|error| error.to_string())
}

/// The text of row `row` under each column: its value at the column's
/// position, or nothing when the row is shorter.
pub open spec fn padded_row(values: Seq<Seq<char>>, width: int) -> Seq<Seq<char>> {
    Seq::new(width as nat, |i: int| if i < values.len() { values[i] } else { Seq::empty() })
}

/// Render a query result as JSON: an array of objects, one per matched
/// item, each with a key for every column.
pub fn render_json(result: &QueryResult) -> (r: String)
    ensures
        ({
            let rows = result.items@.map_values(|row: QueryRow| padded_row(texts_of(row.values@), result.columns@.len() as int));
            r@ == json_rows(texts_of(result.columns@), rows)
        }),
{
    let width = result.columns.len();
    let ghost expected = result.items@.map_values(|row: QueryRow| padded_row(texts_of(row.values@), width as int));
    let mut rows: Vec<Vec<String>> = Vec::new();
    let mut k: usize = 0;
    while k < result.items.len()
        invariant
            k <= result.items@.len(),
            width == result.columns@.len(),
            expected == result.items@.map_values(|row: QueryRow| padded_row(texts_of(row.values@), width as int)),
            rows_view(rows@) == expected.take(k as int),
        decreases result.items@.len() - k,
    {
        let row = &result.items[k];
        let mut values: Vec<String> = Vec::new();
        let mut i: usize = 0;
        while i < width
            invariant
                i <= width,
                texts_of(values@) == padded_row(texts_of(row.values@), width as int).take(i as int),
            decreases width - i,
        {
            let text = if i < row.values.len() {
                row.values[i].clone()
            } else {
                String::new()
            };
            let ghost before = values@;
            values.push(text);
            proof {
                assert(texts_of(values@) =~= texts_of(before).push(text@));
                assert(padded_row(texts_of(row.values@), width as int).take(i + 1) =~= padded_row(
                    texts_of(row.values@),
                    width as int,
                ).take(i as int).push(text@));
            }
            i = i + 1;
        }
        let ghost rows_before = rows@;
        proof {
            assert(padded_row(texts_of(row.values@), width as int).take(width as int) =~= padded_row(
                texts_of(row.values@),
                width as int,
            ));
        }
        rows.push(values);
        proof {
            assert(rows_view(rows@) =~= rows_view(rows_before).push(texts_of(values@)));
            assert(expected.take(k + 1) =~= expected.take(k as int).push(expected[k as int]));
        }
        k = k + 1;
    }
    assert(expected.take(result.items@.len() as int) =~= expected);
    json_array(result.columns.as_slice(), &rows).unwrap()
}


/// An integer is shown in decimal, and its display text, read as a query
/// operand or a frontmatter number, is that integer again.
pub proof fn law_integer_display_reads_back(n: int)
    requires
        i64::MIN <= n <= i64::MAX,
    ensures
        crate::numbers::parse_int(display_text(FieldValueView::Integer(n))) == Some(n),
{
    crate::numbers::law_decimal_text_reads_back(n);
}
} // verus!
