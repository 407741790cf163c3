//! The project's data model: field types, typed field values, work items,
//! schema definitions and diagnostics.

use vstd::prelude::*;

use crate::text::{chars_of, digits, push_char, push_digits};

verus! {

// ── Ids ─────────────────────────────────────────────────────────────

/// A work item's id (its file name without `.md`, or its frontmatter `id`).
#[derive(Debug, Clone, PartialEq, Eq, Hash, PartialOrd, Ord)]
pub struct WorkItemId {
    pub id: String,
}

impl View for WorkItemId {
    type V = Seq<char>;

    open spec fn view(&self) -> Seq<char> {
        self.id@
    }
}

impl WorkItemId {
    pub fn new(id: String) -> (r: Self)
        ensures
            r@ == id@,
    {
        WorkItemId { id }
    }

    /// The id as text.
    pub fn as_str(&self) -> (r: &str)
        ensures
            r@ == self@,
    {
        self.id.as_str()
    }

    /// A copy of the id.
    pub fn duplicate(&self) -> (r: Self)
        ensures
            r@ == self@,
            r == *self,
    {
        WorkItemId { id: self.id.clone() }
    }
}

impl From<String> for WorkItemId {
    fn from(id: String) -> (r: Self) {
        WorkItemId { id }
    }
}

impl vstd::std_specs::convert::FromSpecImpl<String> for WorkItemId {
    open spec fn obeys_from_spec() -> bool {
        true
    }

    open spec fn from_spec(id: String) -> Self {
        WorkItemId { id }
    }
}

// ── Dates ───────────────────────────────────────────────────────────

pub open spec fn is_leap_year(year: int) -> bool {
    (year % 4 == 0 && year % 100 != 0) || year % 400 == 0
}

pub open spec fn days_in_month(year: int, month: int) -> int {
    if month == 2 {
        if is_leap_year(year) {
            29
        } else {
            28
        }
    } else if month == 4 || month == 6 || month == 9 || month == 11 {
        30
    } else {
        31
    }
}

/// A day of the proleptic Gregorian calendar in the range the calendar
/// library represents.
pub open spec fn valid_date(year: int, month: int, day: int) -> bool {
    -262143 <= year <= 262142 && 1 <= month <= 12 && 1 <= day <= days_in_month(year, month)
}

/// A calendar date.
#[derive(Debug, Clone, Copy, PartialEq, Eq, PartialOrd, Ord, Hash)]
pub struct Date {
    year: i32,
    month: u32,
    day: u32,
}

/// A date as its three components.
pub struct DateView {
    pub year: int,
    pub month: int,
    pub day: int,
}

impl View for Date {
    type V = DateView;

    closed spec fn view(&self) -> DateView {
        DateView { year: self.year as int, month: self.month as int, day: self.day as int }
    }
}

impl Date {
    #[verifier::type_invariant]
    spec fn valid(self) -> bool {
        valid_date(self.year as int, self.month as int, self.day as int)
    }

    /// The date with these components, when it exists.
    pub fn from_ymd(year: i32, month: u32, day: u32) -> (r: Option<Date>)
        ensures
            r is Some <==> valid_date(year as int, month as int, day as int),
            r matches Some(date) ==> date@ == (DateView {
                year: year as int,
                month: month as int,
                day: day as int,
            }),
    {
        if year < -262143 || year > 262142 || month < 1 || month > 12 || day < 1 {
            return None;
        }
        let leap = (year % 4 == 0 && year % 100 != 0) || year % 400 == 0;
        let limit: u32 = if month == 2 {
            if leap {
                29
            } else {
                28
            }
        } else if month == 4 || month == 6 || month == 9 || month == 11 {
            30
        } else {
            31
        };
        if day > limit {
            return None;
        }
        Some(Date { year, month, day })
    }

    pub fn year(&self) -> (r: i32)
        ensures
            r as int == self@.year,
    {
        self.year
    }

    pub fn month(&self) -> (r: u32)
        ensures
            r as int == self@.month,
    {
        self.month
    }

    pub fn day(&self) -> (r: u32)
        ensures
            r as int == self@.day,
    {
        self.day
    }

    /// Chronological order: earlier dates compare smaller.
    pub fn is_before(&self, other: &Date) -> (r: bool)
        ensures
            r == date_before(self@, other@),
    {
        self.year < other.year || (self.year == other.year && (self.month < other.month || (
        self.month == other.month && self.day < other.day)))
    }
}

/// `digits` padded with leading zeros to at least `width` characters.
pub open spec fn zero_padded(digits: Seq<char>, width: int) -> Seq<char> {
    if digits.len() >= width {
        digits
    } else {
        Seq::new((width - digits.len()) as nat, |i: int| '0') + digits
    }
}

/// The year as the calendar's `%Y` writes it: four digits, zero-padded,
/// with an explicit sign outside 0..=9999.
pub open spec fn year_text(year: int) -> Seq<char> {
    if 0 <= year <= 9999 {
        zero_padded(digits(year as nat), 4)
    } else if year < 0 {
        seq!['-'] + zero_padded(digits((-year) as nat), 4)
    } else {
        seq!['+'] + zero_padded(digits(year as nat), 4)
    }
}

/// A date as `%Y-%m-%d`.
pub open spec fn date_text(date: DateView) -> Seq<char> {
    year_text(date.year) + seq!['-'] + zero_padded(digits(date.month as nat), 2) + seq!['-']
        + zero_padded(digits(date.day as nat), 2)
}

/// Appends `n` in decimal, zero-padded to `width` digits.
fn push_padded(out: &mut String, n: u64, width: usize)
    requires
        width <= 4,
    ensures
        final(out)@ == old(out)@ + zero_padded(digits(n as nat), width as int),
{
    let mut text = String::new();
    push_digits(&mut text, n);
    let digits_chars = chars_of(text.as_str());
    let mut fill = digits_chars.len();
    let ghost start = out@;
    while fill < width
        invariant
            fill >= digits_chars.len(),
            digits_chars@.len() >= width ==> fill == digits_chars@.len(),
            digits_chars@.len() < width ==> fill <= width,
            out@ == start + Seq::new((fill - digits_chars.len()) as nat, |i: int| '0'),
        decreases width - fill,
    {
        push_char(out, '0');
        fill = fill + 1;
        proof {
            assert(out@ =~= start + Seq::new((fill - digits_chars.len()) as nat, |i: int| '0'));
        }
    }
    out.append(text.as_str());
    proof {
        if digits_chars@.len() >= width {
            assert(fill == digits_chars@.len());
            assert(out@ =~= start + digits(n as nat));
        } else {
            assert(fill == width);
            assert(out@ =~= start + (Seq::new((width - digits_chars@.len()) as nat, |i: int| '0') + digits(n as nat)));
        }
    }
}

impl Date {
    /// The date as `%Y-%m-%d`.
    pub fn to_text(&self) -> (r: String)
        ensures
            r@ == date_text(self@),
    {
        proof {
            use_type_invariant(self);
        }
        let mut out = String::new();
        let year = self.year;
        if year >= 0 && year <= 9999 {
            push_padded(&mut out, year as u64, 4);
        } else if year < 0 {
            push_char(&mut out, '-');
            push_padded(&mut out, (0i64 - year as i64) as u64, 4);
        } else {
            push_char(&mut out, '+');
            push_padded(&mut out, year as u64, 4);
        }
        push_char(&mut out, '-');
        push_padded(&mut out, self.month as u64, 2);
        push_char(&mut out, '-');
        push_padded(&mut out, self.day as u64, 2);
        proof {
            assert(out@ =~= date_text(self@));
        }
        out
    }
}

/// Chronological order on dates.
pub open spec fn date_before(a: DateView, b: DateView) -> bool {
    a.year < b.year || (a.year == b.year && (a.month < b.month || (a.month == b.month && a.day
        < b.day)))
}

// ── Field values ────────────────────────────────────────────────────

/// A field's value after type coercion.
#[derive(Debug, Clone, PartialEq)]
pub enum FieldValue {
    String(String),
    Choice(String),
    Multichoice(Vec<String>),
    Integer(i64),
    /// A floating-point number, held as the decimal text its value prints
    /// as (the shortest text that reads back to the same number).
    Float(String),
    Date(Date),
    /// Canonical seconds.
    Duration(i64),
    /// A palette name or a hex literal, as written.
    Color(String),
    Boolean(bool),
    List(Vec<String>),
    Link(WorkItemId),
    Links(Vec<WorkItemId>),
}

pub enum FieldValueView {
    String(Seq<char>),
    Choice(Seq<char>),
    Multichoice(Seq<Seq<char>>),
    Integer(int),
    Float(Seq<char>),
    Date(DateView),
    Duration(int),
    Color(Seq<char>),
    Boolean(bool),
    List(Seq<Seq<char>>),
    Link(Seq<char>),
    Links(Seq<Seq<char>>),
}

pub open spec fn texts_of(values: Seq<String>) -> Seq<Seq<char>> {
    values.map_values(|value: String| value@)
}

pub open spec fn ids_of(ids: Seq<WorkItemId>) -> Seq<Seq<char>> {
    ids.map_values(|id: WorkItemId| id@)
}

impl View for FieldValue {
    type V = FieldValueView;

    open spec fn view(&self) -> FieldValueView {
        match self {
            FieldValue::String(text) => FieldValueView::String(text@),
            FieldValue::Choice(text) => FieldValueView::Choice(text@),
            FieldValue::Multichoice(values) => FieldValueView::Multichoice(texts_of(values@)),
            FieldValue::Integer(number) => FieldValueView::Integer(*number as int),
            FieldValue::Float(text) => FieldValueView::Float(text@),
            FieldValue::Date(date) => FieldValueView::Date(date@),
            FieldValue::Duration(seconds) => FieldValueView::Duration(*seconds as int),
            FieldValue::Color(text) => FieldValueView::Color(text@),
            FieldValue::Boolean(flag) => FieldValueView::Boolean(*flag),
            FieldValue::List(values) => FieldValueView::List(texts_of(values@)),
            FieldValue::Link(id) => FieldValueView::Link(id@),
            FieldValue::Links(ids) => FieldValueView::Links(ids_of(ids@)),
        }
    }
}

/// The type a schema field declares.
#[derive(Debug, Clone, Copy, PartialEq, Eq, Structural)]
pub enum FieldType {
    String,
    Choice,
    Multichoice,
    Integer,
    Float,
    Date,
    Duration,
    Color,
    Boolean,
    List,
    Link,
    Links,
}

/// How a field type is written in `schema.yaml`.
pub open spec fn type_text(field_type: FieldType) -> Seq<char> {
    match field_type {
        FieldType::String => seq!['s', 't', 'r', 'i', 'n', 'g'],
        FieldType::Choice => seq!['c', 'h', 'o', 'i', 'c', 'e'],
        FieldType::Multichoice => seq!['m', 'u', 'l', 't', 'i', 'c', 'h', 'o', 'i', 'c', 'e'],
        FieldType::Integer => seq!['i', 'n', 't', 'e', 'g', 'e', 'r'],
        FieldType::Float => seq!['f', 'l', 'o', 'a', 't'],
        FieldType::Date => seq!['d', 'a', 't', 'e'],
        FieldType::Duration => seq!['d', 'u', 'r', 'a', 't', 'i', 'o', 'n'],
        FieldType::Color => seq!['c', 'o', 'l', 'o', 'r'],
        FieldType::Boolean => seq!['b', 'o', 'o', 'l', 'e', 'a', 'n'],
        FieldType::List => seq!['l', 'i', 's', 't'],
        FieldType::Link => seq!['l', 'i', 'n', 'k'],
        FieldType::Links => seq!['l', 'i', 'n', 'k', 's'],
    }
}

impl FieldType {
    /// How the type is written in `schema.yaml` (its display form).
    pub fn name(self) -> (r: &'static str)
        ensures
            r@ == type_text(self),
    {
        proof {
            reveal_strlit("string");
            reveal_strlit("choice");
            reveal_strlit("multichoice");
            reveal_strlit("integer");
            reveal_strlit("float");
            reveal_strlit("date");
            reveal_strlit("duration");
            reveal_strlit("color");
            reveal_strlit("boolean");
            reveal_strlit("list");
            reveal_strlit("link");
            reveal_strlit("links");
        }
        match self {
            FieldType::String => "string",
            FieldType::Choice => "choice",
            FieldType::Multichoice => "multichoice",
            FieldType::Integer => "integer",
            FieldType::Float => "float",
            FieldType::Date => "date",
            FieldType::Duration => "duration",
            FieldType::Color => "color",
            FieldType::Boolean => "boolean",
            FieldType::List => "list",
            FieldType::Link => "link",
            FieldType::Links => "links",
        }
    }
}


// ── Field maps ──────────────────────────────────────────────────────

/// Index of the first entry named `name`.
pub open spec fn index_of_name(names: Seq<Seq<char>>, name: Seq<char>) -> Option<int>
    decreases names.len(),
{
    if names.len() == 0 {
        None
    } else if names.last() == name {
        match index_of_name(names.drop_last(), name) {
            Some(i) => Some(i),
            None => Some(names.len() - 1),
        }
    } else {
        index_of_name(names.drop_last(), name)
    }
}

pub proof fn lemma_index_of_name(names: Seq<Seq<char>>, name: Seq<char>)
    ensures
        index_of_name(names, name) matches Some(i) ==> 0 <= i < names.len() && names[i] == name
            && forall|k: int| 0 <= k < i ==> names[k] != name,
        index_of_name(names, name) is None ==> forall|k: int| 0 <= k < names.len() ==> names[k] != name,
    decreases names.len(),
{
    if names.len() > 0 {
        let init = names.drop_last();
        lemma_index_of_name(init, name);
        assert forall|k: int| 0 <= k < init.len() implies init[k] == names[k] by {}
    }
}

/// A work item's field values by field name, in insertion order.
#[derive(Debug, Clone)]
pub struct FieldMap {
    entries: Vec<(String, FieldValue)>,
}

impl FieldMap {
    /// The field names, in insertion order.
    pub closed spec fn spec_names(&self) -> Seq<Seq<char>> {
        self.entries@.map_values(|entry: (String, FieldValue)| entry.0@)
    }

    /// The value stored under each name, by position.
    pub closed spec fn spec_values(&self) -> Seq<FieldValueView> {
        self.entries@.map_values(|entry: (String, FieldValue)| entry.1@)
    }

    /// The value stored under `name`.
    pub open spec fn lookup(&self, name: Seq<char>) -> Option<FieldValueView> {
        match index_of_name(self.spec_names(), name) {
            Some(i) => Some(self.spec_values()[i]),
            None => None,
        }
    }

    pub open spec fn has(&self, name: Seq<char>) -> bool {
        self.lookup(name) is Some
    }

    /// An empty map.
    pub fn new() -> (r: Self)
        ensures
            r.spec_names().len() == 0,
            r.spec_values().len() == 0,
            forall|name: Seq<char>| !r.has(name),
    {
        let r = FieldMap { entries: Vec::new() };
        assert(r.spec_names() =~= Seq::<Seq<char>>::empty());
        assert(r.spec_values() =~= Seq::<FieldValueView>::empty());
        r
    }

    /// The value stored under `name`.
    pub fn get(&self, name: &str) -> (r: Option<&FieldValue>)
        ensures
            match r {
                Some(value) => self.lookup(name@) == Some(value@),
                None => self.lookup(name@) is None,
            },
    {
        proof {
            lemma_index_of_name(self.spec_names(), name@);
        }
        let mut i: usize = 0;
        while i < self.entries.len()
            invariant
                i <= self.entries@.len(),
                forall|k: int| 0 <= k < i ==> self.spec_names()[k] != name@,
            decreases self.entries@.len() - i,
        {
            if crate::text::str_eq(self.entries[i].0.as_str(), name) {
                proof {
                    lemma_index_of_name(self.spec_names(), name@);
                    assert(self.spec_names()[i as int] == name@);
                    if let Some(j) = index_of_name(self.spec_names(), name@) {
                        assert(j == i);
                    }
                }
                return Some(&self.entries[i].1);
            }
            i = i + 1;
        }
        None
    }

    /// Whether a value is stored under `name`.
    pub fn contains_key(&self, name: &str) -> (r: bool)
        ensures
            r == self.has(name@),
    {
        self.get(name).is_some()
    }

    /// Store `value` under `name`, replacing any earlier value.
    pub fn insert(&mut self, name: String, value: FieldValue)
        ensures
            final(self).lookup(name@) == Some(value@),
            forall|other: Seq<char>| other != name@ ==> final(self).lookup(other) == old(self).lookup(other),
    {
        proof {
            lemma_index_of_name(self.spec_names(), name@);
        }
        let ghost old_names = self.spec_names();
        let ghost old_values = self.spec_values();
        let ghost key = name@;
        let ghost stored = value@;
        let mut i: usize = 0;
        while i < self.entries.len()
            invariant
                i <= self.entries@.len(),
                self.spec_names() == old_names,
                self.spec_values() == old_values,
                old_names == old(self).spec_names(),
                old_values == old(self).spec_values(),
                key == name@,
                stored == value@,
                forall|k: int| 0 <= k < i ==> old_names[k] != key,
            decreases self.entries@.len() - i,
        {
            if crate::text::str_eq(self.entries[i].0.as_str(), name.as_str()) {
                self.entries.set(i, (name, value));
                proof {
                    assert(old_names[i as int] == key);
                    assert(index_of_name(old_names, key) == Some(i as int)) by {
                        lemma_index_of_name(old_names, key);
                    }
                    assert(self.spec_names() =~= old_names);
                    assert(self.spec_values() =~= old_values.update(i as int, stored));
                    assert forall|other: Seq<char>| other != key implies self.lookup(other)
                        == old(self).lookup(other) by {
                        lemma_index_of_name(old_names, other);
                    }
                }
                return;
            }
            i = i + 1;
        }
        self.entries.push((name, value));
        proof {
            let names = self.spec_names();
            assert(names =~= old_names.push(key));
            assert(self.spec_values() =~= old_values.push(stored));
            assert(names.drop_last() =~= old_names);
            assert(index_of_name(old_names, key) is None) by {
                lemma_index_of_name(old_names, key);
            }
            assert forall|other: Seq<char>| other != key implies self.lookup(other)
                == old(self).lookup(other) by {
                lemma_index_of_name(old_names, other);
                lemma_index_of_name(names, other);
            }
        }
    }

    /// The number of stored entries.
    pub fn len(&self) -> (r: usize)
        ensures
            r == self.spec_names().len(),
            r == self.spec_values().len(),
    {
        self.entries.len()
    }

    /// The entry at position `i`, in insertion order.
    pub fn entry(&self, i: usize) -> (r: (&str, &FieldValue))
        requires
            i < self.spec_names().len(),
        ensures
            r.0@ == self.spec_names()[i as int],
            r.1@ == self.spec_values()[i as int],
    {
        (self.entries[i].0.as_str(), &self.entries[i].1)
    }

    /// The stored names, in insertion order.
    pub fn names(&self) -> (r: Vec<String>)
        ensures
            texts_of(r@) == self.spec_names(),
    {
        let mut out: Vec<String> = Vec::new();
        let mut i: usize = 0;
        while i < self.entries.len()
            invariant
                i <= self.entries@.len(),
                texts_of(out@) == self.spec_names().take(i as int),
            decreases self.entries@.len() - i,
        {
            let name = self.entries[i].0.clone();
            let ghost before = out@;
            out.push(name);
            proof {
                assert(self.spec_names()[i as int] == self.entries@[i as int].0@);
                assert(texts_of(out@) =~= texts_of(before).push(name@));
                assert(self.spec_names().take(i + 1) =~= self.spec_names().take(i as int).push(
                    self.spec_names()[i as int],
                ));
            }
            i = i + 1;
        }
        assert(self.spec_names().take(self.entries@.len() as int) =~= self.spec_names());
        out
    }
}

// ── Work items ──────────────────────────────────────────────────────

/// A work item: one Markdown file, its id and its typed fields.
#[derive(Debug, Clone)]
pub struct WorkItem {
    pub id: WorkItemId,
    pub fields: FieldMap,
    pub body: String,
    pub source_path: String,
}

/// How serious a finding is.
#[derive(Debug, Clone, Copy, PartialEq, Eq, Structural)]
pub enum Severity {
    Error,
    Warning,
}

} // verus!
