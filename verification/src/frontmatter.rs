//! Work item files: the `---`-fenced YAML frontmatter, the Markdown body
//! below it, and the id the file resolves to.

use vstd::prelude::*;

use crate::model::WorkItemId;
use crate::slug::{is_valid_id, spec_is_valid_id};
use crate::text::{
    chars_of, concat, join, join_strings, rfind_char, rfind_char_exec, slice_chars, split,
    split_chars, str_eq, string_of, trim, trim_chars, lemma_last_index_below, lemma_split_nonempty,
};
use crate::yaml::{into_key, key_string, parse_yaml, yaml_as_str, yaml_document, yaml_text, YamlValue};

verus! {

// ── Errors ──────────────────────────────────────────────────────────

/// Why a work item file could not be read as one.
#[derive(Debug)]
pub enum ParseError {
    /// The file could not be read at all.
    ReadFailed { path: String, detail: String },
    /// The first line is not `---`.
    MissingFrontmatter { path: String },
    /// No line closes the frontmatter.
    UnclosedFrontmatter { path: String },
    /// The frontmatter is not valid YAML.
    InvalidYaml { path: String, detail: String },
    /// The frontmatter is a scalar or a list.
    FrontmatterNotMapping { path: String },
    /// The frontmatter's `id` is not a string.
    IdNotString { path: String },
    /// The resolved id is not a valid work item id.
    InvalidId { path: String, id: String },
}

/// The message of a parse error, led by the file's path.
pub open spec fn parse_error_text(error: ParseError) -> Seq<char> {
    match error {
        ParseError::ReadFailed { path, detail } => path@ + ": could not read file: "@ + detail@,
        ParseError::MissingFrontmatter { path } => path@
            + ": missing opening frontmatter delimiter (expected `---` on the first line)"@,
        ParseError::UnclosedFrontmatter { path } => path@
            + ": missing closing frontmatter delimiter (expected `---`)"@,
        ParseError::InvalidYaml { path, detail } => path@ + ": invalid YAML in frontmatter: "@
            + detail@,
        ParseError::FrontmatterNotMapping { path } => path@
            + ": frontmatter must be a YAML mapping, not a scalar or list"@,
        ParseError::IdNotString { path } => path@ + ": frontmatter `id` field must be a string"@,
        ParseError::InvalidId { path, id } => path@ + ": invalid ID '"@ + id@
            + "': must be non-empty, lowercase alphanumeric with hyphens, starting with a letter or digit"@,
    }
}

impl ParseError {
    /// The error's message.
    pub fn to_text(&self) -> (r: String)
        ensures
            r@ == parse_error_text(*self),
    {
        match self {
            ParseError::ReadFailed { path, detail } => {
                let head = concat(path.as_str(), ": could not read file: ");
                concat(head.as_str(), detail.as_str())
            },
            ParseError::MissingFrontmatter { path } => concat(
                path.as_str(),
                ": missing opening frontmatter delimiter (expected `---` on the first line)",
            ),
            ParseError::UnclosedFrontmatter { path } => concat(
                path.as_str(),
                ": missing closing frontmatter delimiter (expected `---`)",
            ),
            ParseError::InvalidYaml { path, detail } => {
                let head = concat(path.as_str(), ": invalid YAML in frontmatter: ");
                concat(head.as_str(), detail.as_str())
            },
            ParseError::FrontmatterNotMapping { path } => concat(
                path.as_str(),
                ": frontmatter must be a YAML mapping, not a scalar or list",
            ),
            ParseError::IdNotString { path } => concat(
                path.as_str(),
                ": frontmatter `id` field must be a string",
            ),
            ParseError::InvalidId { path, id } => {
                let head = concat(path.as_str(), ": invalid ID '");
                let with_id = concat(head.as_str(), id.as_str());
                concat(
                    with_id.as_str(),
                    "': must be non-empty, lowercase alphanumeric with hyphens, starting with a letter or digit",
                )
            },
        }
    }
}

// ── The fences ──────────────────────────────────────────────────────

/// A line that opens or closes the frontmatter: `---`, surrounding
/// whitespace aside.
pub open spec fn is_fence(line: Seq<char>) -> bool {
    trim(line) == "---"@
}

/// The first fence line at or after `i`.
pub open spec fn fence_from(lines: Seq<Seq<char>>, i: int) -> Option<int>
    decreases lines.len() - i,
{
    if i < 0 || i >= lines.len() {
        None
    } else if is_fence(lines[i]) {
        Some(i)
    } else {
        fence_from(lines, i + 1)
    }
}

/// How a file's text divides at its fences.
pub enum Fenced {
    /// The first line is not a fence.
    NoOpening,
    /// No later line is a fence.
    NoClosing,
    /// The lines between the fences, and everything after the closing one.
    Parts { yaml: Seq<char>, body: Seq<char> },
}

/// The division of `content` at its fences: the frontmatter is the lines
/// between the first line and the next fence line, the body everything
/// after that fence's line.
pub open spec fn fenced(content: Seq<char>) -> Fenced {
    let lines = split(content, '\n');
    if !is_fence(lines[0]) {
        Fenced::NoOpening
    } else {
        match fence_from(lines, 1) {
            None => Fenced::NoClosing,
            Some(k) => Fenced::Parts {
                yaml: join(lines.subrange(1, k), "\n"@),
                body: join(lines.subrange(k + 1, lines.len() as int), "\n"@),
            },
        }
    }
}

/// The entries of a mapping whose keys are strings, in order.
pub open spec fn named_entries(entries: Seq<(YamlValue, YamlValue)>) -> Seq<(String, YamlValue)>
    decreases entries.len(),
{
    if entries.len() == 0 {
        Seq::empty()
    } else {
        let init = named_entries(entries.drop_last());
        match key_string(entries.last().0) {
            Some(key) => init.push((key, entries.last().1)),
            None => init,
        }
    }
}

/// The frontmatter a document stands for: a mapping's string-keyed
/// entries, nothing for an empty document, and no frontmatter for anything
/// else.
pub open spec fn frontmatter_of(document: YamlValue) -> Option<Seq<(String, YamlValue)>> {
    match document {
        YamlValue::Mapping(entries) => Some(named_entries(entries@)),
        YamlValue::Null => Some(Seq::empty()),
        _ => None,
    }
}

/// Why a file's text does not divide into frontmatter and body.
pub enum SplitFailure {
    NoOpening,
    NoClosing,
    BadYaml(Seq<char>),
    NotMapping,
}

/// The frontmatter entries and body of a file's text, or why there are none.
pub open spec fn split_outcome(content: Seq<char>) -> Result<(Seq<(String, YamlValue)>, Seq<char>), SplitFailure> {
    match fenced(content) {
        Fenced::NoOpening => Err(SplitFailure::NoOpening),
        Fenced::NoClosing => Err(SplitFailure::NoClosing),
        Fenced::Parts { yaml, body } => match yaml_document(yaml) {
            Err(detail) => Err(SplitFailure::BadYaml(detail)),
            Ok(document) => match frontmatter_of(document) {
                Some(entries) => Ok((entries, body)),
                None => Err(SplitFailure::NotMapping),
            },
        },
    }
}

/// The path an error names.
pub open spec fn error_path(error: ParseError) -> Seq<char> {
    match error {
        ParseError::ReadFailed { path, .. } => path@,
        ParseError::MissingFrontmatter { path } => path@,
        ParseError::UnclosedFrontmatter { path } => path@,
        ParseError::InvalidYaml { path, .. } => path@,
        ParseError::FrontmatterNotMapping { path } => path@,
        ParseError::IdNotString { path } => path@,
        ParseError::InvalidId { path, .. } => path@,
    }
}

/// Whether `error` is the one a split failure is reported as.
pub open spec fn reports(error: ParseError, failure: SplitFailure) -> bool {
    match failure {
        SplitFailure::NoOpening => error is MissingFrontmatter,
        SplitFailure::NoClosing => error is UnclosedFrontmatter,
        SplitFailure::BadYaml(detail) => error matches ParseError::InvalidYaml { detail: d, .. }
            && d@ == detail,
        SplitFailure::NotMapping => error is FrontmatterNotMapping,
    }
}

fn is_fence_line(line: &[char]) -> (r: bool)
    ensures
        r == is_fence(line@),
{
    let t = trim_chars(line);
    proof {
        reveal_strlit("---");
        assert("---"@ =~= seq!['-', '-', '-']);
    }
    let r = t.len() == 3 && t[0] == '-' && t[1] == '-' && t[2] == '-';
    proof {
        if r {
            assert(t@ =~= "---"@);
        }
    }
    r
}

/// The lines `from..to` joined with newlines.
fn join_lines(lines: &Vec<Vec<char>>, from: usize, to: usize) -> (r: String)
    requires
        from <= to <= lines@.len(),
    ensures
        r@ == join(lines@.map_values(|l: Vec<char>| l@).subrange(from as int, to as int), "\n"@),
{
    let mut parts: Vec<String> = Vec::new();
    let mut i = from;
    while i < to
        invariant
            from <= i <= to <= lines@.len(),
            parts@.len() == i - from,
            forall|k: int| 0 <= k < parts@.len() ==> (#[trigger] parts@[k])@ == lines@[from + k]@,
        decreases to - i,
    {
        parts.push(string_of(lines[i].as_slice()));
        i = i + 1;
    }
    let r = join_strings(parts.as_slice(), "\n");
    assert(parts@.map_values(|p: String| p@) =~= lines@.map_values(|l: Vec<char>| l@).subrange(
        from as int,
        to as int,
    ));
    r
}

/// A mapping's string-keyed entries, in order.
fn keep_named(entries: Vec<(YamlValue, YamlValue)>) -> (r: Vec<(String, YamlValue)>)
    ensures
        r@ == named_entries(entries@),
{
    let ghost all = entries@;
    let mut rest = entries;
    let mut out: Vec<(String, YamlValue)> = Vec::new();
    let mut done: usize = 0;
    let total = rest.len();
    assert(all.take(0) =~= Seq::<(YamlValue, YamlValue)>::empty());
    while rest.len() > 0
        invariant
            done + rest@.len() == all.len(),
            all.len() == total,
            rest@ == all.skip(done as int),
            out@ == named_entries(all.take(done as int)),
        decreases rest@.len(),
    {
        let (key, value) = rest.remove(0);
        proof {
            assert(all.take(done + 1).drop_last() =~= all.take(done as int));
            assert(all.take(done + 1).last() == all[done as int]);
        }
        match into_key(key) {
            Some(name) => out.push((name, value)),
            None => {},
        }
        done = done + 1;
        assert(rest@ =~= all.skip(done as int));
    }
    assert(all.take(done as int) =~= all);
    out
}

/// The frontmatter of a parsed document: its string-keyed entries when it
/// is a mapping, none when it is empty, and `None` for anything else.
pub fn frontmatter_entries(document: YamlValue) -> (r: Option<Vec<(String, YamlValue)>>)
    ensures
        match r {
            Some(entries) => frontmatter_of(document) == Some(entries@),
            None => frontmatter_of(document) is None,
        },
{
    match document {
        YamlValue::Mapping(entries) => Some(keep_named(entries)),
        YamlValue::Null => Some(Vec::new()),
        _ => None,
    }
}

/// Split a file's text into its frontmatter entries and its body: the
/// first line must be `---`, the frontmatter runs to the next `---` line
/// and must be a YAML mapping (or empty), the body is everything after.
/// `path` only names the file in errors.
pub fn split_frontmatter(content: &str, path: &str) -> (r: Result<(Vec<(String, YamlValue)>, String), ParseError>)
    ensures
        match r {
            Ok((entries, body)) => split_outcome(content@) == Ok::<(Seq<(String, YamlValue)>, Seq<char>), SplitFailure>((entries@, body@)),
            Err(error) => split_outcome(content@) matches Err(failure) && reports(error, failure)
                && error_path(error) == path@,
        },
{
    let chars = chars_of(content);
    let lines = split_chars(chars.as_slice(), '\n');
    let ghost views = lines@.map_values(|l: Vec<char>| l@);
    proof {
        lemma_split_nonempty(content@, '\n');
    }
    assert(views.len() == lines@.len());
    if !is_fence_line(lines[0].as_slice()) {
        return Err(ParseError::MissingFrontmatter { path: path.to_owned() });
    }
    let mut k: usize = 1;
    while k < lines.len() && !is_fence_line(lines[k].as_slice())
        invariant
            1 <= k <= lines@.len(),
            views == lines@.map_values(|l: Vec<char>| l@),
            views == split(content@, '\n'),
            fence_from(views, k as int) == fence_from(views, 1),
        decreases lines@.len() - k,
    {
        k = k + 1;
    }
    if k >= lines.len() {
        return Err(ParseError::UnclosedFrontmatter { path: path.to_owned() });
    }
    let yaml = join_lines(&lines, 1, k);
    let body = join_lines(&lines, k + 1, lines.len());
    match parse_yaml(yaml.as_str()) {
        Err(detail) => Err(ParseError::InvalidYaml { path: path.to_owned(), detail }),
        Ok(document) => match frontmatter_entries(document) {
            Some(entries) => Ok((entries, body)),
            None => Err(ParseError::FrontmatterNotMapping { path: path.to_owned() }),
        },
    }
}

// ── Work items ──────────────────────────────────────────────────────

/// A work item file as read, before its fields are typed: its resolved id,
/// its frontmatter entries other than `id` in document order, its body and
/// its path.
#[derive(Debug)]
pub struct RawWorkItem {
    pub id: WorkItemId,
    pub frontmatter: Vec<(String, YamlValue)>,
    pub body: String,
    pub source_path: String,
}

/// Index of the first entry named `name`.
pub open spec fn first_named(entries: Seq<(String, YamlValue)>, name: Seq<char>) -> Option<int>
    decreases entries.len(),
{
    if entries.len() == 0 {
        None
    } else {
        match first_named(entries.drop_last(), name) {
            Some(i) => Some(i),
            None => if entries.last().0@ == name {
                Some(entries.len() - 1)
            } else {
                None
            },
        }
    }
}

pub proof fn lemma_first_named(entries: Seq<(String, YamlValue)>, name: Seq<char>)
    ensures
        first_named(entries, name) matches Some(i) ==> 0 <= i < entries.len() && entries[i].0@ == name
            && forall|k: int| 0 <= k < i ==> entries[k].0@ != name,
        first_named(entries, name) is None ==> forall|k: int|
            0 <= k < entries.len() ==> entries[k].0@ != name,
    decreases entries.len(),
{
    if entries.len() > 0 {
        let init = entries.drop_last();
        lemma_first_named(init, name);
        assert forall|k: int| 0 <= k < init.len() implies init[k] == entries[k] by {}
    }
}

/// Index of the first entry named `name`.
pub fn find_entry(entries: &Vec<(String, YamlValue)>, name: &str) -> (r: Option<usize>)
    ensures
        match r {
            Some(i) => first_named(entries@, name@) == Some(i as int),
            None => first_named(entries@, name@) is None,
        },
{
    proof {
        lemma_first_named(entries@, name@);
    }
    let mut i: usize = 0;
    while i < entries.len()
        invariant
            i <= entries@.len(),
            forall|k: int| 0 <= k < i ==> entries@[k].0@ != name@,
        decreases entries@.len() - i,
    {
        if str_eq(entries[i].0.as_str(), name) {
            proof {
                lemma_first_named(entries@, name@);
                if let Some(j) = first_named(entries@, name@) {
                    assert(j == i);
                }
            }
            return Some(i);
        }
        i = i + 1;
    }
    None
}

/// The entries not named `name`, in order.
pub open spec fn without_named(entries: Seq<(String, YamlValue)>, name: Seq<char>) -> Seq<(String, YamlValue)>
    decreases entries.len(),
{
    if entries.len() == 0 {
        Seq::empty()
    } else {
        let init = without_named(entries.drop_last(), name);
        if entries.last().0@ == name {
            init
        } else {
            init.push(entries.last())
        }
    }
}

/// The last `/`-separated component of a path.
pub open spec fn file_name(path: Seq<char>) -> Seq<char> {
    match rfind_char(path, '/') {
        Some(p) => path.skip(p + 1),
        None => path,
    }
}

/// A path's file name without its extension (`Path::file_stem`): the name
/// up to its last `.`, unless that dot opens the name; `..` has none.
pub open spec fn file_stem(path: Seq<char>) -> Seq<char> {
    let name = file_name(path);
    if name == ".."@ {
        Seq::empty()
    } else {
        match rfind_char(name, '.') {
            Some(p) => if p > 0 {
                name.take(p)
            } else {
                name
            },
            None => name,
        }
    }
}

/// The id a file resolves to: its frontmatter `id` when it sets one (none
/// when that is not a string), otherwise its file stem.
pub open spec fn resolved_id(entries: Seq<(String, YamlValue)>, path: Seq<char>) -> Option<Seq<char>> {
    match first_named(entries, "id"@) {
        Some(i) => yaml_text(entries[i].1),
        None => Some(file_stem(path)),
    }
}

/// A path's file stem.
pub fn path_file_stem(path: &str) -> (r: String)
    ensures
        r@ == file_stem(path@),
{
    let chars = chars_of(path);
    proof {
        lemma_last_index_below(path@, '/', path@.len() as int);
    }
    let name = match rfind_char_exec(chars.as_slice(), '/') {
        Some(p) => {
            assert(chars@ == path@);
            assert(rfind_char(path@, '/') == Some(p as int));
            assert(p < chars.len());
            slice_chars(chars.as_slice(), p + 1, chars.len())
        },
        None => chars,
    };
    assert(name@ == file_name(path@));
    proof {
        reveal_strlit("..");
        assert(".."@ =~= seq!['.', '.']);
    }
    if name.len() == 2 && name[0] == '.' && name[1] == '.' {
        assert(name@ =~= ".."@);
        return String::new();
    }
    assert(name@ != ".."@) by {
        if name@ == ".."@ {
            assert(name@.len() == 2);
        }
    }
    proof {
        lemma_last_index_below(name@, '.', name@.len() as int);
    }
    match rfind_char_exec(name.as_slice(), '.') {
        Some(p) => if p > 0 {
            let stem = slice_chars(name.as_slice(), 0, p);
            assert(stem@ =~= name@.take(p as int));
            string_of(stem.as_slice())
        } else {
            string_of(name.as_slice())
        },
        None => string_of(name.as_slice()),
    }
}

/// The frontmatter without its `id` entries, and the first `id` entry's
/// text (`Some(None)` when it is not a string).
fn take_id(entries: Vec<(String, YamlValue)>) -> (r: (Vec<(String, YamlValue)>, Option<Option<String>>))
    ensures
        r.0@ == without_named(entries@, "id"@),
        match first_named(entries@, "id"@) {
            Some(i) => r.1 matches Some(text) && match text {
                Some(t) => yaml_text(entries@[i].1) == Some(t@),
                None => yaml_text(entries@[i].1) is None,
            },
            None => r.1 is None,
        },
{
    let ghost all = entries@;
    let mut rest = entries;
    let mut kept: Vec<(String, YamlValue)> = Vec::new();
    let mut found: Option<Option<String>> = None;
    let mut done: usize = 0;
    let total = rest.len();
    assert(all.take(0) =~= Seq::<(String, YamlValue)>::empty());
    while rest.len() > 0
        invariant
            done + rest@.len() == all.len(),
            all.len() == total,
            rest@ == all.skip(done as int),
            kept@ == without_named(all.take(done as int), "id"@),
            match first_named(all.take(done as int), "id"@) {
                Some(i) => 0 <= i < done && (found matches Some(text) && match text {
                    Some(t) => yaml_text(all[i].1) == Some(t@),
                    None => yaml_text(all[i].1) is None,
                }),
                None => found is None,
            },
        decreases rest@.len(),
    {
        let (key, value) = rest.remove(0);
        let ghost prefix = all.take(done + 1);
        proof {
            assert(prefix.drop_last() =~= all.take(done as int));
            assert(prefix.last() == all[done as int]);
            if let Some(i) = first_named(all.take(done as int), "id"@) {
                assert(prefix[i] == all[i]);
            }
        }
        if str_eq(key.as_str(), "id") {
            if found.is_none() {
                found = match yaml_as_str(&value) {
                    Some(text) => Some(Some(text.to_owned())),
                    None => Some(None),
                };
            }
        } else {
            kept.push((key, value));
        }
        done = done + 1;
        assert(rest@ =~= all.skip(done as int));
    }
    assert(all.take(done as int) =~= all);
    (kept, found)
}

/// Read a work item file's text: split it into frontmatter and body, and
/// resolve its id from the frontmatter's `id` (which must be a string and
/// is removed from the frontmatter) or else from the file stem of `path`.
/// The id must be a valid work item id.
pub fn parse_work_item(content: &str, path: &str) -> (r: Result<RawWorkItem, ParseError>)
    ensures
        match r {
            Ok(item) => split_outcome(content@) matches Ok((entries, body))
                && resolved_id(entries, path@) == Some(item.id@)
                && spec_is_valid_id(item.id@)
                && item.frontmatter@ == without_named(entries, "id"@)
                && item.body@ == body
                && item.source_path@ == path@,
            Err(error) => error_path(error) == path@ && match split_outcome(content@) {
                Err(failure) => reports(error, failure),
                Ok((entries, _)) => match resolved_id(entries, path@) {
                    None => error is IdNotString,
                    Some(id) => !spec_is_valid_id(id) && (error matches ParseError::InvalidId { id: e, .. }
                        && e@ == id),
                },
            },
        },
{
    let (entries, body) = match split_frontmatter(content, path) {
        Ok(parts) => parts,
        Err(error) => return Err(error),
    };
    let ghost all = entries@;
    proof {
        reveal_strlit("id");
    }
    let (frontmatter, found) = take_id(entries);
    let id_text = match found {
        Some(Some(text)) => text,
        Some(None) => return Err(ParseError::IdNotString { path: path.to_owned() }),
        None => path_file_stem(path),
    };
    if !is_valid_id(id_text.as_str()) {
        return Err(ParseError::InvalidId { path: path.to_owned(), id: id_text });
    }
    Ok(RawWorkItem {
        id: WorkItemId::new(id_text),
        frontmatter,
        body,
        source_path: path.to_owned(),
    })
}

/// The message reading a file's text as a work item fails with, when it
/// fails.
pub open spec fn failure_message(content: Seq<char>, path: Seq<char>) -> Option<Seq<char>> {
    match split_outcome(content) {
        Err(SplitFailure::NoOpening) => Some(path
            + ": missing opening frontmatter delimiter (expected `---` on the first line)"@),
        Err(SplitFailure::NoClosing) => Some(path
            + ": missing closing frontmatter delimiter (expected `---`)"@),
        Err(SplitFailure::BadYaml(detail)) => Some(path + ": invalid YAML in frontmatter: "@ + detail),
        Err(SplitFailure::NotMapping) => Some(path
            + ": frontmatter must be a YAML mapping, not a scalar or list"@),
        Ok((entries, _)) => match resolved_id(entries, path) {
            None => Some(path + ": frontmatter `id` field must be a string"@),
            Some(id) => if spec_is_valid_id(id) {
                None
            } else {
                Some(path + ": invalid ID '"@ + id
                    + "': must be non-empty, lowercase alphanumeric with hyphens, starting with a letter or digit"@)
            },
        },
    }
}

/// A path's extension (`Path::extension`): what follows the file name's
/// last `.`, unless that dot opens the name.
pub open spec fn file_extension(path: Seq<char>) -> Option<Seq<char>> {
    let name = file_name(path);
    if name == ".."@ {
        None
    } else {
        match rfind_char(name, '.') {
            Some(p) => if p > 0 {
                Some(name.skip(p + 1))
            } else {
                None
            },
            None => None,
        }
    }
}

/// Whether a path names a work item file: its extension is `md`.
pub fn is_item_file(path: &str) -> (r: bool)
    ensures
        r == (file_extension(path@) == Some("md"@)),
{
    let chars = chars_of(path);
    proof {
        lemma_last_index_below(path@, '/', path@.len() as int);
        reveal_strlit("..");
        reveal_strlit("md");
        assert(".."@ =~= seq!['.', '.']);
        assert("md"@ =~= seq!['m', 'd']);
    }
    let name = match rfind_char_exec(chars.as_slice(), '/') {
        Some(p) => {
            assert(chars@ == path@);
            assert(p < chars.len());
            slice_chars(chars.as_slice(), p + 1, chars.len())
        },
        None => chars,
    };
    assert(name@ == file_name(path@));
    if name.len() == 2 && name[0] == '.' && name[1] == '.' {
        assert(name@ =~= ".."@);
        return false;
    }
    assert(name@ != ".."@) by {
        if name@ == ".."@ {
            assert(name@.len() == 2);
        }
    }
    proof {
        lemma_last_index_below(name@, '.', name@.len() as int);
    }
    match rfind_char_exec(name.as_slice(), '.') {
        Some(p) => if p > 0 {
            let n = name.len();
            assert(p < n);
            let r = n - p == 3 && name[p + 1] == 'm' && name[p + 2] == 'd';
            proof {
                if r {
                    assert(name@.skip(p + 1) =~= "md"@);
                } else if name@.skip(p + 1) == "md"@ {
                    assert(name@.skip(p + 1).len() == 2);
                    assert(name@.skip(p + 1)[0] == name@[p + 1]);
                    assert(name@.skip(p + 1)[1] == name@[p + 2]);
                }
            }
            r
        } else {
            false
        },
        None => false,
    }
}

/// The message of a parse error is the one its file's text fails with.
pub proof fn lemma_failure_message(content: Seq<char>, path: Seq<char>, error: ParseError)
    requires
        error_path(error) == path,
        match split_outcome(content) {
            Err(failure) => reports(error, failure),
            Ok((entries, _)) => match resolved_id(entries, path) {
                None => error is IdNotString,
                Some(id) => !spec_is_valid_id(id) && (error matches ParseError::InvalidId { id: e, .. }
                    && e@ == id),
            },
        },
    ensures
        failure_message(content, path) == Some(parse_error_text(error)),
{
}

// ── Templates ───────────────────────────────────────────────────────

/// A template file: its frontmatter with `id` kept as written (generator
/// tokens such as `$uuid` are resolved when an item is added), its body,
/// and its path.
#[derive(Debug)]
pub struct Template {
    pub frontmatter: Vec<(String, YamlValue)>,
    pub body: String,
    pub path: String,
}

/// Read a template file's text: the work item file shape, with nothing
/// resolved.
pub fn parse_template_content(content: &str, path: &str) -> (r: Result<Template, ParseError>)
    ensures
        match r {
            Ok(template) => split_outcome(content@) == Ok::<(Seq<(String, YamlValue)>, Seq<char>), SplitFailure>(
                (template.frontmatter@, template.body@),
            ) && template.path@ == path@,
            Err(error) => split_outcome(content@) matches Err(failure) && reports(error, failure)
                && error_path(error) == path@,
        },
{
    match split_frontmatter(content, path) {
        Ok((frontmatter, body)) => Ok(Template { frontmatter, body, path: path.to_owned() }),
        Err(error) => Err(error),
    }
}

} // verus!
