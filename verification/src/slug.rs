//! Kebab-case slug derivation, shared by a work item's filename slug and a
//! view's id so both follow the same rule. The result is always a valid id
//! per [`is_valid_id`].

use vstd::prelude::*;

use crate::text::{chars_of, join, push_char};

verus! {

// ── Ids ─────────────────────────────────────────────────────────────

pub open spec fn is_lower_alnum(c: char) -> bool {
    ('a' <= c && c <= 'z') || ('0' <= c && c <= '9')
}

pub open spec fn is_ascii_alnum(c: char) -> bool {
    ('a' <= c && c <= 'z') || ('A' <= c && c <= 'Z') || ('0' <= c && c <= '9')
}

/// A work item id (kebab-case): non-empty, lowercase alphanumeric with
/// hyphens, starting with a letter or digit and not ending in a hyphen.
pub open spec fn spec_is_valid_id(id: Seq<char>) -> bool {
    id.len() > 0 && is_lower_alnum(id[0]) && id[id.len() - 1] != '-' && forall|i: int|
        0 <= i < id.len() ==> (is_lower_alnum(#[trigger] id[i]) || id[i] == '-')
}

/// Whether `id` is a valid work item id.
pub fn is_valid_id(id: &str) -> (r: bool)
    ensures
        r == spec_is_valid_id(id@),
{
    let chars = chars_of(id);
    if chars.len() == 0 {
        return false;
    }
    let first = chars[0];
    if !(('a' <= first && first <= 'z') || ('0' <= first && first <= '9')) {
        return false;
    }
    if chars[chars.len() - 1] == '-' {
        return false;
    }
    let mut i: usize = 0;
    while i < chars.len()
        invariant
            i <= chars@.len(),
            chars@ == id@,
            forall|k: int| 0 <= k < i ==> (is_lower_alnum(#[trigger] chars@[k]) || chars@[k] == '-'),
        decreases chars@.len() - i,
    {
        let c = chars[i];
        if !(('a' <= c && c <= 'z') || ('0' <= c && c <= '9') || c == '-') {
            return false;
        }
        i = i + 1;
    }
    true
}

// ── Slugs ───────────────────────────────────────────────────────────

/// The maximal runs of ASCII alphanumerics in `s`, left to right.
pub open spec fn words(s: Seq<char>) -> Seq<Seq<char>>
    decreases s.len(),
{
    if s.len() == 0 {
        Seq::empty()
    } else {
        let before = words(s.drop_last());
        let c = s.last();
        if !is_ascii_alnum(c) {
            before
        } else if s.len() >= 2 && is_ascii_alnum(s[s.len() - 2]) {
            before.drop_last().push(before.last().push(c))
        } else {
            before.push(seq![c])
        }
    }
}

/// The slug of an already lowercased name: its alphanumeric runs joined by
/// single hyphens (everything else becomes a hyphen, runs of hyphens
/// collapse, and hyphens at either end are dropped).
pub open spec fn slug_text(lowered: Seq<char>) -> Seq<char> {
    join(words(lowered), seq!['-'])
}

/// Unicode lowercasing (`str::to_lowercase`).
pub uninterp spec fn lowercase(s: Seq<char>) -> Seq<char>;

/// No ASCII uppercase letter occurs in `s`.
pub open spec fn no_ascii_upper(s: Seq<char>) -> bool {
    forall|i: int| 0 <= i < s.len() ==> !('A' <= #[trigger] s[i] && s[i] <= 'Z')
}

/// `str::to_lowercase`. The contract names its result and claims that it
/// holds no ASCII uppercase letter (every character is replaced by its
/// lowercase mapping, and no such mapping is an ASCII capital); the
/// mapping itself (Unicode's lowercase property, which can change the
/// length) is not restated.
#[verifier::external_body]
fn to_lowercase(s: &str) -> (r: String)
    ensures
        r@ == lowercase(s@),
        no_ascii_upper(r@),
{
    s.to_lowercase()
}

/// A name that can't be reduced to a valid id (e.g. it has no
/// alphanumeric characters).
#[derive(Debug, Clone)]
pub struct SlugError {
    pub input: String,
    pub reason: String,
}

/// The facts `words` keeps: every word is non-empty and alphanumeric, and
/// the last word is open exactly when the last character is alphanumeric.
proof fn lemma_words(s: Seq<char>)
    ensures
        forall|i: int| 0 <= i < words(s).len() ==> (#[trigger] words(s)[i]).len() > 0,
        forall|i: int, j: int|
            0 <= i < words(s).len() && 0 <= j < words(s)[i].len() ==> is_ascii_alnum(
                #[trigger] words(s)[i][j],
            ),
        s.len() > 0 && is_ascii_alnum(s.last()) ==> words(s).len() > 0,
    decreases s.len(),
{
    if s.len() > 0 {
        lemma_words(s.drop_last());
        let before = words(s.drop_last());
        let c = s.last();
        if is_ascii_alnum(c) && s.len() >= 2 && is_ascii_alnum(s[s.len() - 2]) {
            assert(s.drop_last().last() == s[s.len() - 2]);
            let w = words(s);
            assert forall|i: int| 0 <= i < w.len() implies (#[trigger] w[i]).len() > 0 by {
                if i < w.len() - 1 {
                    assert(w[i] == before[i]);
                }
            }
            assert forall|i: int, j: int|
                0 <= i < w.len() && 0 <= j < w[i].len() implies is_ascii_alnum(#[trigger] w[i][j]) by {
                if i < w.len() - 1 {
                    assert(w[i] == before[i]);
                } else {
                    assert(w[i] == before.last().push(c));
                    if j < before.last().len() {
                        assert(before.last() == before[before.len() - 1]);
                        assert(w[i][j] == before[before.len() - 1][j]);
                    }
                }
            }
        } else if is_ascii_alnum(c) {
            let w = words(s);
            assert forall|i: int| 0 <= i < w.len() implies (#[trigger] w[i]).len() > 0 by {
                if i < w.len() - 1 {
                    assert(w[i] == before[i]);
                }
            }
            assert forall|i: int, j: int|
                0 <= i < w.len() && 0 <= j < w[i].len() implies is_ascii_alnum(#[trigger] w[i][j]) by {
                if i < w.len() - 1 {
                    assert(w[i] == before[i]);
                }
            }
        }
    }
}

/// How the join of the words grows with one more character.
proof fn lemma_slug_step(s: Seq<char>, c: char)
    ensures
        slug_text(s.push(c)) == (if !is_ascii_alnum(c) {
            slug_text(s)
        } else if s.len() > 0 && is_ascii_alnum(s.last()) {
            slug_text(s).push(c)
        } else if words(s).len() > 0 {
            slug_text(s) + seq!['-', c]
        } else {
            seq![c]
        }),
{
    let t = s.push(c);
    assert(t.drop_last() =~= s);
    let before = words(s);
    lemma_words(s);
    if is_ascii_alnum(c) {
        if s.len() > 0 && is_ascii_alnum(s.last()) {
            assert(t[t.len() - 2] == s.last());
            let w = words(t);
            assert(w == before.drop_last().push(before.last().push(c)));
            if before.len() == 1 {
                assert(w =~= seq![before[0].push(c)]);
            } else {
                assert(w.drop_last() =~= before.drop_last());
                assert(join(before, seq!['-']) == join(before.drop_last(), seq!['-']) + seq!['-']
                    + before.last());
                assert(join(w, seq!['-']) =~= join(before, seq!['-']).push(c));
            }
        } else {
            if s.len() > 0 {
                assert(t[t.len() - 2] == s.last());
            }
            let w = words(t);
            assert(w == before.push(seq![c]));
            assert(w.drop_last() =~= before);
            if before.len() == 0 {
                assert(w =~= seq![seq![c]]);
            }
        }
    }
}

/// The slug of an already lowercased name, or why there is none: nothing
/// alphanumeric remains, or the result is not a valid id.
pub open spec fn spec_slug_of_lowered(lowered: Seq<char>) -> Option<Seq<char>> {
    let slug = slug_text(lowered);
    if slug.len() == 0 || !spec_is_valid_id(slug) {
        None
    } else {
        Some(slug)
    }
}

/// Convert an already lowercased name into a valid kebab-case id:
/// non-alphanumeric characters become hyphens, consecutive hyphens
/// collapse, leading/trailing hyphens are stripped. Fails when nothing
/// alphanumeric remains. `input` is the name as the user wrote it, carried
/// into the error.
pub fn slugify_lowered(input: &str, lowered: &str) -> (r: Result<String, SlugError>)
    ensures
        match r {
            Ok(slug) => spec_slug_of_lowered(lowered@) == Some(slug@),
            Err(error) => spec_slug_of_lowered(lowered@) is None && error.input@ == input@,
        },
{
    let chars = chars_of(lowered);
    let mut out = String::new();
    let mut i: usize = 0;
    proof {
        assert(chars@.take(0) =~= Seq::<char>::empty());
    }
    while i < chars.len()
        invariant
            i <= chars@.len(),
            chars@ == lowered@,
            out@ == slug_text(chars@.take(i as int)),
        decreases chars@.len() - i,
    {
        let c = chars[i];
        let alnum = ('a' <= c && c <= 'z') || ('A' <= c && c <= 'Z') || ('0' <= c && c <= '9');
        let previous_alnum = i > 0 && {
            let p = chars[i - 1];
            ('a' <= p && p <= 'z') || ('A' <= p && p <= 'Z') || ('0' <= p && p <= '9')
        };
        proof {
            lemma_slug_step(chars@.take(i as int), c);
            assert(chars@.take(i + 1) =~= chars@.take(i as int).push(c));
            if i > 0 {
                assert(chars@.take(i as int).last() == chars@[i - 1]);
            }
            lemma_words(chars@.take(i as int));
        }
        if alnum {
            if !previous_alnum && !out.as_str().is_empty() {
                push_char(&mut out, '-');
            }
            push_char(&mut out, c);
            proof {
                if !previous_alnum {
                    if words(chars@.take(i as int)).len() > 0 {
                        lemma_slug_nonempty(chars@.take(i as int));
                    } else {
                        assert(slug_text(chars@.take(i as int)) =~= Seq::<char>::empty());
                    }
                }
            }
        }
        i = i + 1;
    }
    assert(chars@.take(chars@.len() as int) =~= chars@);
    if out.as_str().is_empty() || !is_valid_id(out.as_str()) {
        return Err(
            SlugError {
                input: input.to_owned(),
                reason: "must contain at least one alphanumeric character".to_owned(),
            },
        );
    }
    Ok(out)
}

/// A non-empty word list joins to a non-empty slug.
proof fn lemma_slug_nonempty(s: Seq<char>)
    requires
        words(s).len() > 0,
    ensures
        slug_text(s).len() > 0,
{
    lemma_words(s);
    lemma_join_nonempty(words(s));
}

proof fn lemma_join_nonempty(parts: Seq<Seq<char>>)
    requires
        parts.len() > 0,
        forall|i: int| 0 <= i < parts.len() ==> (#[trigger] parts[i]).len() > 0,
    ensures
        join(parts, seq!['-']).len() > 0,
    decreases parts.len(),
{
    assert(parts[parts.len() - 1].len() > 0);
    assert(parts.last() == parts[parts.len() - 1]);
}

/// The slug of a name, or why there is none.
pub open spec fn spec_slugify(input: Seq<char>) -> Option<Seq<char>> {
    spec_slug_of_lowered(lowercase(input))
}

/// Convert a human name into a valid kebab-case id.
///
/// Rules: lowercase, non-alphanumeric replaced with hyphens, consecutive
/// hyphens collapsed, leading/trailing hyphens stripped. Leading digits are
/// preserved. Fails when nothing alphanumeric remains.
pub fn slugify(input: &str) -> (r: Result<String, SlugError>)
    ensures
        match r {
            Ok(slug) => spec_slugify(input@) == Some(slug@),
            Err(error) => spec_slugify(input@) is None && error.input@ == input@,
        },
        r is Ok <==> words(lowercase(input@)).len() > 0,
        r matches Ok(slug) ==> slug@ == join(words(lowercase(input@)), seq!['-']) && spec_is_valid_id(slug@),
{
    let lowered = to_lowercase(input);
    proof {
        lemma_slug_of_lowercase(lowered@);
    }
    slugify_lowered(input, lowered.as_str())
}

/// Without ASCII capitals, every word is lowercase alphanumeric.
proof fn lemma_words_lower(s: Seq<char>)
    requires
        no_ascii_upper(s),
    ensures
        forall|i: int, j: int|
            0 <= i < words(s).len() && 0 <= j < words(s)[i].len() ==> is_lower_alnum(
                #[trigger] words(s)[i][j],
            ),
    decreases s.len(),
{
    if s.len() > 0 {
        let t = s.drop_last();
        assert(no_ascii_upper(t)) by {
            assert forall|i: int| 0 <= i < t.len() implies !('A' <= #[trigger] t[i] && t[i] <= 'Z') by {
                assert(t[i] == s[i]);
            }
        }
        lemma_words_lower(t);
        lemma_words(s);
        let before = words(t);
        let c = s.last();
        assert(!('A' <= s[s.len() - 1] && s[s.len() - 1] <= 'Z'));
        let w = words(s);
        if is_ascii_alnum(c) && s.len() >= 2 && is_ascii_alnum(s[s.len() - 2]) {
            assert(t.last() == s[s.len() - 2]);
            assert forall|i: int, j: int|
                0 <= i < w.len() && 0 <= j < w[i].len() implies is_lower_alnum(#[trigger] w[i][j]) by {
                if i < w.len() - 1 {
                    assert(w[i] == before[i]);
                } else {
                    assert(w[i] == before.last().push(c));
                    if j < before.last().len() {
                        assert(before.last() == before[before.len() - 1]);
                        assert(w[i][j] == before[before.len() - 1][j]);
                    }
                }
            }
        } else if is_ascii_alnum(c) {
            assert forall|i: int, j: int|
                0 <= i < w.len() && 0 <= j < w[i].len() implies is_lower_alnum(#[trigger] w[i][j]) by {
                if i < w.len() - 1 {
                    assert(w[i] == before[i]);
                } else {
                    assert(w[i] == seq![c]);
                }
            }
        }
    }
}

/// Non-empty lowercase alphanumeric parts joined by hyphens form a valid id.
proof fn lemma_join_valid(parts: Seq<Seq<char>>)
    requires
        parts.len() > 0,
        forall|i: int| 0 <= i < parts.len() ==> (#[trigger] parts[i]).len() > 0,
        forall|i: int, j: int| 0 <= i < parts.len() && 0 <= j < parts[i].len() ==> is_lower_alnum(
            #[trigger] parts[i][j],
        ),
    ensures
        spec_is_valid_id(join(parts, seq!['-'])),
        join(parts, seq!['-'])[0] == parts[0][0],
    decreases parts.len(),
{
    let last = parts[parts.len() - 1];
    assert(parts.last() == last);
    assert(last.len() > 0);
    assert(is_lower_alnum(last[last.len() - 1]));
    if parts.len() == 1 {
        let j = join(parts, seq!['-']);
        assert(j == parts[0]);
        assert forall|i: int| 0 <= i < j.len() implies (is_lower_alnum(#[trigger] j[i]) || j[i] == '-') by {
            assert(is_lower_alnum(parts[0][i]));
        }
        assert(is_lower_alnum(parts[0][0]));
    } else {
        let init = parts.drop_last();
        assert forall|i: int| 0 <= i < init.len() implies (#[trigger] init[i]).len() > 0 by {
            assert(init[i] == parts[i]);
        }
        assert forall|i: int, j: int| 0 <= i < init.len() && 0 <= j < init[i].len() implies is_lower_alnum(
            #[trigger] init[i][j],
        ) by {
            assert(init[i] == parts[i]);
        }
        lemma_join_valid(init);
        let a = join(init, seq!['-']);
        let j = join(parts, seq!['-']);
        assert(j == a + seq!['-'] + last);
        assert(init[0] == parts[0]);
        assert(j[0] == a[0]);
        assert(j[j.len() - 1] == last[last.len() - 1]);
        assert forall|i: int| 0 <= i < j.len() implies (is_lower_alnum(#[trigger] j[i]) || j[i] == '-') by {
            if i < a.len() {
                assert(j[i] == a[i]);
            } else if i == a.len() {
                assert(j[i] == '-');
            } else {
                assert(j[i] == last[i - a.len() - 1]);
                assert(is_lower_alnum(parts[parts.len() - 1][i - a.len() - 1]));
            }
        }
    }
}

/// A lowercased name has a slug exactly when it has an alphanumeric run,
/// and the slug is its runs joined by hyphens.
proof fn lemma_slug_of_lowercase(lowered: Seq<char>)
    requires
        no_ascii_upper(lowered),
    ensures
        spec_slug_of_lowered(lowered) == (if words(lowered).len() > 0 {
            Some(join(words(lowered), seq!['-']))
        } else {
            None::<Seq<char>>
        }),
{
    if words(lowered).len() > 0 {
        lemma_words(lowered);
        lemma_words_lower(lowered);
        lemma_join_valid(words(lowered));
        lemma_slug_nonempty(lowered);
    } else {
        assert(slug_text(lowered) =~= Seq::<char>::empty());
    }
}

/// Every slug is a valid id.
pub proof fn law_slug_is_valid_id(input: Seq<char>)
    requires
        spec_slugify(input) is Some,
    ensures
        spec_is_valid_id(spec_slugify(input)->0),
{
}

} // verus!
