//! Character-level helpers shared by the parsers and formatters: the
//! whitespace class, trimming, searching, splitting and joining, each with
//! the specification the rest of the crate reasons with.

use vstd::prelude::*;

verus! {

// ── Conversions ─────────────────────────────────────────────────────

/// `String::push`: appends one character.
#[verifier::external_body]
pub fn push_char(s: &mut String, c: char)
    ensures
        final(s)@ == old(s)@.push(c),
{
    s.push(c);
}

/// The characters of a string slice, in order.
pub fn chars_of(s: &str) -> (r: Vec<char>)
    ensures
        r@ == s@,
{
    let mut out: Vec<char> = Vec::new();
    for c in it: s.chars()
        invariant
            out@ == it.seq().take(it.index() as int),
            it.seq() == s@,
    {
        out.push(c);
    }
    out
}

/// Builds a string from a character slice.
pub fn string_of(cs: &[char]) -> (r: String)
    ensures
        r@ == cs@,
{
    let mut out = String::new();
    let mut i: usize = 0;
    while i < cs.len()
        invariant
            i <= cs@.len(),
            out@ == cs@.take(i as int),
        decreases cs@.len() - i,
    {
        push_char(&mut out, cs[i]);
        i = i + 1;
        assert(out@ == cs@.take(i as int));
    }
    assert(cs@.take(cs@.len() as int) == cs@);
    out
}

/// Whether two strings hold the same characters.
pub fn str_eq(a: &str, b: &str) -> (r: bool)
    ensures
        r == (a@ == b@),
{
    let x = chars_of(a);
    let y = chars_of(b);
    if x.len() != y.len() {
        return false;
    }
    let mut i: usize = 0;
    while i < x.len()
        invariant
            i <= x@.len(),
            x@.len() == y@.len(),
            x@ == a@,
            y@ == b@,
            forall|k: int| 0 <= k < i ==> x@[k] == y@[k],
        decreases x@.len() - i,
    {
        if x[i] != y[i] {
            return false;
        }
        i = i + 1;
    }
    assert(x@ =~= y@);
    true
}

// ── Whitespace ──────────────────────────────────────────────────────

/// Unicode `White_Space`, the class `char::is_whitespace` (and therefore
/// `str::trim`) uses.
pub open spec fn is_ws(c: char) -> bool {
    ||| ('\u{9}' <= c && c <= '\u{d}')
    ||| c == ' '
    ||| c == '\u{85}'
    ||| c == '\u{a0}'
    ||| c == '\u{1680}'
    ||| ('\u{2000}' <= c && c <= '\u{200a}')
    ||| c == '\u{2028}'
    ||| c == '\u{2029}'
    ||| c == '\u{202f}'
    ||| c == '\u{205f}'
    ||| c == '\u{3000}'
}

/// `char::is_whitespace`.
pub fn is_whitespace(c: char) -> (r: bool)
    ensures
        r == is_ws(c),
{
    ('\u{9}' <= c && c <= '\u{d}') || c == ' ' || c == '\u{85}' || c == '\u{a0}' || c
        == '\u{1680}' || ('\u{2000}' <= c && c <= '\u{200a}') || c == '\u{2028}' || c
        == '\u{2029}' || c == '\u{202f}' || c == '\u{205f}' || c == '\u{3000}'
}

/// Index of the first non-whitespace character at or after `i`
/// (`s.len()` when there is none).
pub open spec fn skip_ws_from(s: Seq<char>, i: int) -> int
    decreases s.len() - i,
{
    if 0 <= i < s.len() && is_ws(s[i]) {
        skip_ws_from(s, i + 1)
    } else {
        i
    }
}

/// End of `s.take(j)` once its trailing whitespace is removed.
pub open spec fn skip_ws_back(s: Seq<char>, j: int) -> int
    decreases j,
{
    if 0 < j <= s.len() && is_ws(s[j - 1]) {
        skip_ws_back(s, j - 1)
    } else {
        j
    }
}

/// `str::trim`: leading and trailing whitespace removed.
pub open spec fn trim(s: Seq<char>) -> Seq<char> {
    let a = skip_ws_from(s, 0);
    if a >= s.len() {
        Seq::empty()
    } else {
        s.subrange(a, skip_ws_back(s, s.len() as int))
    }
}

/// A sequence with no whitespace at either end.
pub open spec fn is_trimmed(s: Seq<char>) -> bool {
    s.len() == 0 || (!is_ws(s[0]) && !is_ws(s[s.len() - 1]))
}

pub proof fn lemma_skip_ws_from_bounds(s: Seq<char>, i: int)
    requires
        0 <= i <= s.len(),
    ensures
        i <= skip_ws_from(s, i) <= s.len(),
        skip_ws_from(s, i) < s.len() ==> !is_ws(s[skip_ws_from(s, i)]),
        forall|k: int| i <= k < skip_ws_from(s, i) ==> is_ws(#[trigger] s[k]),
    decreases s.len() - i,
{
    if i < s.len() && is_ws(s[i]) {
        lemma_skip_ws_from_bounds(s, i + 1);
    }
}

pub proof fn lemma_skip_ws_back_bounds(s: Seq<char>, j: int)
    requires
        0 <= j <= s.len(),
    ensures
        0 <= skip_ws_back(s, j) <= j,
        skip_ws_back(s, j) > 0 ==> !is_ws(s[skip_ws_back(s, j) - 1]),
        forall|k: int| skip_ws_back(s, j) <= k < j ==> is_ws(#[trigger] s[k]),
    decreases j,
{
    if 0 < j && is_ws(s[j - 1]) {
        lemma_skip_ws_back_bounds(s, j - 1);
    }
}

/// The facts about `trim` the parsers rely on: it is a window of the input
/// whose ends are not whitespace, and everything cut off is whitespace.
pub proof fn lemma_trim(s: Seq<char>)
    ensures
        is_trimmed(trim(s)),
        trim(s).len() <= s.len(),
        trim(s).len() == 0 <==> (forall|k: int| 0 <= k < s.len() ==> is_ws(#[trigger] s[k])),
{
    lemma_skip_ws_from_bounds(s, 0);
    let a = skip_ws_from(s, 0);
    if a < s.len() {
        lemma_skip_ws_back_bounds(s, s.len() as int);
        let b = skip_ws_back(s, s.len() as int);
        if b <= a {
            assert(is_ws(s[a]));
        }
        assert(trim(s).len() > 0);
        assert(!is_ws(s[a]));
    } else {
        assert forall|k: int| 0 <= k < s.len() implies is_ws(#[trigger] s[k]) by {}
    }
}

/// Trimming a sequence whose ends are not whitespace changes nothing.
pub proof fn lemma_trim_trimmed(s: Seq<char>)
    requires
        is_trimmed(s),
    ensures
        trim(s) == s,
{
    if s.len() > 0 {
        assert(skip_ws_from(s, 0) == 0);
        assert(skip_ws_back(s, s.len() as int) == s.len());
        assert(s.subrange(0, s.len() as int) =~= s);
    }
}

/// `str::trim` on a character slice.
pub fn trim_chars(s: &[char]) -> (r: Vec<char>)
    ensures
        r@ == trim(s@),
{
    let mut a: usize = 0;
    while a < s.len() && is_whitespace(s[a])
        invariant
            a <= s@.len(),
            skip_ws_from(s@, a as int) == skip_ws_from(s@, 0),
        decreases s@.len() - a,
    {
        a = a + 1;
    }
    if a >= s.len() {
        return Vec::new();
    }
    let mut b: usize = s.len();
    while b > 0 && is_whitespace(s[b - 1])
        invariant
            b <= s@.len(),
            skip_ws_back(s@, b as int) == skip_ws_back(s@, s@.len() as int),
        decreases b,
    {
        b = b - 1;
    }
    proof {
        lemma_skip_ws_back_bounds(s@, s@.len() as int);
        assert(!is_ws(s@[a as int]));
        if b <= a {
            assert(is_ws(s@[a as int]));
        }
    }
    slice_chars(s, a, b)
}

/// The characters `s[from..to]` as a new vector.
pub fn slice_chars(s: &[char], from: usize, to: usize) -> (r: Vec<char>)
    requires
        from <= to <= s@.len(),
    ensures
        r@ == s@.subrange(from as int, to as int),
{
    let mut out: Vec<char> = Vec::new();
    let mut i = from;
    while i < to
        invariant
            from <= i <= to <= s@.len(),
            out@ == s@.subrange(from as int, i as int),
        decreases to - i,
    {
        out.push(s[i]);
        i = i + 1;
    }
    out
}

// ── Searching ───────────────────────────────────────────────────────

/// `t` occurs in `s` starting at index `i`.
pub open spec fn occurs_at(s: Seq<char>, t: Seq<char>, i: int) -> bool {
    0 <= i && i + t.len() <= s.len() && s.subrange(i, i + t.len()) == t
}

/// First occurrence of `t` in `s` at or after `i` (`str::find` from `i`).
pub open spec fn find_from(s: Seq<char>, t: Seq<char>, i: int) -> Option<int>
    decreases s.len() + 1 - i,
{
    if i < 0 || i + t.len() > s.len() {
        None
    } else if occurs_at(s, t, i) {
        Some(i)
    } else {
        find_from(s, t, i + 1)
    }
}

/// `str::find`: the first occurrence of `t` in `s`.
pub open spec fn find(s: Seq<char>, t: Seq<char>) -> Option<int> {
    find_from(s, t, 0)
}

/// `find_from` returns the least occurrence at or after `i`, or `None`
/// when there is none.
pub proof fn lemma_find_from(s: Seq<char>, t: Seq<char>, i: int)
    requires
        0 <= i,
    ensures
        find_from(s, t, i) matches Some(p) ==> (i <= p && occurs_at(s, t, p) && forall|q: int|
            i <= q < p ==> !occurs_at(s, t, q)),
        find_from(s, t, i) is None ==> forall|q: int| i <= q ==> !occurs_at(s, t, q),
    decreases s.len() + 1 - i,
{
    if i + t.len() > s.len() {
    } else if occurs_at(s, t, i) {
    } else {
        lemma_find_from(s, t, i + 1);
    }
}

/// Pins `find` down from an occurrence with nothing earlier.
pub proof fn lemma_find_is(s: Seq<char>, t: Seq<char>, p: int)
    requires
        occurs_at(s, t, p),
        forall|q: int| 0 <= q < p ==> !occurs_at(s, t, q),
    ensures
        find(s, t) == Some(p),
{
    lemma_find_from(s, t, 0);
}

/// `find` answers `None` when `t` occurs nowhere.
pub proof fn lemma_find_none(s: Seq<char>, t: Seq<char>)
    requires
        forall|q: int| 0 <= q ==> !occurs_at(s, t, q),
    ensures
        find(s, t) is None,
{
    lemma_find_from(s, t, 0);
}

/// Whether `t` occurs in `s` at `i`.
pub fn occurs_at_exec(s: &[char], t: &[char], i: usize) -> (r: bool)
    ensures
        r == occurs_at(s@, t@, i as int),
{
    if i > s.len() || t.len() > s.len() - i {
        return false;
    }
    let mut k: usize = 0;
    while k < t.len()
        invariant
            i + t@.len() <= s@.len(),
            s@.len() == s.len(),
            k <= t@.len(),
            forall|j: int| 0 <= j < k ==> s@[i + j] == t@[j],
        decreases t@.len() - k,
    {
        let j: usize = i + k;
        if s[j] != t[k] {
            assert(s@.subrange(i as int, i + t@.len())[k as int] != t@[k as int]);
            return false;
        }
        k = k + 1;
    }
    assert(s@.subrange(i as int, i + t@.len()) =~= t@);
    true
}

/// `str::find` on character slices.
pub fn find_chars(s: &[char], t: &[char]) -> (r: Option<usize>)
    ensures
        match r {
            Some(p) => find(s@, t@) == Some(p as int),
            None => find(s@, t@) is None,
        },
{
    let mut i: usize = 0;
    while i < s.len()
        invariant
            i <= s@.len(),
            find_from(s@, t@, i as int) == find(s@, t@),
        decreases s@.len() - i,
    {
        if t.len() > s.len() - i {
            return None;
        }
        if occurs_at_exec(s, t, i) {
            return Some(i);
        }
        i = i + 1;
    }
    assert(i == s@.len());
    if occurs_at_exec(s, t, i) {
        assert(find_from(s@, t@, i as int) == Some(i as int));
        assert(find(s@, t@) == Some(i as int));
        Some(i)
    } else {
        assert(find_from(s@, t@, i + 1) is None);
        None
    }
}

/// Index of the last `c` in `s.take(n)`.
pub open spec fn last_index_below(s: Seq<char>, c: char, n: int) -> Option<int>
    decreases n,
{
    if n <= 0 || n > s.len() {
        None
    } else if s[n - 1] == c {
        Some(n - 1)
    } else {
        last_index_below(s, c, n - 1)
    }
}

/// `str::rfind` for one character: its last occurrence.
pub open spec fn rfind_char(s: Seq<char>, c: char) -> Option<int> {
    last_index_below(s, c, s.len() as int)
}

pub proof fn lemma_last_index_below(s: Seq<char>, c: char, n: int)
    requires
        0 <= n <= s.len(),
    ensures
        last_index_below(s, c, n) matches Some(p) ==> (0 <= p < n && s[p] == c && forall|q: int|
            p < q < n ==> s[q] != c),
        last_index_below(s, c, n) is None ==> forall|q: int| 0 <= q < n ==> s[q] != c,
    decreases n,
{
    if n > 0 && s[n - 1] != c {
        lemma_last_index_below(s, c, n - 1);
    }
}

/// Pins `rfind_char` down from an occurrence with nothing later.
pub proof fn lemma_rfind_is(s: Seq<char>, c: char, p: int)
    requires
        0 <= p < s.len(),
        s[p] == c,
        forall|q: int| p < q < s.len() ==> s[q] != c,
    ensures
        rfind_char(s, c) == Some(p),
    decreases s.len() - p,
{
    lemma_last_index_below(s, c, s.len() as int);
}

/// `str::rfind` for one character.
pub fn rfind_char_exec(s: &[char], c: char) -> (r: Option<usize>)
    ensures
        match r {
            Some(p) => rfind_char(s@, c) == Some(p as int),
            None => rfind_char(s@, c) is None,
        },
{
    let mut n: usize = s.len();
    while n > 0
        invariant
            n <= s@.len(),
            last_index_below(s@, c, n as int) == rfind_char(s@, c),
        decreases n,
    {
        if s[n - 1] == c {
            return Some(n - 1);
        }
        n = n - 1;
    }
    None
}

/// Whether `c` occurs in `s`.
pub fn contains_char(s: &[char], c: char) -> (r: bool)
    ensures
        r == s@.contains(c),
{
    let mut i: usize = 0;
    while i < s.len()
        invariant
            i <= s@.len(),
            forall|k: int| 0 <= k < i ==> s@[k] != c,
        decreases s@.len() - i,
    {
        if s[i] == c {
            assert(s@[i as int] == c);
            return true;
        }
        i = i + 1;
    }
    false
}

// ── Splitting and joining ───────────────────────────────────────────

/// `str::split` on one separator character: the pieces between separators,
/// always at least one.
pub open spec fn split(s: Seq<char>, sep: char) -> Seq<Seq<char>>
    decreases s.len(),
{
    match last_index_below(s, sep, s.len() as int) {
        Some(p) => {
            proof {
                lemma_last_index_below(s, sep, s.len() as int);
            }
            split(s.take(p), sep).push(s.skip(p + 1))
        },
        None => seq![s],
    }
}

/// `split` gives at least one piece.
pub proof fn lemma_split_nonempty(s: Seq<char>, sep: char)
    ensures
        split(s, sep).len() > 0,
{
}

/// How `split` grows when one character is appended.
pub proof fn lemma_split_push(s: Seq<char>, sep: char, c: char)
    ensures
        split(s.push(c), sep) == (if c == sep {
            split(s, sep).push(Seq::empty())
        } else {
            split(s, sep).drop_last().push(split(s, sep).last().push(c))
        }),
    decreases s.len(),
{
    let t = s.push(c);
    lemma_last_index_below(t, sep, t.len() as int);
    if c == sep {
        assert(last_index_below(t, sep, t.len() as int) == Some(s.len() as int));
        assert(t.take(s.len() as int) =~= s);
        assert(t.skip(s.len() as int + 1) =~= Seq::<char>::empty());
    } else {
        lemma_last_index_below(s, sep, s.len() as int);
        match last_index_below(s, sep, s.len() as int) {
            Some(p) => {
                assert(last_index_below(t, sep, t.len() as int) == Some(p)) by {
                    lemma_rfind_is(t, sep, p);
                }
                assert(t.take(p) =~= s.take(p));
                assert(t.skip(p + 1) =~= s.skip(p + 1).push(c));
                assert(split(s, sep) == split(s.take(p), sep).push(s.skip(p + 1)));
                assert(split(s, sep).drop_last() =~= split(s.take(p), sep));
            },
            None => {
                assert(last_index_below(t, sep, t.len() as int) is None);
                assert(split(s, sep) == seq![s]);
                assert(split(t, sep) == seq![t]);
                assert(split(s, sep).drop_last().push(split(s, sep).last().push(c)) =~= seq![t]);
            },
        }
    }
}

/// `str::split` on one separator character.
pub fn split_chars(s: &[char], sep: char) -> (r: Vec<Vec<char>>)
    ensures
        r@.map_values(|piece: Vec<char>| piece@) == split(s@, sep),
{
    let mut pieces: Vec<Vec<char>> = Vec::new();
    let mut current: Vec<char> = Vec::new();
    let mut i: usize = 0;
    proof {
        assert(s@.take(0) =~= Seq::<char>::empty());
        assert(last_index_below(s@.take(0), sep, 0) is None);
        assert(pieces@.map_values(|piece: Vec<char>| piece@).push(current@) =~= split(s@.take(0), sep));
    }
    while i < s.len()
        invariant
            i <= s@.len(),
            pieces@.map_values(|piece: Vec<char>| piece@).push(current@) == split(s@.take(i as int), sep),
        decreases s@.len() - i,
    {
        let c = s[i];
        proof {
            lemma_split_push(s@.take(i as int), sep, c);
            assert(s@.take(i + 1) =~= s@.take(i as int).push(c));
        }
        let ghost before = pieces@.map_values(|piece: Vec<char>| piece@);
        if c == sep {
            let done = current;
            pieces.push(done);
            current = Vec::new();
            assert(pieces@.map_values(|piece: Vec<char>| piece@) =~= before.push(done@));
            assert(pieces@.map_values(|piece: Vec<char>| piece@).push(current@) =~= split(s@.take(i + 1), sep));
        } else {
            current.push(c);
            assert(pieces@.map_values(|piece: Vec<char>| piece@).push(current@) =~= split(s@.take(i + 1), sep));
        }
        i = i + 1;
    }
    assert(s@.take(s@.len() as int) =~= s@);
    pieces.push(current);
    pieces
}

/// The pieces joined with `sep` between them (`[T]::join`).
pub open spec fn join(parts: Seq<Seq<char>>, sep: Seq<char>) -> Seq<char>
    decreases parts.len(),
{
    if parts.len() == 0 {
        Seq::empty()
    } else if parts.len() == 1 {
        parts[0]
    } else {
        join(parts.drop_last(), sep) + sep + parts.last()
    }
}

/// Splitting a join at a separator none of the pieces contains gives the
/// pieces back.
#[verifier::spinoff_prover]
pub proof fn lemma_split_join(parts: Seq<Seq<char>>, sep: char)
    requires
        parts.len() > 0,
        forall|i: int| 0 <= i < parts.len() ==> !(#[trigger] parts[i]).contains(sep),
    ensures
        split(join(parts, seq![sep]), sep) == parts,
    decreases parts.len(),
{
    let j = join(parts, seq![sep]);
    if parts.len() == 1 {
        lemma_last_index_below(j, sep, j.len() as int);
        if last_index_below(j, sep, j.len() as int) is Some {
            let p = last_index_below(j, sep, j.len() as int)->0;
            assert(parts[0].contains(j[p]));
        }
        assert(split(j, sep) =~= seq![parts[0]]);
    } else {
        let init = parts.drop_last();
        let ji = join(init, seq![sep]);
        let last = parts.last();
        assert forall|i: int| 0 <= i < init.len() implies !(#[trigger] init[i]).contains(sep) by {
            assert(init[i] == parts[i]);
        }
        lemma_split_join(init, sep);
        assert(j == ji + seq![sep] + last);
        let p = ji.len() as int;
        assert(j[p] == sep);
        assert forall|q: int| p < q < j.len() implies j[q] != sep by {
            assert(j[q] == last[q - p - 1]);
            if j[q] == sep {
                assert(last.contains(j[q]));
                assert(parts[parts.len() - 1] == last);
            }
        }
        lemma_rfind_is(j, sep, p);
        assert(j.take(p) =~= ji);
        assert(j.skip(p + 1) =~= last);
        assert(split(j, sep) =~= split(ji, sep).push(last));
        assert(parts =~= init.push(last));
    }
}

/// `[String]::join`: the pieces with `sep` between them.
pub fn join_strings(parts: &[String], sep: &str) -> (r: String)
    ensures
        r@ == join(parts@.map_values(|p: String| p@), sep@),
{
    let ghost views = parts@.map_values(|p: String| p@);
    let mut out = String::new();
    let mut i: usize = 0;
    while i < parts.len()
        invariant
            i <= parts@.len(),
            views == parts@.map_values(|p: String| p@),
            out@ == join(views.take(i as int), sep@),
        decreases parts@.len() - i,
    {
        if i > 0 {
            out.append(sep);
        }
        out.append(parts[i].as_str());
        proof {
            let next = views.take(i + 1);
            assert(next.drop_last() =~= views.take(i as int));
            if i == 0 {
                assert(out@ =~= join(next, sep@));
            }
        }
        i = i + 1;
    }
    assert(views.take(parts@.len() as int) =~= views);
    out
}

/// Concatenation of two strings into a new one.
pub fn concat(a: &str, b: &str) -> (r: String)
    ensures
        r@ == a@ + b@,
{
    let mut out = a.to_owned();
    out.append(b);
    out
}


// ── Numbers ─────────────────────────────────────────────────────────

/// The character of a decimal digit.
pub open spec fn digit_char(d: int) -> char {
    if d == 0 { '0' }
    else if d == 1 { '1' }
    else if d == 2 { '2' }
    else if d == 3 { '3' }
    else if d == 4 { '4' }
    else if d == 5 { '5' }
    else if d == 6 { '6' }
    else if d == 7 { '7' }
    else if d == 8 { '8' }
    else { '9' }
}

/// The decimal digits of `n`, most significant first, without leading zeros.
pub open spec fn digits(n: nat) -> Seq<char>
    decreases n,
{
    if n < 10 {
        seq![digit_char(n as int)]
    } else {
        digits(n / 10).push(digit_char((n % 10) as int))
    }
}

/// `n` in decimal, with a leading `-` when negative (`i64::to_string`).
pub open spec fn decimal(n: int) -> Seq<char> {
    if n < 0 {
        seq!['-'] + digits((-n) as nat)
    } else {
        digits(n as nat)
    }
}

fn digit(d: u64) -> (c: char)
    requires
        d < 10,
    ensures
        c == digit_char(d as int),
{
    match d {
        0 => '0',
        1 => '1',
        2 => '2',
        3 => '3',
        4 => '4',
        5 => '5',
        6 => '6',
        7 => '7',
        8 => '8',
        _ => '9',
    }
}

/// Appends the decimal digits of `n`.
pub fn push_digits(out: &mut String, n: u64)
    ensures
        final(out)@ == old(out)@ + digits(n as nat),
    decreases n,
{
    if n >= 10 {
        push_digits(out, n / 10);
    }
    push_char(out, digit(n % 10));
    proof {
        if n >= 10 {
            assert(old(out)@ + digits(n as nat) =~= old(out)@ + digits((n / 10) as nat) + seq![digit_char((n % 10) as int)]);
        } else {
            assert(old(out)@ + digits(n as nat) =~= old(out)@.push(digit_char((n % 10) as int)));
        }
    }
}

/// `n` in decimal (`i64::to_string`).
pub fn decimal_text(n: i64) -> (r: String)
    ensures
        r@ == decimal(n as int),
{
    let mut out = String::new();
    if n < 0 {
        push_char(&mut out, '-');
        let magnitude: u64 = (0i128 - n as i128) as u64;
        push_digits(&mut out, magnitude);
    } else {
        push_digits(&mut out, n as u64);
    }
    out
}


/// Whether `values` holds `text`.
pub fn contains_text(values: &Vec<String>, text: &str) -> (r: bool)
    ensures
        r == values@.map_values(|v: String| v@).contains(text@),
{
    let ghost views = values@.map_values(|v: String| v@);
    let mut i: usize = 0;
    while i < values.len()
        invariant
            i <= values@.len(),
            views == values@.map_values(|v: String| v@),
            forall|k: int| 0 <= k < i ==> views[k] != text@,
        decreases values@.len() - i,
    {
        if str_eq(values[i].as_str(), text) {
            assert(views[i as int] == text@);
            return true;
        }
        i = i + 1;
    }
    false
}

} // verus!
