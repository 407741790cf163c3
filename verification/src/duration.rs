//! Durations: canonical seconds and their suffix-shorthand text
//! (`2h 40min`, `1w 2d`).

use vstd::prelude::*;

use crate::numbers::{all_digits, is_digit, lemma_unsigned_parse, parse_i64, parse_int};
use crate::text::{chars_of, digits, join, lemma_last_index_below, lemma_split_join, join_strings, push_char, push_digits, slice_chars, split, split_chars, string_of};

verus! {

pub open spec fn seconds_per_week() -> nat {
    604800
}

pub open spec fn seconds_per_day() -> nat {
    86400
}

pub open spec fn seconds_per_hour() -> nat {
    3600
}

pub open spec fn seconds_per_minute() -> nat {
    60
}

/// One component of the text: nothing when the count is zero.
pub open spec fn component(count: nat, unit: Seq<char>) -> Seq<Seq<char>> {
    if count == 0 {
        Seq::empty()
    } else {
        seq![digits(count) + unit]
    }
}

/// The non-zero components of a magnitude, largest unit first.
pub open spec fn duration_components(m: nat) -> Seq<Seq<char>> {
    component(m / seconds_per_week(), seq!['w']) + component(
        m % seconds_per_week() / seconds_per_day(),
        seq!['d'],
    ) + component(m % seconds_per_day() / seconds_per_hour(), seq!['h']) + component(
        m % seconds_per_hour() / seconds_per_minute(),
        seq!['m', 'i', 'n'],
    ) + component(m % seconds_per_minute(), seq!['s'])
}

/// A duration as text: its components separated by spaces, `-` in front
/// when negative, `0s` for zero.
pub open spec fn duration_text(seconds: int) -> Seq<char> {
    if seconds == 0 {
        seq!['0', 's']
    } else if seconds < 0 {
        seq!['-'] + join(duration_components((-seconds) as nat), seq![' '])
    } else {
        join(duration_components(seconds as nat), seq![' '])
    }
}

fn push_component(parts: &mut Vec<String>, count: u64, unit: &str)
    ensures
        texts_view(final(parts)@) == texts_view(old(parts)@) + component(count as nat, unit@),
{
    if count != 0 {
        let mut text = String::new();
        push_digits(&mut text, count);
        text.append(unit);
        let ghost before = parts@;
        parts.push(text);
        proof {
            assert(texts_view(parts@) =~= texts_view(before).push(digits(count as nat) + unit@));
            assert(component(count as nat, unit@) =~= seq![digits(count as nat) + unit@]);
        }
    } else {
        assert(texts_view(parts@) + component(count as nat, unit@) =~= texts_view(parts@));
    }
}

pub open spec fn texts_view(values: Seq<String>) -> Seq<Seq<char>> {
    values.map_values(|value: String| value@)
}

/// A duration in canonical seconds as suffix-shorthand text.
pub fn format_duration_seconds(seconds: i64) -> (r: String)
    ensures
        r@ == duration_text(seconds as int),
{
    proof {
        reveal_strlit("w");
        reveal_strlit("d");
        reveal_strlit("h");
        reveal_strlit("min");
        reveal_strlit("s");
        reveal_strlit(" ");
        assert("w"@ =~= seq!['w']);
        assert("d"@ =~= seq!['d']);
        assert("h"@ =~= seq!['h']);
        assert("min"@ =~= seq!['m', 'i', 'n']);
        assert("s"@ =~= seq!['s']);
        assert(" "@ =~= seq![' ']);
    }
    if seconds == 0 {
        let mut zero = String::new();
        push_char(&mut zero, '0');
        push_char(&mut zero, 's');
        assert(zero@ =~= seq!['0', 's']);
        return zero;
    }
    let magnitude: u64 = if seconds < 0 {
        (0i128 - seconds as i128) as u64
    } else {
        seconds as u64
    };
    let mut parts: Vec<String> = Vec::new();
    push_component(&mut parts, magnitude / 604800, "w");
    push_component(&mut parts, magnitude % 604800 / 86400, "d");
    push_component(&mut parts, magnitude % 86400 / 3600, "h");
    push_component(&mut parts, magnitude % 3600 / 60, "min");
    push_component(&mut parts, magnitude % 60, "s");
    assert(texts_view(parts@) =~= duration_components(magnitude as nat));
    let joined = join_strings(parts.as_slice(), " ");
    if seconds < 0 {
        let mut out = String::new();
        push_char(&mut out, '-');
        out.append(joined.as_str());
        out
    } else {
        joined
    }
}

// ── Reading durations ───────────────────────────────────────────────

/// The seconds in one of a unit: `w`, `d`, `h`, `min` or `s`.
pub open spec fn unit_seconds(unit: Seq<char>) -> Option<int> {
    if unit == seq!['w'] {
        Some(seconds_per_week() as int)
    } else if unit == seq!['d'] {
        Some(seconds_per_day() as int)
    } else if unit == seq!['h'] {
        Some(seconds_per_hour() as int)
    } else if unit == seq!['m', 'i', 'n'] {
        Some(seconds_per_minute() as int)
    } else if unit == seq!['s'] {
        Some(1)
    } else {
        None
    }
}

/// How many characters at the front of `s` are digits.
pub open spec fn digit_run(s: Seq<char>) -> int
    decreases s.len(),
{
    if s.len() > 0 && is_digit(s[0]) {
        1 + digit_run(s.drop_first())
    } else {
        0
    }
}

/// The seconds one component such as `3h` stands for: a count (within
/// `i64`) and a unit.
pub open spec fn component_seconds(part: Seq<char>) -> Option<int> {
    let k = digit_run(part);
    if k == 0 {
        None
    } else {
        match (parse_int(part.take(k)), unit_seconds(part.skip(k))) {
            (Some(count), Some(unit)) => Some(count * unit),
            _ => None,
        }
    }
}

/// The seconds of all the components, when every one reads.
pub open spec fn components_total(parts: Seq<Seq<char>>) -> Option<int>
    decreases parts.len(),
{
    if parts.len() == 0 {
        Some(0)
    } else {
        match (components_total(parts.drop_last()), component_seconds(parts.last())) {
            (Some(total), Some(more)) => Some(total + more),
            _ => None,
        }
    }
}

/// A duration written in suffix shorthand: an optional `-`, then components
/// separated by single spaces (`1w 2d`, `-3h`, `90min`); the total must fit
/// in `i64` seconds.
pub open spec fn read_duration(text: Seq<char>) -> Option<int> {
    let negative = text.len() > 0 && text[0] == '-';
    let body = if negative { text.drop_first() } else { text };
    match components_total(split(body, ' ')) {
        Some(total) => {
            let seconds = if negative { -total } else { total };
            if i64::MIN <= seconds <= i64::MAX { Some(seconds) } else { None }
        },
        None => None,
    }
}

proof fn lemma_digit_run(s: Seq<char>)
    ensures
        0 <= digit_run(s) <= s.len(),
        all_digits(s.take(digit_run(s))),
        digit_run(s) < s.len() ==> !is_digit(s[digit_run(s)]),
    decreases s.len(),
{
    if s.len() > 0 && is_digit(s[0]) {
        lemma_digit_run(s.drop_first());
        let k = digit_run(s);
        assert forall|i: int| 0 <= i < k implies is_digit(#[trigger] s.take(k)[i]) by {
            if i > 0 {
                assert(s.take(k)[i] == s.drop_first().take(k - 1)[i - 1]);
            }
        }
        if k < s.len() {
            assert(s[k] == s.drop_first()[k - 1]);
        }
    }
}

fn unit_seconds_exec(unit: &Vec<char>) -> (r: Option<i128>)
    ensures
        match r {
            Some(u) => unit_seconds(unit@) == Some(u as int),
            None => unit_seconds(unit@) is None,
        },
{
    let n = unit.len();
    if n == 1 && unit[0] == 'w' {
        assert(unit@ =~= seq!['w']);
        Some(604800)
    } else if n == 1 && unit[0] == 'd' {
        assert(unit@ =~= seq!['d']);
        Some(86400)
    } else if n == 1 && unit[0] == 'h' {
        assert(unit@ =~= seq!['h']);
        Some(3600)
    } else if n == 3 && unit[0] == 'm' && unit[1] == 'i' && unit[2] == 'n' {
        assert(unit@ =~= seq!['m', 'i', 'n']);
        Some(60)
    } else if n == 1 && unit[0] == 's' {
        assert(unit@ =~= seq!['s']);
        Some(1)
    } else {
        proof {
            if unit@ == seq!['w'] || unit@ == seq!['d'] || unit@ == seq!['h'] || unit@ == seq!['s'] {
                assert(unit@.len() == 1);
            }
            if unit@ == seq!['m', 'i', 'n'] {
                assert(unit@.len() == 3);
            }
        }
        None
    }
}

fn component_seconds_exec(part: &Vec<char>) -> (r: Option<i128>)
    ensures
        match r {
            Some(seconds) => component_seconds(part@) == Some(seconds as int) && 0 <= seconds
                <= 604800 * 0x7fff_ffff_ffff_ffff,
            None => component_seconds(part@) is None,
        },
{
    proof {
        lemma_digit_run(part@);
    }
    let mut k: usize = 0;
    assert(part@.skip(0) =~= part@);
    while k < part.len() && '0' <= part[k] && part[k] <= '9'
        invariant
            k <= part@.len(),
            digit_run(part@) == k + digit_run(part@.skip(k as int)),
        decreases part@.len() - k,
    {
        proof {
            assert(part@.skip(k as int).drop_first() =~= part@.skip(k + 1));
        }
        k = k + 1;
    }
    proof {
        if k < part@.len() {
            assert(part@.skip(k as int)[0] == part@[k as int]);
        }
    }
    if k == 0 {
        return None;
    }
    let count_text = string_of(slice_chars(part.as_slice(), 0, k).as_slice());
    let unit = slice_chars(part.as_slice(), k, part.len());
    proof {
        assert(count_text@ =~= part@.take(k as int));
        assert(unit@ =~= part@.skip(k as int));
    }
    let count = match parse_i64(count_text.as_str()) {
        Some(count) => count,
        None => return None,
    };
    let unit_value = match unit_seconds_exec(&unit) {
        Some(u) => u,
        None => return None,
    };
    proof {
        assert(part@.take(k as int).len() > 0);
        lemma_unsigned_parse(part@.take(k as int));
        assert(0 <= count);
        assert(count as int * unit_value as int <= 0x7fff_ffff_ffff_ffff * 604800) by (nonlinear_arith)
            requires
                0 <= count <= 0x7fff_ffff_ffff_ffff,
                1 <= unit_value <= 604800,
        ;
        assert(0 <= count as int * unit_value as int) by (nonlinear_arith)
            requires
                0 <= count,
                1 <= unit_value,
        ;
    }
    Some(count as i128 * unit_value)
}

/// Read a duration written in suffix shorthand into seconds.
pub fn parse_duration(text: &str) -> (r: Option<i64>)
    ensures
        match r {
            Some(seconds) => read_duration(text@) == Some(seconds as int),
            None => read_duration(text@) is None,
        },
{
    let chars = chars_of(text);
    let negative = chars.len() > 0 && chars[0] == '-';
    let start: usize = if negative { 1 } else { 0 };
    let body = slice_chars(chars.as_slice(), start, chars.len());
    proof {
        assert(body@ =~= if negative { text@.drop_first() } else { text@ });
    }
    let parts = split_chars(body.as_slice(), ' ');
    let ghost views = parts@.map_values(|piece: Vec<char>| piece@);
    let limit: i128 = 0x8000_0000_0000_0000;
    let mut total: i128 = 0;
    let mut big = false;
    let mut i: usize = 0;
    while i < parts.len()
        invariant
            i <= parts@.len(),
            views == parts@.map_values(|piece: Vec<char>| piece@),
            views == split(body@, ' '),
            negative == (text@.len() > 0 && text@[0] == '-'),
            body@ == (if negative { text@.drop_first() } else { text@ }),
            limit == 0x8000_0000_0000_0000,
            components_total(views.take(i as int)) is Some,
            !big ==> components_total(views.take(i as int)) == Some(total as int) && 0 <= total <= limit,
            big ==> components_total(views.take(i as int))->0 > limit,
        decreases parts@.len() - i,
    {
        proof {
            assert(views.take(i + 1).drop_last() =~= views.take(i as int));
            assert(views.take(i + 1).last() == parts@[i as int]@);
            lemma_total_nonneg(views.take(i as int));
        }
        let seconds = match component_seconds_exec(&parts[i]) {
            Some(seconds) => seconds,
            None => {
                proof {
                    lemma_total_none(views, i as int + 1);
                    assert(views.take(views.len() as int) =~= views);
                    assert(components_total(views) is None);
                    assert(split(body@, ' ') == views);
                }
                return None;
            },
        };
        if !big {
            total = total + seconds;
            if total > limit {
                big = true;
            }
        }
        i = i + 1;
    }
    proof {
        assert(views.take(views.len() as int) =~= views);
    }
    if big {
        return None;
    }
    if negative {
        Some((0 - total) as i64)
    } else {
        if total > 0x7fff_ffff_ffff_ffff {
            return None;
        }
        Some(total as i64)
    }
}

proof fn lemma_component_nonneg(part: Seq<char>)
    ensures
        component_seconds(part) matches Some(v) ==> v >= 0,
{
    let k = digit_run(part);
    lemma_digit_run(part);
    if k > 0 {
        lemma_unsigned_parse(part.take(k));
        match (parse_int(part.take(k)), unit_seconds(part.skip(k))) {
            (Some(count), Some(unit)) => {
                assert(count >= 0);
                assert(unit >= 1);
                assert(count * unit >= 0) by (nonlinear_arith)
                    requires
                        count >= 0,
                        unit >= 1,
                ;
            },
            _ => {},
        }
    }
}

proof fn lemma_total_nonneg(parts: Seq<Seq<char>>)
    ensures
        components_total(parts) matches Some(t) ==> t >= 0,
    decreases parts.len(),
{
    if parts.len() > 0 {
        lemma_total_nonneg(parts.drop_last());
        lemma_component_nonneg(parts.last());
    }
}

proof fn lemma_total_none(parts: Seq<Seq<char>>, k: int)
    requires
        0 < k <= parts.len(),
        component_seconds(parts[k - 1]) is None,
    ensures
        components_total(parts.take(parts.len() as int)) is None,
    decreases parts.len() - k,
{
    lemma_prefix_none(parts, k, parts.len() as int);
}

proof fn lemma_prefix_none(parts: Seq<Seq<char>>, k: int, m: int)
    requires
        0 < k <= m <= parts.len(),
        component_seconds(parts[k - 1]) is None,
    ensures
        components_total(parts.take(m)) is None,
    decreases m,
{
    assert(parts.take(m).drop_last() =~= parts.take(m - 1));
    if m > k {
        lemma_prefix_none(parts, k, m - 1);
    } else {
        assert(parts.take(m).last() == parts[k - 1]);
    }
}


// ── Reading back the text of a duration ─────────────────────────────

proof fn lemma_digit_run_prefix(d: Seq<char>, u: Seq<char>)
    requires
        all_digits(d),
        u.len() > 0,
        !is_digit(u[0]),
    ensures
        digit_run(d + u) == d.len(),
    decreases d.len(),
{
    if d.len() == 0 {
        assert(d + u =~= u);
    } else {
        assert(is_digit(d[0]));
        assert((d + u)[0] == d[0]);
        assert((d + u).drop_first() =~= d.drop_first() + u);
        assert(all_digits(d.drop_first())) by {
            assert forall|i: int| 0 <= i < d.drop_first().len() implies is_digit(#[trigger] d.drop_first()[i]) by {
                assert(d.drop_first()[i] == d[i + 1]);
            }
        }
        lemma_digit_run_prefix(d.drop_first(), u);
    }
}

/// One component `<count><unit>` reads back as its seconds.
proof fn lemma_component_reads(count: nat, unit: Seq<char>, value: int)
    requires
        count <= i64::MAX,
        unit_seconds(unit) == Some(value),
        unit.len() > 0,
        !is_digit(unit[0]),
        !unit.contains(' '),
    ensures
        component_seconds(digits(count) + unit) == Some(count * value),
        !(digits(count) + unit).contains(' '),
{
    let d = digits(count);
    crate::numbers::lemma_digits_read_back(count);
    lemma_digit_run_prefix(d, unit);
    let part = d + unit;
    assert(part.take(d.len() as int) =~= d);
    assert(part.skip(d.len() as int) =~= unit);
    assert(is_digit(d[0]));
    assert(parse_int(d) == Some(count as int));
    if part.contains(' ') {
        let i = choose|i: int| 0 <= i < part.len() && part[i] == ' ';
        if i < d.len() {
            assert(is_digit(d[i]));
        } else {
            assert(unit[i - d.len()] == ' ');
        }
    }
}

proof fn lemma_components_total_concat(a: Seq<Seq<char>>, b: Seq<Seq<char>>)
    requires
        components_total(a) is Some,
        components_total(b) is Some,
    ensures
        components_total(a + b) == Some(components_total(a)->0 + components_total(b)->0),
    decreases b.len(),
{
    if b.len() == 0 {
        assert(a + b =~= a);
    } else {
        lemma_components_total_concat(a, b.drop_last());
        assert((a + b).drop_last() =~= a + b.drop_last());
        assert((a + b).last() == b.last());
    }
}

/// A component's total is its count times its unit (nothing for zero).
proof fn lemma_component_total(count: nat, unit: Seq<char>, value: int)
    requires
        count <= i64::MAX,
        unit_seconds(unit) == Some(value),
        unit.len() > 0,
        !is_digit(unit[0]),
        !unit.contains(' '),
    ensures
        components_total(component(count, unit)) == Some(count * value),
        forall|i: int| 0 <= i < component(count, unit).len() ==> !(#[trigger] component(count, unit)[i]).contains(' '),
        forall|i: int| 0 <= i < component(count, unit).len() ==> is_digit((#[trigger] component(count, unit)[i])[0]),
{
    if count > 0 {
        lemma_component_reads(count, unit, value);
        let c = component(count, unit);
        assert(c.drop_last().len() == 0);
        assert(components_total(c.drop_last()) == Some(0int));
        crate::numbers::lemma_digits_read_back(count);
        assert(c[0][0] == digits(count)[0]);
    }
}

proof fn lemma_units()
    ensures
        unit_seconds(seq!['w']) == Some(604800int),
        unit_seconds(seq!['d']) == Some(86400int),
        unit_seconds(seq!['h']) == Some(3600int),
        unit_seconds(seq!['m', 'i', 'n']) == Some(60int),
        unit_seconds(seq!['s']) == Some(1int),
        !seq!['w'].contains(' ') && !seq!['d'].contains(' ') && !seq!['h'].contains(' '),
        !seq!['m', 'i', 'n'].contains(' ') && !seq!['s'].contains(' '),
{
    assert(seq!['d'] != seq!['w']) by {
        assert(seq!['d'][0] != seq!['w'][0]);
    }
    assert(seq!['h'] != seq!['w'] && seq!['h'] != seq!['d']) by {
        assert(seq!['h'][0] != seq!['w'][0]);
        assert(seq!['h'][0] != seq!['d'][0]);
    }
    assert(seq!['m', 'i', 'n'] != seq!['w'] && seq!['m', 'i', 'n'] != seq!['d'] && seq!['m', 'i', 'n'] != seq!['h']) by {
        assert(seq!['m', 'i', 'n'].len() != seq!['w'].len());
    }
    assert(seq!['s'] != seq!['w'] && seq!['s'] != seq!['d'] && seq!['s'] != seq!['h'] && seq!['s'] != seq![
        'm',
        'i',
        'n',
    ]) by {
        assert(seq!['s'][0] != seq!['w'][0]);
        assert(seq!['s'][0] != seq!['d'][0]);
        assert(seq!['s'][0] != seq!['h'][0]);
        assert(seq!['s'].len() != seq!['m', 'i', 'n'].len());
    }
    assert(!seq!['m', 'i', 'n'].contains(' ')) by {
        if seq!['m', 'i', 'n'].contains(' ') {
            let i = choose|i: int| 0 <= i < 3 && seq!['m', 'i', 'n'][i] == ' ';
        }
    }
}

/// The components of a magnitude add up to it, none holds a space, and
/// each starts with a digit.
proof fn lemma_duration_components(m: nat)
    requires
        m <= i64::MAX + 1,
    ensures
        components_total(duration_components(m)) == Some(m as int),
        forall|i: int| 0 <= i < duration_components(m).len() ==> !(#[trigger] duration_components(m)[i]).contains(' '),
        forall|i: int| 0 <= i < duration_components(m).len() ==> is_digit((#[trigger] duration_components(m)[i])[0]),
        m > 0 ==> duration_components(m).len() > 0,
{
    lemma_units();
    let w = m / 604800;
    let d = m % 604800 / 86400;
    let h = m % 86400 / 3600;
    let mi = m % 3600 / 60;
    let s = m % 60;
    assert(w <= i64::MAX && d <= i64::MAX && h <= i64::MAX && mi <= i64::MAX && s <= i64::MAX);
    assert(!is_digit('w') && !is_digit('d') && !is_digit('h') && !is_digit('m') && !is_digit('s'));
    lemma_component_total(w, seq!['w'], 604800);
    lemma_component_total(d, seq!['d'], 86400);
    lemma_component_total(h, seq!['h'], 3600);
    lemma_component_total(mi, seq!['m', 'i', 'n'], 60);
    lemma_component_total(s, seq!['s'], 1);
    let cw = component(w, seq!['w']);
    let cd = component(d, seq!['d']);
    let ch = component(h, seq!['h']);
    let cm = component(mi, seq!['m', 'i', 'n']);
    let cs = component(s, seq!['s']);
    lemma_components_total_concat(cw, cd);
    lemma_components_total_concat(cw + cd, ch);
    lemma_components_total_concat(cw + cd + ch, cm);
    lemma_components_total_concat(cw + cd + ch + cm, cs);
    assert(duration_components(m) == cw + cd + ch + cm + cs);
    assert(w * 604800 + d * 86400 + h * 3600 + mi * 60 + s == m) by (nonlinear_arith)
        requires
            w == m / 604800,
            d == m % 604800 / 86400,
            h == m % 86400 / 3600,
            mi == m % 3600 / 60,
            s == m % 60,
    ;
    let all = duration_components(m);
    assert forall|i: int| 0 <= i < all.len() implies !(#[trigger] all[i]).contains(' ') && is_digit(all[i][0]) by {
        let b1 = cw.len();
        let b2 = b1 + cd.len();
        let b3 = b2 + ch.len();
        let b4 = b3 + cm.len();
        if i < b1 {
            assert(all[i] == cw[i]);
        } else if i < b2 {
            assert(all[i] == cd[i - b1]);
        } else if i < b3 {
            assert(all[i] == ch[i - b2]);
        } else if i < b4 {
            assert(all[i] == cm[i - b3]);
        } else {
            assert(all[i] == cs[i - b4]);
        }
    }
    if m > 0 && all.len() == 0 {
        assert(w == 0 && d == 0 && h == 0 && mi == 0 && s == 0);
    }
}

proof fn lemma_join_first(parts: Seq<Seq<char>>, sep: Seq<char>)
    requires
        parts.len() > 0,
        parts[0].len() > 0,
    ensures
        join(parts, sep).len() > 0,
        join(parts, sep)[0] == parts[0][0],
    decreases parts.len(),
{
    if parts.len() > 1 {
        lemma_join_first(parts.drop_last(), sep);
        assert(parts.drop_last()[0] == parts[0]);
    }
}

/// The text of a duration reads back as the same number of seconds.
pub proof fn law_duration_text_reads_back(seconds: int)
    requires
        i64::MIN <= seconds <= i64::MAX,
    ensures
        read_duration(duration_text(seconds)) == Some(seconds),
{
    lemma_units();
    if seconds == 0 {
        let text = seq!['0', 's'];
        lemma_last_index_below(text, ' ', 2);
        assert(split(text, ' ') == seq![text]);
        assert(!is_digit('s'));
        lemma_component_reads(0, seq!['s'], 1);
        assert(digits(0) =~= seq!['0']);
        assert(digits(0) + seq!['s'] =~= text);
        assert(seq![text].drop_last().len() == 0);
        assert(component_seconds(text) == Some(0int));
        assert(components_total(seq![text].drop_last()) == Some(0int));
        assert(components_total(seq![text]) == Some(0int));
        assert(duration_text(seconds) == text);
        assert(text[0] != '-');
    } else {
        let m: nat = if seconds < 0 { (-seconds) as nat } else { seconds as nat };
        lemma_duration_components(m);
        let parts = duration_components(m);
        lemma_split_join(parts, ' ');
        let joined = join(parts, seq![' ']);
        crate::numbers::lemma_digits_read_back(1);
        assert(parts[0].len() > 0) by {
            assert(is_digit(parts[0][0]));
        }
        lemma_join_first(parts, seq![' ']);
        assert(is_digit(parts[0][0]));
        assert(components_total(split(joined, ' ')) == Some(m as int));
        if seconds < 0 {
            assert(duration_text(seconds) == seq!['-'] + joined);
            assert((seq!['-'] + joined).drop_first() =~= joined);
            assert((seq!['-'] + joined)[0] == '-');
        } else {
            assert(duration_text(seconds) == joined);
            assert(joined[0] != '-');
        }
    }
}
} // verus!
