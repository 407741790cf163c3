//! Reading numbers out of text: integers as `i64::from_str` reads them,
//! and plain decimal numbers compared by their exact values.

use vstd::prelude::*;

use crate::order::{text_less, text_lt};
use crate::text::{chars_of, slice_chars, string_of};

verus! {

pub open spec fn is_digit(c: char) -> bool {
    '0' <= c && c <= '9'
}

pub open spec fn all_digits(s: Seq<char>) -> bool {
    forall|i: int| 0 <= i < s.len() ==> is_digit(#[trigger] s[i])
}

pub open spec fn digit_value(c: char) -> int {
    (c as int) - ('0' as int)
}

/// The value of a run of decimal digits.
pub open spec fn digits_value(s: Seq<char>) -> int
    decreases s.len(),
{
    if s.len() == 0 {
        0
    } else {
        digits_value(s.drop_last()) * 10 + digit_value(s.last())
    }
}

proof fn lemma_digits_value_grows(s: Seq<char>, k: int)
    requires
        0 <= k <= s.len(),
        all_digits(s),
    ensures
        digits_value(s.take(k)) <= digits_value(s),
        0 <= digits_value(s.take(k)),
    decreases s.len() - k,
{
    if k < s.len() {
        lemma_digits_value_grows(s, k + 1);
        assert(s.take(k + 1).drop_last() =~= s.take(k));
        assert(is_digit(s[k]));
    } else {
        assert(s.take(k) =~= s);
        lemma_digits_value_nonneg(s);
    }
}

pub proof fn lemma_digits_value_nonneg(s: Seq<char>)
    requires
        all_digits(s),
    ensures
        0 <= digits_value(s),
    decreases s.len(),
{
    if s.len() > 0 {
        let init = s.drop_last();
        assert forall|i: int| 0 <= i < init.len() implies is_digit(#[trigger] init[i]) by {
            assert(init[i] == s[i]);
        }
        lemma_digits_value_nonneg(init);
        assert(is_digit(s[s.len() - 1]));
    }
}

/// A run of digits reads as a number of at least zero.
pub proof fn lemma_unsigned_parse(s: Seq<char>)
    requires
        s.len() > 0,
        all_digits(s),
    ensures
        parse_int(s) matches Some(v) ==> v >= 0,
{
    assert(is_digit(s[0]));
    lemma_digits_value_nonneg(s);
}

/// What `i64::from_str` reads from `s`: an optional `+` or `-`, then one or
/// more ASCII digits, the value within `i64`.
pub open spec fn parse_int(s: Seq<char>) -> Option<int> {
    let negative = s.len() > 0 && s[0] == '-';
    let signed = s.len() > 0 && (s[0] == '-' || s[0] == '+');
    let body = if signed { s.drop_first() } else { s };
    if body.len() == 0 || !all_digits(body) {
        None
    } else {
        let value = if negative { -digits_value(body) } else { digits_value(body) };
        if i64::MIN <= value <= i64::MAX {
            Some(value)
        } else {
            None
        }
    }
}

/// `s.parse::<i64>().ok()`.
pub fn parse_i64(s: &str) -> (r: Option<i64>)
    ensures
        match r {
            Some(n) => parse_int(s@) == Some(n as int),
            None => parse_int(s@) is None,
        },
{
    let chars = chars_of(s);
    let n = chars.len();
    if n == 0 {
        return None;
    }
    let negative = chars[0] == '-';
    let start: usize = if chars[0] == '-' || chars[0] == '+' { 1 } else { 0 };
    if start == n {
        return None;
    }
    let ghost body = if start == 1 { s@.drop_first() } else { s@ };
    proof {
        assert(body =~= s@.subrange(start as int, n as int));
    }
    let limit: u128 = 0x8000_0000_0000_0000;
    let mut value: u128 = 0;
    let mut big = false;
    let mut i: usize = start;
    while i < n
        invariant
            chars@ == s@,
            n == s@.len(),
            start <= i <= n,
            n > 0,
            start == 1 <==> (s@[0] == '-' || s@[0] == '+'),
            start <= 1,
            negative == (s@[0] == '-'),
            body == (if s@.len() > 0 && (s@[0] == '-' || s@[0] == '+') { s@.drop_first() } else { s@ }),
            body == s@.subrange(start as int, n as int),
            limit == 0x8000_0000_0000_0000,
            all_digits(body.take(i - start)),
            !big ==> value == digits_value(body.take(i - start)) && value <= limit,
            big ==> digits_value(body.take(i - start)) > limit,
        decreases n - i,
    {
        let c = chars[i];
        if !('0' <= c && c <= '9') {
            proof {
                assert(body[i - start] == c);
                assert(!is_digit(body[i - start]));
                assert(!all_digits(body));
            }
            return None;
        }
        let d = (c as u32 - '0' as u32) as u128;
        let ghost prefix = body.take(i - start);
        let ghost next = body.take(i - start + 1);
        proof {
            assert(next.drop_last() =~= prefix);
            assert(next.last() == c);
            assert(all_digits(next)) by {
                assert forall|k: int| 0 <= k < next.len() implies is_digit(#[trigger] next[k]) by {
                    if k < prefix.len() {
                        assert(next[k] == prefix[k]);
                    }
                }
            }
            lemma_digits_value_nonneg(prefix);
        }
        if !big {
            if value > limit / 10 {
                big = true;
                assert(digits_value(next) > limit);
            } else {
                value = value * 10 + d;
                if value > limit {
                    big = true;
                }
            }
        }
        i = i + 1;
    }
    proof {
        assert(body.take(n - start) =~= body);
    }
    if big {
        return None;
    }
    if negative {
        Some((0i128 - value as i128) as i64)
    } else {
        if value > 0x7fff_ffff_ffff_ffff {
            return None;
        }
        Some(value as i64)
    }
}

// ── Plain decimal numbers ───────────────────────────────────────────

/// A plain decimal number: its sign, the digits before the point and the
/// digits after it.
pub struct DecimalView {
    pub negative: bool,
    pub whole: Seq<char>,
    pub fraction: Seq<char>,
}

/// Read `[+-]digits[.digits]` (at least one digit on either side of the
/// point): the form floating-point values are written in.
pub open spec fn read_decimal(s: Seq<char>) -> Option<DecimalView> {
    let negative = s.len() > 0 && s[0] == '-';
    let signed = s.len() > 0 && (s[0] == '-' || s[0] == '+');
    let body = if signed { s.drop_first() } else { s };
    match crate::text::find(body, seq!['.']) {
        Some(p) => {
            let whole = body.take(p);
            let fraction = body.skip(p + 1);
            if all_digits(whole) && all_digits(fraction) && whole.len() + fraction.len() > 0 {
                Some(DecimalView { negative, whole, fraction })
            } else {
                None
            }
        },
        None => if all_digits(body) && body.len() > 0 {
            Some(DecimalView { negative, whole: body, fraction: Seq::empty() })
        } else {
            None
        },
    }
}

/// `s` without its leading zeros.
pub open spec fn without_leading_zeros(s: Seq<char>) -> Seq<char>
    decreases s.len(),
{
    if s.len() > 0 && s[0] == '0' {
        without_leading_zeros(s.drop_first())
    } else {
        s
    }
}

/// `s` without its trailing zeros.
pub open spec fn without_trailing_zeros(s: Seq<char>) -> Seq<char>
    decreases s.len(),
{
    if s.len() > 0 && s.last() == '0' {
        without_trailing_zeros(s.drop_last())
    } else {
        s
    }
}

/// Whether the magnitude of `a` is below that of `b`: more whole digits
/// make a larger number; with as many, the digits decide, whole part first.
pub open spec fn magnitude_lt(a: DecimalView, b: DecimalView) -> bool {
    let wa = without_leading_zeros(a.whole);
    let wb = without_leading_zeros(b.whole);
    let fa = without_trailing_zeros(a.fraction);
    let fb = without_trailing_zeros(b.fraction);
    if wa.len() != wb.len() {
        wa.len() < wb.len()
    } else if wa != wb {
        text_lt(wa, wb)
    } else {
        text_lt(fa, fb)
    }
}

pub open spec fn is_zero(a: DecimalView) -> bool {
    without_leading_zeros(a.whole).len() == 0 && without_trailing_zeros(a.fraction).len() == 0
}

pub open spec fn same_magnitude(a: DecimalView, b: DecimalView) -> bool {
    without_leading_zeros(a.whole) == without_leading_zeros(b.whole)
        && without_trailing_zeros(a.fraction) == without_trailing_zeros(b.fraction)
}

/// The order of two decimal numbers: -1, 0 or 1. Zero has no sign.
pub open spec fn decimal_order(a: DecimalView, b: DecimalView) -> int {
    if is_zero(a) && is_zero(b) {
        0
    } else if same_magnitude(a, b) && a.negative == b.negative {
        0
    } else {
        let a_neg = a.negative && !is_zero(a);
        let b_neg = b.negative && !is_zero(b);
        if a_neg && !b_neg {
            -1
        } else if !a_neg && b_neg {
            1
        } else if !a_neg {
            if magnitude_lt(a, b) { -1 } else { 1 }
        } else {
            if magnitude_lt(a, b) { 1 } else { -1 }
        }
    }
}

/// The order of the decimal numbers `a` and `b` are written as, when both
/// are plain decimals.
pub open spec fn compare_decimals(a: Seq<char>, b: Seq<char>) -> Option<int> {
    match (read_decimal(a), read_decimal(b)) {
        (Some(x), Some(y)) => Some(decimal_order(x, y)),
        _ => None,
    }
}

fn strip_leading_zeros(s: Vec<char>) -> (r: Vec<char>)
    ensures
        r@ == without_leading_zeros(s@),
{
    let mut i: usize = 0;
    assert(s@.skip(0) =~= s@);
    while i < s.len() && s[i] == '0'
        invariant
            i <= s@.len(),
            without_leading_zeros(s@) == without_leading_zeros(s@.skip(i as int)),
        decreases s@.len() - i,
    {
        proof {
            assert(s@.skip(i as int).drop_first() =~= s@.skip(i + 1));
        }
        i = i + 1;
    }
    let r = slice_chars(s.as_slice(), i, s.len());
    proof {
        assert(r@ =~= s@.skip(i as int));
    }
    r
}

fn strip_trailing_zeros(s: Vec<char>) -> (r: Vec<char>)
    ensures
        r@ == without_trailing_zeros(s@),
{
    let mut j: usize = s.len();
    assert(s@.take(j as int) =~= s@);
    while j > 0 && s[j - 1] == '0'
        invariant
            j <= s@.len(),
            without_trailing_zeros(s@) == without_trailing_zeros(s@.take(j as int)),
        decreases j,
    {
        proof {
            assert(s@.take(j as int).drop_last() =~= s@.take(j - 1));
        }
        j = j - 1;
    }
    let r = slice_chars(s.as_slice(), 0, j);
    proof {
        assert(r@ =~= s@.take(j as int));
    }
    r
}

fn all_digit_chars(s: &Vec<char>) -> (r: bool)
    ensures
        r == all_digits(s@),
{
    let mut i: usize = 0;
    while i < s.len()
        invariant
            i <= s@.len(),
            forall|k: int| 0 <= k < i ==> is_digit(#[trigger] s@[k]),
        decreases s@.len() - i,
    {
        if !('0' <= s[i] && s[i] <= '9') {
            assert(!is_digit(s@[i as int]));
            return false;
        }
        i = i + 1;
    }
    true
}

/// The parts of a plain decimal, with the whole part's leading zeros and
/// the fraction's trailing zeros removed.
fn read_decimal_exec(s: &str) -> (r: Option<(bool, Vec<char>, Vec<char>)>)
    ensures
        match r {
            Some((negative, whole, fraction)) => read_decimal(s@) matches Some(d) && d.negative == negative
                && whole@ == without_leading_zeros(d.whole) && fraction@ == without_trailing_zeros(d.fraction),
            None => read_decimal(s@) is None,
        },
{
    let chars = chars_of(s);
    let n = chars.len();
    let negative = n > 0 && chars[0] == '-';
    let start: usize = if n > 0 && (chars[0] == '-' || chars[0] == '+') { 1 } else { 0 };
    let body = slice_chars(chars.as_slice(), start, n);
    proof {
        let signed = s@.len() > 0 && (s@[0] == '-' || s@[0] == '+');
        assert(body@ =~= if signed { s@.drop_first() } else { s@ });
    }
    let point = crate::text::find_chars(body.as_slice(), &['.']);
    proof {
        assert(seq!['.'] =~= (&['.'])@);
        crate::text::lemma_find_from(body@, seq!['.'], 0);
    }
    match point {
        Some(p) => {
            let whole = slice_chars(body.as_slice(), 0, p);
            let fraction = slice_chars(body.as_slice(), p + 1, body.len());
            proof {
                assert(whole@ =~= body@.take(p as int));
                assert(fraction@ =~= body@.skip(p + 1));
            }
            if all_digit_chars(&whole) && all_digit_chars(&fraction) && whole.len() + fraction.len() > 0 {
                Some((negative, strip_leading_zeros(whole), strip_trailing_zeros(fraction)))
            } else {
                None
            }
        },
        None => {
            if all_digit_chars(&body) && body.len() > 0 {
                let empty: Vec<char> = Vec::new();
                assert(without_trailing_zeros(Seq::<char>::empty()) == Seq::<char>::empty());
                Some((negative, strip_leading_zeros(body), empty))
            } else {
                None
            }
        },
    }
}

fn chars_equal(a: &Vec<char>, b: &Vec<char>) -> (r: bool)
    ensures
        r == (a@ == b@),
{
    if a.len() != b.len() {
        return false;
    }
    let mut i: usize = 0;
    while i < a.len()
        invariant
            i <= a@.len(),
            a@.len() == b@.len(),
            forall|k: int| 0 <= k < i ==> a@[k] == b@[k],
        decreases a@.len() - i,
    {
        if a[i] != b[i] {
            return false;
        }
        i = i + 1;
    }
    assert(a@ =~= b@);
    true
}

/// Compare the decimal numbers `a` and `b` are written as.
pub fn decimal_compare(a: &str, b: &str) -> (r: Option<i8>)
    ensures
        match r {
            Some(order) => compare_decimals(a@, b@) == Some(order as int),
            None => compare_decimals(a@, b@) is None,
        },
{
    let (a_neg, aw, af) = match read_decimal_exec(a) {
        Some(parts) => parts,
        None => return None,
    };
    let (b_neg, bw, bf) = match read_decimal_exec(b) {
        Some(parts) => parts,
        None => return None,
    };
    let a_zero = aw.len() == 0 && af.len() == 0;
    let b_zero = bw.len() == 0 && bf.len() == 0;
    if a_zero && b_zero {
        return Some(0);
    }
    let same = chars_equal(&aw, &bw) && chars_equal(&af, &bf);
    if same && a_neg == b_neg {
        return Some(0);
    }
    let a_less = if aw.len() != bw.len() {
        aw.len() < bw.len()
    } else if !chars_equal(&aw, &bw) {
        text_less(string_of(aw.as_slice()).as_str(), string_of(bw.as_slice()).as_str())
    } else {
        text_less(string_of(af.as_slice()).as_str(), string_of(bf.as_slice()).as_str())
    };
    let a_negative = a_neg && !a_zero;
    let b_negative = b_neg && !b_zero;
    if a_negative && !b_negative {
        Some(-1)
    } else if !a_negative && b_negative {
        Some(1)
    } else if !a_negative {
        if a_less { Some(-1) } else { Some(1) }
    } else {
        if a_less { Some(1) } else { Some(-1) }
    }
}


// ── The value of a decimal ──────────────────────────────────────────

/// Ten to the power `n`.
pub open spec fn pow10(n: nat) -> int
    decreases n,
{
    if n == 0 {
        1
    } else {
        10 * pow10((n - 1) as nat)
    }
}

proof fn lemma_pow10_positive(n: nat)
    ensures
        pow10(n) >= 1,
    decreases n,
{
    if n > 0 {
        lemma_pow10_positive((n - 1) as nat);
    }
}

proof fn lemma_pow10_add(a: nat, b: nat)
    ensures
        pow10(a + b) == pow10(a) * pow10(b),
    decreases a,
{
    if a > 0 {
        lemma_pow10_add((a - 1) as nat, b);
        assert((a + b - 1) as nat == ((a - 1) as nat + b) as nat);
        assert(pow10(a + b) == 10 * pow10((a - 1 + b) as nat));
        assert(10 * (pow10((a - 1) as nat) * pow10(b)) == (10 * pow10((a - 1) as nat)) * pow10(b)) by (nonlinear_arith);
    }
}

proof fn lemma_pow10_monotone(a: nat, b: nat)
    requires
        a <= b,
    ensures
        pow10(a) <= pow10(b),
    decreases b,
{
    if a < b {
        lemma_pow10_monotone(a, (b - 1) as nat);
        lemma_pow10_positive((b - 1) as nat);
    }
}

/// The numeric value of a decimal scaled by `10^scale` (at least as many
/// as its fraction digits): sign, whole part, fraction.
pub open spec fn scaled_value(x: DecimalView, scale: nat) -> int {
    let magnitude = digits_value(x.whole) * pow10(scale) + digits_value(x.fraction) * pow10(
        (scale - x.fraction.len()) as nat,
    );
    if x.negative {
        -magnitude
    } else {
        magnitude
    }
}

/// -1, 0 or 1 as `a` is below, equal to or above `b`.
pub open spec fn numeric_order(a: int, b: int) -> int {
    if a < b {
        -1
    } else if a == b {
        0
    } else {
        1
    }
}

proof fn lemma_digit_bounds(c: char)
    requires
        is_digit(c),
    ensures
        0 <= digit_value(c) <= 9,
{
}

/// A run of digits is below ten to its length.
proof fn lemma_digits_value_below(s: Seq<char>)
    requires
        all_digits(s),
    ensures
        0 <= digits_value(s) < pow10(s.len()),
    decreases s.len(),
{
    if s.len() > 0 {
        let init = s.drop_last();
        assert forall|i: int| 0 <= i < init.len() implies is_digit(#[trigger] init[i]) by {
            assert(init[i] == s[i]);
        }
        lemma_digits_value_below(init);
        assert(is_digit(s[s.len() - 1]));
        assert(pow10(s.len()) == 10 * pow10(init.len()));
    }
}

/// The value of a run of digits, first digit split off.
proof fn lemma_digits_value_front(s: Seq<char>)
    requires
        s.len() > 0,
    ensures
        digits_value(s) == digit_value(s[0]) * pow10((s.len() - 1) as nat) + digits_value(s.drop_first()),
    decreases s.len(),
{
    if s.len() == 1 {
        assert(s.drop_last().len() == 0);
        assert(s.drop_first().len() == 0);
        assert(s.last() == s[0]);
        assert(digits_value(s.drop_last()) == 0);
        assert(digits_value(s.drop_first()) == 0);
        assert(pow10(0) == 1);
    } else {
        let init = s.drop_last();
        lemma_digits_value_front(init);
        assert(init[0] == s[0]);
        assert(init.drop_first() =~= s.drop_first().drop_last());
        assert(s.drop_first().last() == s.last());
        assert(digits_value(s.drop_first()) == digits_value(init.drop_first()) * 10 + digit_value(s.last()));
        let d = digit_value(s[0]);
        let p = pow10((init.len() - 1) as nat);
        assert(pow10((s.len() - 1) as nat) == 10 * p);
        assert((d * p + digits_value(init.drop_first())) * 10 + digit_value(s.last()) == d * (10 * p) + (
        digits_value(init.drop_first()) * 10 + digit_value(s.last()))) by (nonlinear_arith);
    }
}

/// A run of digits starting with a non-zero digit is at least ten to its
/// length less one.
proof fn lemma_digits_value_leading(s: Seq<char>)
    requires
        all_digits(s),
        s.len() > 0,
        s[0] != '0',
    ensures
        digits_value(s) >= pow10((s.len() - 1) as nat),
{
    lemma_digits_value_front(s);
    let rest = s.drop_first();
    assert forall|i: int| 0 <= i < rest.len() implies is_digit(#[trigger] rest[i]) by {
        assert(rest[i] == s[i + 1]);
    }
    lemma_digits_value_nonneg(rest);
    assert(is_digit(s[0]));
    let d = digit_value(s[0]);
    assert(d >= 1);
    lemma_pow10_positive((s.len() - 1) as nat);
    assert(d * pow10((s.len() - 1) as nat) >= pow10((s.len() - 1) as nat)) by (nonlinear_arith)
        requires
            d >= 1,
            pow10((s.len() - 1) as nat) >= 1,
    ;
}

proof fn lemma_all_digits_drop_first(s: Seq<char>)
    requires
        all_digits(s),
        s.len() > 0,
    ensures
        all_digits(s.drop_first()),
{
    assert forall|i: int| 0 <= i < s.drop_first().len() implies is_digit(#[trigger] s.drop_first()[i]) by {
        assert(s.drop_first()[i] == s[i + 1]);
    }
}

proof fn lemma_all_digits_drop_last(s: Seq<char>)
    requires
        all_digits(s),
        s.len() > 0,
    ensures
        all_digits(s.drop_last()),
{
    assert forall|i: int| 0 <= i < s.drop_last().len() implies is_digit(#[trigger] s.drop_last()[i]) by {
        assert(s.drop_last()[i] == s[i]);
    }
}

/// Dropping leading zeros keeps the digits and their value, and leaves no
/// leading zero.
proof fn lemma_without_leading_zeros(s: Seq<char>)
    requires
        all_digits(s),
    ensures
        all_digits(without_leading_zeros(s)),
        digits_value(without_leading_zeros(s)) == digits_value(s),
        without_leading_zeros(s).len() == 0 || without_leading_zeros(s)[0] != '0',
    decreases s.len(),
{
    if s.len() > 0 && s[0] == '0' {
        lemma_all_digits_drop_first(s);
        lemma_without_leading_zeros(s.drop_first());
        lemma_digits_value_front(s);
        assert(digit_value(s[0]) == 0);
    }
}

/// Dropping trailing zeros keeps the digits, leaves no trailing zero, and
/// divides the value by ten per zero dropped.
proof fn lemma_without_trailing_zeros(s: Seq<char>, scale: nat)
    requires
        all_digits(s),
        s.len() <= scale,
    ensures
        all_digits(without_trailing_zeros(s)),
        without_trailing_zeros(s).len() <= s.len(),
        without_trailing_zeros(s).len() == 0 || without_trailing_zeros(s).last() != '0',
        digits_value(without_trailing_zeros(s)) * pow10((scale - without_trailing_zeros(s).len()) as nat)
            == digits_value(s) * pow10((scale - s.len()) as nat),
    decreases s.len(),
{
    if s.len() > 0 && s.last() == '0' {
        let init = s.drop_last();
        lemma_all_digits_drop_last(s);
        lemma_without_trailing_zeros(init, scale);
        assert(digits_value(s) == digits_value(init) * 10);
        assert(pow10((scale - init.len()) as nat) == 10 * pow10((scale - s.len()) as nat));
        assert(digits_value(init) * (10 * pow10((scale - s.len()) as nat)) == (digits_value(init) * 10) * pow10(
            (scale - s.len()) as nat,
        )) by (nonlinear_arith);
    }
}

/// Digit runs of one length compare as their values do.
proof fn lemma_equal_length_order(s: Seq<char>, t: Seq<char>)
    requires
        all_digits(s),
        all_digits(t),
        s.len() == t.len(),
    ensures
        text_lt(s, t) <==> digits_value(s) < digits_value(t),
        s == t <==> digits_value(s) == digits_value(t),
    decreases s.len(),
{
    if s.len() == 0 {
        assert(s =~= t);
    } else {
        let (s1, t1) = (s.drop_first(), t.drop_first());
        lemma_all_digits_drop_first(s);
        lemma_all_digits_drop_first(t);
        lemma_equal_length_order(s1, t1);
        lemma_digits_value_front(s);
        lemma_digits_value_front(t);
        lemma_digits_value_below(s1);
        lemma_digits_value_below(t1);
        let p = pow10((s.len() - 1) as nat);
        assert(is_digit(s[0]) && is_digit(t[0]));
        let ds = digit_value(s[0]);
        let dt = digit_value(t[0]);
        let (vs, vt) = (digits_value(s1), digits_value(t1));
        if s[0] != t[0] {
            assert(ds != dt);
            if ds < dt {
                assert(ds * p + vs < dt * p + vt) by (nonlinear_arith)
                    requires
                        ds < dt,
                        0 <= vs < p,
                        0 <= vt < p,
                ;
            } else {
                assert(dt * p + vt < ds * p + vs) by (nonlinear_arith)
                    requires
                        dt < ds,
                        0 <= vs < p,
                        0 <= vt < p,
                ;
            }
            assert(s != t) by {
                assert(s[0] != t[0]);
            }
        } else {
            if s1 == t1 {
                assert(s =~= t) by {
                    assert forall|i: int| 0 <= i < s.len() implies s[i] == t[i] by {
                        if i > 0 {
                            assert(s[i] == s1[i - 1]);
                            assert(t[i] == t1[i - 1]);
                        }
                    }
                }
            }
            if s == t {
                assert(s1 =~= t1);
            }
        }
    }
}

/// A longer digit run without a leading zero is worth more.
proof fn lemma_longer_is_larger(s: Seq<char>, t: Seq<char>)
    requires
        all_digits(s),
        all_digits(t),
        s.len() < t.len(),
        t[0] != '0',
    ensures
        digits_value(s) < digits_value(t),
{
    lemma_digits_value_below(s);
    lemma_digits_value_leading(t);
    lemma_pow10_monotone(s.len(), (t.len() - 1) as nat);
}

/// The value of fraction digits `f` in units of `10^-scale`.
pub open spec fn fraction_value(f: Seq<char>, scale: nat) -> int {
    digits_value(f) * pow10((scale - f.len()) as nat)
}

proof fn lemma_fraction_front(f: Seq<char>, scale: nat)
    requires
        f.len() > 0,
        f.len() <= scale,
    ensures
        fraction_value(f, scale) == digit_value(f[0]) * pow10((scale - 1) as nat) + fraction_value(
            f.drop_first(),
            (scale - 1) as nat,
        ),
{
    lemma_digits_value_front(f);
    let d = digit_value(f[0]);
    let a = pow10((f.len() - 1) as nat);
    let b = pow10((scale - f.len()) as nat);
    lemma_pow10_add((f.len() - 1) as nat, (scale - f.len()) as nat);
    assert(((f.len() - 1) as nat + (scale - f.len()) as nat) as nat == (scale - 1) as nat);
    assert(((scale - 1) as nat - f.drop_first().len()) as nat == (scale - f.len()) as nat);
    assert((d * a + digits_value(f.drop_first())) * b == d * (a * b) + digits_value(f.drop_first()) * b)
        by (nonlinear_arith);
}

proof fn lemma_fraction_bounds(f: Seq<char>, scale: nat)
    requires
        all_digits(f),
        f.len() <= scale,
    ensures
        0 <= fraction_value(f, scale) < pow10(scale),
{
    lemma_digits_value_below(f);
    let v = digits_value(f);
    let a = pow10(f.len());
    let b = pow10((scale - f.len()) as nat);
    lemma_pow10_add(f.len(), (scale - f.len()) as nat);
    assert((f.len() + (scale - f.len()) as nat) as nat == scale);
    lemma_pow10_positive((scale - f.len()) as nat);
    assert(0 <= v * b < a * b) by (nonlinear_arith)
        requires
            0 <= v < a,
            b >= 1,
    ;
}

proof fn lemma_fraction_positive(f: Seq<char>, scale: nat)
    requires
        all_digits(f),
        f.len() > 0,
        f.last() != '0',
        f.len() <= scale,
    ensures
        fraction_value(f, scale) > 0,
{
    let init = f.drop_last();
    lemma_all_digits_drop_last(f);
    lemma_digits_value_nonneg(init);
    assert(is_digit(f[f.len() - 1]));
    assert(digits_value(f) >= 1);
    lemma_pow10_positive((scale - f.len()) as nat);
    assert(digits_value(f) * pow10((scale - f.len()) as nat) >= 1) by (nonlinear_arith)
        requires
            digits_value(f) >= 1,
            pow10((scale - f.len()) as nat) >= 1,
    ;
}

pub open spec fn no_trailing_zero(f: Seq<char>) -> bool {
    f.len() == 0 || f.last() != '0'
}

/// Fraction digits without a trailing zero compare, letter by letter, as
/// their values do.
proof fn lemma_fraction_order(a: Seq<char>, b: Seq<char>, scale: nat)
    requires
        all_digits(a),
        all_digits(b),
        no_trailing_zero(a),
        no_trailing_zero(b),
        a.len() <= scale,
        b.len() <= scale,
    ensures
        text_lt(a, b) <==> fraction_value(a, scale) < fraction_value(b, scale),
        a == b <==> fraction_value(a, scale) == fraction_value(b, scale),
    decreases a.len(),
{
    if a.len() == 0 && b.len() == 0 {
        assert(a =~= b);
    } else if a.len() == 0 {
        lemma_fraction_positive(b, scale);
        assert(fraction_value(a, scale) == 0);
    } else if b.len() == 0 {
        lemma_fraction_positive(a, scale);
        assert(fraction_value(b, scale) == 0);
    } else {
        let (a1, b1) = (a.drop_first(), b.drop_first());
        let s1 = (scale - 1) as nat;
        lemma_all_digits_drop_first(a);
        lemma_all_digits_drop_first(b);
        lemma_fraction_front(a, scale);
        lemma_fraction_front(b, scale);
        lemma_fraction_bounds(a1, s1);
        lemma_fraction_bounds(b1, s1);
        assert(no_trailing_zero(a1)) by {
            if a1.len() > 0 {
                assert(a1.last() == a.last());
            }
        }
        assert(no_trailing_zero(b1)) by {
            if b1.len() > 0 {
                assert(b1.last() == b.last());
            }
        }
        lemma_fraction_order(a1, b1, s1);
        let p = pow10(s1);
        assert(is_digit(a[0]) && is_digit(b[0]));
        let da = digit_value(a[0]);
        let db = digit_value(b[0]);
        let (va, vb) = (fraction_value(a1, s1), fraction_value(b1, s1));
        if a[0] != b[0] {
            if da < db {
                assert(da * p + va < db * p + vb) by (nonlinear_arith)
                    requires
                        da < db,
                        0 <= va < p,
                        0 <= vb < p,
                ;
            } else {
                assert(db * p + vb < da * p + va) by (nonlinear_arith)
                    requires
                        db < da,
                        0 <= va < p,
                        0 <= vb < p,
                ;
            }
            assert(a != b) by {
                assert(a[0] != b[0]);
            }
        } else {
            if a1 == b1 {
                assert(a =~= b) by {
                    assert(a.len() == b.len());
                    assert forall|i: int| 0 <= i < a.len() implies a[i] == b[i] by {
                        if i > 0 {
                            assert(a[i] == a1[i - 1]);
                            assert(b[i] == b1[i - 1]);
                        }
                    }
                }
            }
            if a == b {
                assert(a1 =~= b1);
            }
        }
    }
}

/// The size of a decimal, scaled by `10^scale`: whole part and fraction.
pub open spec fn scaled_magnitude(x: DecimalView, scale: nat) -> int {
    digits_value(x.whole) * pow10(scale) + fraction_value(x.fraction, scale)
}

/// The textual comparisons of magnitudes agree with the scaled sizes.
proof fn lemma_magnitudes(x: DecimalView, y: DecimalView, scale: nat)
    requires
        all_digits(x.whole),
        all_digits(x.fraction),
        all_digits(y.whole),
        all_digits(y.fraction),
        x.fraction.len() <= scale,
        y.fraction.len() <= scale,
    ensures
        scaled_magnitude(x, scale) >= 0,
        scaled_magnitude(y, scale) >= 0,
        magnitude_lt(x, y) <==> scaled_magnitude(x, scale) < scaled_magnitude(y, scale),
        same_magnitude(x, y) <==> scaled_magnitude(x, scale) == scaled_magnitude(y, scale),
        is_zero(x) <==> scaled_magnitude(x, scale) == 0,
        is_zero(y) <==> scaled_magnitude(y, scale) == 0,
{
    let wa = without_leading_zeros(x.whole);
    let wb = without_leading_zeros(y.whole);
    let fa = without_trailing_zeros(x.fraction);
    let fb = without_trailing_zeros(y.fraction);
    lemma_without_leading_zeros(x.whole);
    lemma_without_leading_zeros(y.whole);
    lemma_without_trailing_zeros(x.fraction, scale);
    lemma_without_trailing_zeros(y.fraction, scale);
    lemma_fraction_bounds(fa, scale);
    lemma_fraction_bounds(fb, scale);
    lemma_fraction_order(fa, fb, scale);
    lemma_digits_value_nonneg(wa);
    lemma_digits_value_nonneg(wb);
    let p = pow10(scale);
    lemma_pow10_positive(scale);
    let (va, vb) = (digits_value(wa), digits_value(wb));
    let (ga, gb) = (fraction_value(fa, scale), fraction_value(fb, scale));
    assert(scaled_magnitude(x, scale) == va * p + ga);
    assert(scaled_magnitude(y, scale) == vb * p + gb);
    assert(va * p + ga >= 0 && vb * p + gb >= 0) by (nonlinear_arith)
        requires
            va >= 0,
            vb >= 0,
            p >= 1,
            ga >= 0,
            gb >= 0,
    ;
    // Whole parts first.
    if wa.len() != wb.len() {
        if wa.len() < wb.len() {
            lemma_longer_is_larger(wa, wb);
        } else {
            lemma_longer_is_larger(wb, wa);
        }
    } else {
        lemma_equal_length_order(wa, wb);
    }
    if va < vb {
        assert(va * p + ga < vb * p + gb) by (nonlinear_arith)
            requires
                va < vb,
                0 <= ga < p,
                0 <= gb < p,
        ;
    } else if vb < va {
        assert(vb * p + gb < va * p + ga) by (nonlinear_arith)
            requires
                vb < va,
                0 <= ga < p,
                0 <= gb < p,
        ;
    }
    if wa.len() != wb.len() {
        assert(wa != wb);
    }
    // Zero.
    if wa.len() > 0 {
        lemma_digits_value_leading(wa);
        lemma_pow10_positive((wa.len() - 1) as nat);
        assert(va * p >= 1) by (nonlinear_arith)
            requires
                va >= 1,
                p >= 1,
        ;
    } else {
        assert(va == 0);
    }
    if wb.len() > 0 {
        lemma_digits_value_leading(wb);
        lemma_pow10_positive((wb.len() - 1) as nat);
        assert(vb * p >= 1) by (nonlinear_arith)
            requires
                vb >= 1,
                p >= 1,
        ;
    } else {
        assert(vb == 0);
    }
    if fa.len() > 0 {
        lemma_fraction_positive(fa, scale);
    } else {
        assert(ga == 0);
    }
    if fb.len() > 0 {
        lemma_fraction_positive(fb, scale);
    } else {
        assert(gb == 0);
    }
}

/// Decimals compare by their numeric values: the comparison of two plain
/// decimals is below, equal or above exactly as the numbers they are
/// written as are (whole part plus fraction, with their signs; zero has no
/// sign), counted in units of a common power of ten.
pub proof fn law_decimal_comparison_is_numeric(a: Seq<char>, b: Seq<char>)
    requires
        read_decimal(a) is Some,
        read_decimal(b) is Some,
    ensures
        ({
            let x = read_decimal(a)->0;
            let y = read_decimal(b)->0;
            let scale = if x.fraction.len() >= y.fraction.len() {
                x.fraction.len()
            } else {
                y.fraction.len()
            };
            compare_decimals(a, b) == Some(numeric_order(scaled_value(x, scale), scaled_value(y, scale)))
        }),
{
    let x = read_decimal(a)->0;
    let y = read_decimal(b)->0;
    let scale = if x.fraction.len() >= y.fraction.len() {
        x.fraction.len()
    } else {
        y.fraction.len()
    };
    lemma_read_decimal_digits(a);
    lemma_read_decimal_digits(b);
    lemma_magnitudes(x, y, scale);
    assert(scaled_value(x, scale) == if x.negative {
        -scaled_magnitude(x, scale)
    } else {
        scaled_magnitude(x, scale)
    });
    assert(scaled_value(y, scale) == if y.negative {
        -scaled_magnitude(y, scale)
    } else {
        scaled_magnitude(y, scale)
    });
}

proof fn lemma_read_decimal_digits(s: Seq<char>)
    requires
        read_decimal(s) is Some,
    ensures
        all_digits(read_decimal(s)->0.whole),
        all_digits(read_decimal(s)->0.fraction),
{
    let x = read_decimal(s)->0;
    if x.fraction.len() == 0 {
        assert(all_digits(x.fraction));
    }
}


proof fn lemma_digit_char(d: int)
    requires
        0 <= d <= 9,
    ensures
        is_digit(crate::text::digit_char(d)),
        digit_value(crate::text::digit_char(d)) == d,
{
}

/// The decimal digits of `n` are digits, at least one, and read back as `n`.
pub proof fn lemma_digits_read_back(n: nat)
    ensures
        all_digits(crate::text::digits(n)),
        crate::text::digits(n).len() > 0,
        digits_value(crate::text::digits(n)) == n,
    decreases n,
{
    let s = crate::text::digits(n);
    if n < 10 {
        lemma_digit_char(n as int);
        assert(s.drop_last().len() == 0);
        assert(s.last() == s[0]);
        assert(digits_value(s.drop_last()) == 0);
        assert(digits_value(s) == digits_value(s.drop_last()) * 10 + digit_value(s.last()));
    } else {
        lemma_digits_read_back(n / 10);
        lemma_digit_char((n % 10) as int);
        let init = crate::text::digits(n / 10);
        assert(s.drop_last() =~= init);
        assert forall|i: int| 0 <= i < s.len() implies is_digit(#[trigger] s[i]) by {
            if i < init.len() {
                assert(s[i] == init[i]);
            }
        }
        assert(s.last() == crate::text::digit_char((n % 10) as int));
        assert(digits_value(s) == digits_value(init) * 10 + digit_value(s.last()));
        assert((n / 10) * 10 + n % 10 == n) by (nonlinear_arith);
    }
}

/// An integer's decimal text reads back as that integer.
pub proof fn law_decimal_text_reads_back(n: int)
    requires
        i64::MIN <= n <= i64::MAX,
    ensures
        parse_int(crate::text::decimal(n)) == Some(n),
{
    let text = crate::text::decimal(n);
    if n < 0 {
        let body = crate::text::digits((-n) as nat);
        lemma_digits_read_back((-n) as nat);
        assert(text.drop_first() =~= body);
        assert(text[0] == '-');
    } else {
        lemma_digits_read_back(n as nat);
        assert(is_digit(text[0]));
    }
}
} // verus!
