//! What bytes, digits, numerals, texts and timestamps say.

use crate::calendar::{days_since_start, leap_year, month_len, valid_date, weekday};
use crate::json_parser::{id_suffix, transaction};
use crate::json_values::{category_at, has_timestamp, has_two_digits, hash_of, hour_at, integer_at,
    minutes_between, moment_at, moment_of, string_at, timestamp_start, timestamp_text, two_digits, weekday_at};
use crate::mcc_risk::risks_in;
use crate::number::{after_sign, fraction_at, has_point, int_digits, int_end, mantissa_end,
    number_at, plain_number_at, whole, NumberView};
use crate::scan::{decimal, digits_at, find, lemma_found, run_end, stands_at, ByteClass};
use crate::spelling::{is_integer, is_number, is_text, is_timestamp, number_of};
use vstd::arithmetic::power::{lemma_pow0, lemma_pow_adds, lemma_pow1, pow};
use vstd::prelude::*;

verus! {

/// Which bytes belong to the classes.
pub proof fn law_byte_classes(b: u8, x: u8)
    ensures
        ByteClass::Whitespace.has(b) <==> b == 32 || b == 9 || b == 10 || b == 13,
        ByteClass::Separator.has(b) <==> ByteClass::Whitespace.has(b) || b == 44,
        ByteClass::Blank.has(b) <==> b == 32 || b == 9,
        ByteClass::KeyGap.has(b) <==> b == 32 || b == 58,
        ByteClass::Digit.has(b) <==> 48 <= b <= 57,
        ByteClass::Not(x).has(b) <==> b != x,
{
}

/// Whether a sequence consists of ASCII digits.
pub open spec fn all_digits(s: Seq<u8>) -> bool {
    forall|i: int| 0 <= i < s.len() ==> 48 <= #[trigger] s[i] <= 57
}

/// No digits write zero, one digit writes its own value, and digits in front
/// count by the power of ten of what follows.
pub proof fn law_decimal(a: Seq<u8>, b: Seq<u8>, digit: u8)
    requires
        48 <= digit <= 57,
    ensures
        decimal(Seq::empty()) == 0,
        decimal(seq![digit]) == digit - 48,
        decimal(a + b) == decimal(a) * pow(10, b.len()) + decimal(b),
    decreases b.len(),
{
    assert(seq![digit].drop_last() =~= Seq::<u8>::empty());
    reveal_with_fuel(decimal, 2);
    if b.len() == 0 {
        assert(a + b =~= a);
        lemma_pow0(10);
    } else {
        let c = b.drop_last();
        law_decimal(a, c, digit);
        assert((a + b).drop_last() =~= a + c);
        lemma_pow_adds(10, c.len(), 1);
        lemma_pow1(10);
        let p = pow(10, c.len());
        let x = decimal(a) as int;
        let y = decimal(c) as int;
        assert(10 * (x * p + y) == x * (p * 10) + 10 * y) by (nonlinear_arith);
        assert(decimal(a + b) == 10 * decimal(a + c) + ((b.last() - 48) as nat));
    }
}

/// A run of digits that something else follows, or nothing.
pub proof fn lemma_digits_run(d: Seq<u8>, p: int, e: int)
    requires
        0 <= p <= e <= d.len(),
        forall|i: int| p <= i < e ==> 48 <= #[trigger] d[i] <= 57,
        e < d.len() ==> !(48 <= d[e] <= 57),
    ensures
        run_end(d, p, ByteClass::Digit) == e,
    decreases e - p,
{
    if p < e {
        assert(48 <= d[p] <= 57);
        lemma_digits_run(d, p + 1, e);
    }
}

/// A numeral as it is written: a sign, digits, a point with digits, and an
/// exponent, of which only the first digits need be there.
pub struct Numeral {
    pub negative: bool,
    pub digits: Seq<u8>,
    pub fraction: Option<Seq<u8>>,
    pub exponent: Option<Exponent>,
}

/// An exponent as it is written.
pub struct Exponent {
    /// Whether its mark is a capital letter.
    pub upper: bool,
    pub sign: Sign,
    pub digits: Seq<u8>,
}

/// The sign of an exponent.
pub enum Sign {
    Unsigned,
    Plus,
    Minus,
}

/// Whether a numeral consists of digits, and has digits where it needs them.
pub open spec fn is_proper(n: Numeral) -> bool {
    &&& n.digits.len() > 0
    &&& all_digits(n.digits)
    &&& n.fraction matches Some(f) ==> all_digits(f)
    &&& n.exponent matches Some(e) ==> e.digits.len() > 0 && all_digits(e.digits)
}

/// The sign of a numeral.
pub open spec fn sign_text(negative: bool) -> Seq<u8> {
    if negative {
        seq![45u8]
    } else {
        seq![]
    }
}

/// The point of a numeral and the digits behind it.
pub open spec fn fraction_text(n: Numeral) -> Seq<u8> {
    match n.fraction {
        Some(f) => seq![46u8] + f,
        None => seq![],
    }
}

/// The letter that marks an exponent.
pub open spec fn mark(e: Exponent) -> u8 {
    if e.upper {
        69
    } else {
        101
    }
}

/// The sign of an exponent in text.
pub open spec fn exponent_sign(e: Exponent) -> Seq<u8> {
    match e.sign {
        Sign::Unsigned => seq![],
        Sign::Plus => seq![43u8],
        Sign::Minus => seq![45u8],
    }
}

/// The exponent of a numeral.
pub open spec fn exponent_text(n: Numeral) -> Seq<u8> {
    match n.exponent {
        Some(e) => seq![mark(e)] + exponent_sign(e) + e.digits,
        None => seq![],
    }
}

/// The text of a numeral.
pub open spec fn written(n: Numeral) -> Seq<u8> {
    sign_text(n.negative) + n.digits + fraction_text(n) + exponent_text(n)
}

/// What a numeral says, its integer part in 32 bits.
pub open spec fn meant(n: Numeral, r: NumberView) -> bool {
    &&& r.negative == n.negative
    &&& r.int_part == decimal(n.digits) % 0x1_0000_0000
    &&& match n.fraction {
        Some(f) => r.fraction.len() == f.len() && forall|i: int|
            0 <= i < f.len() ==> #[trigger] r.fraction[i] == f[i] - 48,
        None => r.fraction.len() == 0,
    }
    &&& match n.exponent {
        Some(e) => r.exponent == Some(
            if e.sign is Minus {
                -(decimal(e.digits) as int)
            } else {
                decimal(e.digits) as int
            },
        ),
        None => r.exponent is None,
    }
}

/// The text of a numeral but for its exponent.
pub open spec fn mantissa_text(n: Numeral) -> Seq<u8> {
    sign_text(n.negative) + n.digits + fraction_text(n)
}

proof fn lemma_int_part_is_read(n: Numeral, rest: Seq<u8>)
    requires
        is_proper(n),
        rest.len() > 0 ==> !(48 <= rest[0] <= 57) && rest[0] != 46,
    ensures
        ({
            let d = mantissa_text(n) + rest;
            let a = sign_text(n.negative).len();
            &&& 0 < d.len()
            &&& d[0] == 45 <==> n.negative
            &&& crate::scan::after_ws(d, 0) == 0
            &&& int_end(d, 0) == a + n.digits.len()
            &&& int_digits(d, 0) == n.digits
            &&& has_point(d, 0) <==> n.fraction is Some
        }),
{
    let d = mantissa_text(n) + rest;
    let a = sign_text(n.negative).len() as int;
    let i = a + n.digits.len();
    let m = mantissa_text(n).len() as int;
    assert forall|k: int| a <= k < i implies 48 <= #[trigger] d[k] <= 57 by {
        assert(d[k] == n.digits[k - a]);
    }
    assert(48 <= n.digits[0] <= 57);
    assert(d[a] == n.digits[0]);
    if n.fraction is Some {
        assert(d[i] == 46);
    } else if i < d.len() {
        assert(d[i] == rest[0]);
    }
    lemma_digits_run(d, a, i);
    assert(d.subrange(a, i) =~= n.digits);
}

proof fn lemma_fraction_is_read(n: Numeral, rest: Seq<u8>)
    requires
        is_proper(n),
        rest.len() > 0 ==> !(48 <= rest[0] <= 57) && rest[0] != 46,
    ensures
        ({
            let d = mantissa_text(n) + rest;
            let f = fraction_at(d, 0);
            &&& mantissa_end(d, 0) == mantissa_text(n).len()
            &&& match n.fraction {
                Some(g) => f.len() == g.len() && forall|i: int|
                    0 <= i < g.len() ==> #[trigger] f[i] == g[i] - 48,
                None => f.len() == 0,
            }
        }),
{
    lemma_int_part_is_read(n, rest);
    let d = mantissa_text(n) + rest;
    let i = (sign_text(n.negative).len() + n.digits.len()) as int;
    let m = mantissa_text(n).len() as int;
    if let Some(g) = n.fraction {
        assert forall|k: int| i + 1 <= k < m implies 48 <= #[trigger] d[k] <= 57 by {
            assert(d[k] == g[k - i - 1]);
        }
        if m < d.len() {
            assert(d[m] == rest[0]);
        }
        lemma_digits_run(d, i + 1, m);
        assert(d.subrange(i + 1, m) =~= g);
        let f = fraction_at(d, 0);
        assert forall|j: int| 0 <= j < g.len() implies #[trigger] f[j] == g[j] - 48 by {
            assert(48 <= g[j] <= 57);
        }
    }
}

proof fn lemma_exponent_is_read(n: Numeral)
    requires
        is_proper(n),
        n.exponent is Some,
    ensures
        ({
            let d = written(n);
            let m = mantissa_text(n).len() as int;
            let e = n.exponent.unwrap();
            &&& d[m] == mark(e)
            &&& m + 1 < d.len()
            &&& d[m + 1] == 45 <==> e.sign is Minus
            &&& after_sign(d, m + 1) == m + 1 + exponent_sign(e).len()
            &&& digits_at(d, after_sign(d, m + 1)) == e.digits
            &&& run_end(d, after_sign(d, m + 1), ByteClass::Digit) == d.len()
        }),
{
    let d = written(n);
    let m = mantissa_text(n).len() as int;
    let e = n.exponent.unwrap();
    let digits = e.digits;
    let x = exponent_text(n);
    let s = m + 1 + exponent_sign(e).len();
    assert(d =~= mantissa_text(n) + x);
    assert(d[m] == x[0]);
    assert(48 <= digits[0] <= 57);
    assert(d[s] == digits[0]);
    if !(e.sign is Unsigned) {
        assert(d[m + 1] == x[1]);
    }
    assert forall|k: int| s <= k < d.len() implies 48 <= #[trigger] d[k] <= 57 by {
        assert(d[k] == digits[k - s]);
    }
    lemma_digits_run(d, s, d.len() as int);
    assert(d.subrange(s, d.len() as int) =~= digits);
}

/// A numeral is read as what it writes: its sign, the value of its digits, the
/// digits behind its point and its exponent.
pub proof fn law_numeral_is_read(n: Numeral)
    requires
        is_proper(n),
        n.exponent matches Some(e) ==> decimal(e.digits) < 0x8000_0000,
    ensures
        is_number(written(n)),
        meant(n, number_of(written(n))),
{
    let x = exponent_text(n);
    assert(written(n) =~= mantissa_text(n) + x);
    lemma_int_part_is_read(n, x);
    lemma_fraction_is_read(n, x);
    if n.exponent is Some {
        lemma_exponent_is_read(n);
    }
}

/// A numeral without an exponent is read in a list of references likewise.
pub proof fn law_plain_numeral_is_read(n: Numeral, rest: Seq<u8>)
    requires
        is_proper(n),
        n.exponent is None,
        decimal(n.digits) < 0x8000_0000,
        rest.len() > 0 ==> !(48 <= rest[0] <= 57) && rest[0] != 46,
    ensures
        meant(n, plain_number_at(written(n) + rest, 0)),
        mantissa_end(written(n) + rest, 0) == written(n).len(),
{
    assert(written(n) =~= mantissa_text(n));
    lemma_int_part_is_read(n, rest);
    lemma_fraction_is_read(n, rest);
}

/// Digits are read as the number that they write, bare or in quotes.
pub proof fn law_integer_is_read(s: Seq<u8>)
    requires
        s.len() > 0,
        all_digits(s),
    ensures
        is_integer(s),
        integer_at(s, 0) == decimal(s),
        category_at(s, 0) == decimal(s),
        category_at(quoted(s), 0) == decimal(s),
        is_text(quoted(s)),
{
    assert(48 <= s[0] <= 57);
    assert(crate::scan::after_ws(s, 0) == 0);
    lemma_digits_run(s, 0, s.len() as int);
    assert(s.subrange(0, s.len() as int) =~= s);
    let t = quoted(s);
    assert forall|i: int| 0 <= i < s.len() implies #[trigger] s[i] != 34 by {}
    law_text_is_read(s);
    assert forall|k: int| 1 <= k < t.len() - 1 implies 48 <= #[trigger] t[k] <= 57 by {
        assert(t[k] == s[k - 1]);
    }
    assert(crate::scan::after_ws(t, 0) == 0);
    lemma_digits_run(t, 1, t.len() - 1);
    assert(t.subrange(1, t.len() - 1) =~= s);
}

/// A text in quotes.
pub open spec fn quoted(s: Seq<u8>) -> Seq<u8> {
    seq![34u8] + s + seq![34u8]
}

proof fn lemma_text_run(t: Seq<u8>, p: int)
    requires
        1 <= p <= t.len() - 1,
        t[t.len() - 1] == 34,
        forall|i: int| 1 <= i < t.len() - 1 ==> #[trigger] t[i] != 34,
    ensures
        run_end(t, p, ByteClass::Not(34)) == t.len() - 1,
    decreases t.len() - p,
{
    if p < t.len() - 1 {
        lemma_text_run(t, p + 1);
    }
}

/// A text in quotes is read as what stands between them.
pub proof fn law_text_is_read(s: Seq<u8>)
    requires
        forall|i: int| 0 <= i < s.len() ==> #[trigger] s[i] != 34,
    ensures
        is_text(quoted(s)),
        string_at(quoted(s), 0) == s,
{
    let t = quoted(s);
    assert(t[0] == 34);
    assert forall|i: int| 1 <= i < t.len() - 1 implies #[trigger] t[i] != 34 by {
        assert(t[i] == s[i - 1]);
    }
    lemma_text_run(t, 1);
    assert(crate::scan::after_ws(t, 0) == 0);
    assert(t.subrange(1, t.len() - 1) =~= s);
}

/// The number that two digits of a text write.
pub open spec fn two(s: Seq<u8>, p: int) -> int {
    10 * (s[p] - 48) + (s[p + 1] - 48)
}

/// The year of a timestamp.
pub open spec fn year_in(s: Seq<u8>) -> int {
    100 * two(s, 0) + two(s, 2)
}

/// Whether a text starts like 2026-03-11T20:23:35: digits where a date and a
/// time have them.
pub open spec fn has_fields(s: Seq<u8>) -> bool {
    &&& s.len() >= 19
    &&& forall|i: int| 0 <= i < s.len() ==> #[trigger] s[i] != 34
    &&& all_digits(s.subrange(0, 4))
    &&& all_digits(s.subrange(5, 7))
    &&& all_digits(s.subrange(8, 10))
    &&& all_digits(s.subrange(11, 13))
    &&& all_digits(s.subrange(14, 16))
    &&& all_digits(s.subrange(17, 19))
}

proof fn lemma_fields(s: Seq<u8>)
    requires
        has_fields(s),
    ensures
        48 <= s[0] <= 57 && 48 <= s[1] <= 57 && 48 <= s[2] <= 57 && 48 <= s[3] <= 57,
        48 <= s[5] <= 57 && 48 <= s[6] <= 57 && 48 <= s[8] <= 57 && 48 <= s[9] <= 57,
        48 <= s[11] <= 57 && 48 <= s[12] <= 57 && 48 <= s[14] <= 57 && 48 <= s[15] <= 57,
        48 <= s[17] <= 57 && 48 <= s[18] <= 57,
{
    let a = s.subrange(0, 4);
    assert(a[0] == s[0] && a[1] == s[1] && a[2] == s[2] && a[3] == s[3]);
    let b = s.subrange(5, 7);
    assert(b[0] == s[5] && b[1] == s[6]);
    let c = s.subrange(8, 10);
    assert(c[0] == s[8] && c[1] == s[9]);
    let e = s.subrange(11, 13);
    assert(e[0] == s[11] && e[1] == s[12]);
    let f = s.subrange(14, 16);
    assert(f[0] == s[14] && f[1] == s[15]);
    let g = s.subrange(17, 19);
    assert(g[0] == s[17] && g[1] == s[18]);
}

proof fn lemma_two(d: Seq<u8>, p: int)
    requires
        48 <= d[p] <= 57,
        48 <= d[p + 1] <= 57,
    ensures
        two_digits(d, p) == two(d, p),
        has_two_digits(d, p),
{
}

proof fn lemma_moment(s: Seq<u8>)
    requires
        has_fields(s),
    ensures
        ({
            let proper = year_in(s) >= 1 && valid_date(year_in(s), two(s, 5), two(s, 8)) && two(
                s,
                11,
            ) < 24 && two(s, 14) < 60 && two(s, 17) < 60;
            &&& proper ==> moment_of(s) == Some(
                86_400 * days_since_start(year_in(s), two(s, 5), two(s, 8)) + 3_600 * two(s, 11)
                    + 60 * two(s, 14) + two(s, 17),
            )
            &&& !proper ==> moment_of(s) is None
        }),
{
    lemma_fields(s);
    lemma_two(s, 0);
    lemma_two(s, 2);
    lemma_two(s, 5);
    lemma_two(s, 8);
    lemma_two(s, 11);
    lemma_two(s, 14);
    lemma_two(s, 17);
}

proof fn lemma_quoted_fields(s: Seq<u8>)
    requires
        has_fields(s),
    ensures
        ({
            let t = quoted(s);
            &&& is_timestamp(t)
            &&& timestamp_start(t, 0) == 1
            &&& timestamp_text(t, 0) == s
            &&& two_digits(t, 1) == two(s, 0)
            &&& two_digits(t, 3) == two(s, 2)
            &&& two_digits(t, 6) == two(s, 5)
            &&& two_digits(t, 9) == two(s, 8)
            &&& two_digits(t, 12) == two(s, 11)
        }),
{
    let t = quoted(s);
    lemma_fields(s);
    law_text_is_read(s);
    assert(crate::scan::after_ws(t, 0) == 0);
    assert(t[1] == s[0] && t[2] == s[1] && t[3] == s[2] && t[4] == s[3]);
    assert(t[6] == s[5] && t[7] == s[6] && t[9] == s[8] && t[10] == s[9]);
    assert(t[12] == s[11] && t[13] == s[12]);
    lemma_two(t, 1);
    lemma_two(t, 3);
    lemma_two(t, 6);
    lemma_two(t, 9);
    lemma_two(t, 12);
    assert(timestamp_text(t, 0) == string_at(t, 0));
}

/// A timestamp tells its hour, the weekday of its date, counted from Monday, and
/// the second that it stands for.
pub proof fn law_timestamp_is_read(s: Seq<u8>)
    requires
        has_fields(s),
        year_in(s) >= 1,
        valid_date(year_in(s), two(s, 5), two(s, 8)),
    ensures
        is_timestamp(quoted(s)),
        hour_at(quoted(s), 0) == two(s, 11),
        weekday_at(quoted(s), 0) == days_since_start(year_in(s), two(s, 5), two(s, 8)) % 7,
        two(s, 11) < 24 && two(s, 14) < 60 && two(s, 17) < 60 ==> moment_at(quoted(s), 0) == Some(
            ((days_since_start(year_in(s), two(s, 5), two(s, 8)) * 24 + two(s, 11)) * 60 + two(
                s,
                14,
            )) * 60 + two(s, 17),
        ),
        two(s, 11) >= 24 || two(s, 14) >= 60 || two(s, 17) >= 60 ==> moment_at(
            quoted(s),
            0,
        ) is None,
{
    lemma_fields(s);
    lemma_quoted_fields(s);
    lemma_moment(s);
    crate::calendar::law_weekday_counts_days(year_in(s), two(s, 5), two(s, 8));
}

/// A text that names no date and no time stands for no moment.
pub proof fn law_no_date_no_moment(s: Seq<u8>)
    requires
        has_fields(s),
        year_in(s) < 1 || !valid_date(year_in(s), two(s, 5), two(s, 8)),
    ensures
        moment_of(s) is None,
{
    lemma_moment(s);
}

proof fn lemma_four_centuries(year: int)
    ensures
        (year + 400) % 4 == year % 4,
        (year + 400) % 100 == year % 100,
        (year + 400) % 400 == year % 400,
{
}

/// The calendar: days are counted from the first of January of year one, a
/// Monday, and every fourth year has a leap day but for three of four centuries.
pub proof fn law_calendar(year: int, month: int, day: int)
    requires
        year >= 1,
        1 <= month <= 12,
    ensures
        days_since_start(1, 1, 1) == 0,
        weekday(1, 1, 1) == 0,
        leap_year(year) <==> year % 400 == 0 || year % 4 == 0 && year % 100 != 0,
        month_len(year, 2) == if leap_year(year) {
            29int
        } else {
            28int
        },
        month == 4 || month == 6 || month == 9 || month == 11 ==> month_len(year, month) == 30,
        month == 1 || month == 3 || month == 5 || month == 7 || month == 8 || month == 10 || month
            == 12 ==> month_len(year, month) == 31,
        valid_date(year, month, day) <==> 1 <= day <= month_len(year, month),
{
}

/// A year has 365 days, or 366 with its leap day; four hundred years have
/// 146097.
pub proof fn law_long_calendar(year: int, month: int, day: int)
    requires
        year >= 1,
        1 <= month <= 12,
    ensures
        days_since_start(year + 400, month, day) == days_since_start(year, month, day) + 146_097,
        days_since_start(year + 1, 1, 1) - days_since_start(year, 1, 1) == if leap_year(year) {
            366int
        } else {
            365int
        },
{
    crate::calendar::lemma_leap_years(year);
    assert(leap_year(year + 400) == leap_year(year)) by {
        lemma_four_centuries(year);
    }
    assert((year + 400 - 1) / 4 == (year - 1) / 4 + 100);
    assert((year + 400 - 1) / 100 == (year - 1) / 100 + 4);
    assert((year + 400 - 1) / 400 == (year - 1) / 400 + 1);
}

/// Minutes are whole ones: as many as have passed, up to a limit of 65535; none
/// where a moment is not known or lies behind.
pub proof fn law_minutes(a: int, b: int, from: Option<int>, to: Option<int>)
    ensures
        ({
            let m = minutes_between(Some(a), Some(b));
            &&& 0 <= m <= 65_535
            &&& b < a ==> m == 0
            &&& a <= b ==> 60 * m <= b - a
            &&& a <= b && m < 65_535 ==> b - a < 60 * (m + 1)
        }),
        from is None || to is None ==> minutes_between(from, to) == 0,
{
}

/// The number of an id stands behind its first dash; without a dash an id has
/// none.
pub proof fn law_id_number(prefix: Seq<u8>, digits: Seq<u8>, otherwise: u64)
    requires
        forall|i: int| 0 <= i < prefix.len() ==> #[trigger] prefix[i] != 45,
        digits.len() > 0,
        all_digits(digits),
        decimal(digits) <= u64::MAX,
    ensures
        id_suffix(prefix + seq![45u8] + digits, otherwise) == decimal(digits),
        id_suffix(prefix, otherwise) == otherwise,
{
    let id = prefix + seq![45u8] + digits;
    let k = prefix.len() as int;
    let dash = seq![45u8];
    assert(id.subrange(k, k + 1) =~= dash);
    assert forall|j: int| 0 <= j < k implies !#[trigger] stands_at(id, j, dash) by {
        if stands_at(id, j, dash) {
            assert(id.subrange(j, j + 1)[0] == id[j]);
            assert(id[j] == prefix[j]);
        }
    }
    lemma_found(id, 0, dash, k);
    assert forall|i: int| k + 1 <= i < id.len() implies 48 <= #[trigger] id[i] <= 57 by {
        assert(id[i] == digits[i - k - 1]);
    }
    assert(id[k + 1] == digits[0]);
    assert(crate::scan::after_ws(id, k + 1) == k + 1);
    lemma_digits_run(id, k + 1, id.len() as int);
    assert(id.subrange(k + 1, id.len() as int) =~= digits);
    crate::scan::lemma_find(prefix, 0, dash);
    if let Some(j) = find(prefix, 0, dash) {
        assert(prefix.subrange(j, j + 1)[0] == prefix[j]);
    }
}

/// The hash of a text grows with each byte from a common start.
pub proof fn law_text_hash_step(s: Seq<u8>, b: u8)
    ensures
        hash_of(Seq::empty()) == 5381,
        hash_of(s.push(b)) == (33 * hash_of(s) + b) % 4_294_967_296,
        0 <= hash_of(s) < 4_294_967_296,
    decreases s.len(),
{
    assert(s.push(b).drop_last() =~= s);
}

/// A step of the hash tells both the hash before and the byte apart.
proof fn lemma_hash_step(g: int, h: int, x: u8, y: u8)
    requires
        0 <= g < 4_294_967_296,
        0 <= h < 4_294_967_296,
        (33 * g + x) % 4_294_967_296 == (33 * h + y) % 4_294_967_296,
        g == h || x == y,
    ensures
        g == h,
        x == y,
{
    let m: int = 4_294_967_296;
    let a = (33 * g + x) / m;
    let b = (33 * h + y) / m;
    assert(33 * g + x == m * a + (33 * g + x) % m);
    assert(33 * h + y == m * b + (33 * h + y) % m);
    if x == y {
        assert(33 * (g - h) == m * (a - b));
        let inv: int = 1041204193;
        assert(33 * inv == 8 * m + 1);
        assert(g - h == m * ((a - b) * inv - 8 * (g - h))) by (nonlinear_arith)
            requires
                33 * (g - h) == m * (a - b),
                33 * inv == 8 * m + 1,
        ;
        let k = (a - b) * inv - 8 * (g - h);
        assert(k == 0) by (nonlinear_arith)
            requires
                g - h == m * k,
                -m < g - h < m,
                m > 0,
        ;
    } else {
        assert(x - y == m * (a - b));
    }
}

/// Two texts of the same length that differ in one byte have different hashes.
pub proof fn law_text_hash_heeds_every_byte(s: Seq<u8>, i: int, b: u8)
    requires
        0 <= i < s.len(),
        s[i] != b,
    ensures
        hash_of(s) != hash_of(s.update(i, b)),
    decreases s.len(),
{
    let t = s.update(i, b);
    let s1 = s.drop_last();
    let t1 = t.drop_last();
    assert(s1.push(s.last()) =~= s && t1.push(t.last()) =~= t);
    law_text_hash_step(s1, s.last());
    law_text_hash_step(t1, t.last());
    if i < s.len() - 1 {
        assert(t1 =~= s1.update(i, b));
        law_text_hash_heeds_every_byte(s1, i, b);
    } else {
        assert(t1 =~= s1);
    }
    if hash_of(s) == hash_of(t) {
        lemma_hash_step(hash_of(s1), hash_of(t1), s.last(), t.last());
    }
}

/// The numeral of a number has that number as its integer part and nothing else.
pub proof fn law_whole_numbers(n: int)
    ensures
        !whole(n).negative,
        whole(n).int_part == n,
        whole(n).fraction.len() == 0,
        whole(n).exponent is None,
{
}

proof fn lemma_blank_run(d: Seq<u8>, p: int)
    requires
        0 <= p <= d.len(),
        forall|i: int| p <= i < d.len() ==> ByteClass::Whitespace.has(#[trigger] d[i]),
    ensures
        crate::scan::after_ws(d, p) == d.len(),
    decreases d.len() - p,
{
    if p < d.len() {
        assert(ByteClass::Whitespace.has(d[p]));
        lemma_blank_run(d, p + 1);
    }
}

/// Where nothing but whitespace follows, there is no numeral, no timestamp, no
/// transaction and no list of risks.
pub proof fn law_nothing_in_whitespace(d: Seq<u8>, p: int)
    requires
        0 <= p <= d.len(),
        forall|i: int| 0 <= i < d.len() ==> ByteClass::Whitespace.has(#[trigger] d[i]),
    ensures
        number_at(d, p) is None,
        !has_timestamp(d, p),
        transaction(d) is None,
        risks_in(d) is None,
{
    lemma_blank_run(d, p);
    lemma_blank_run(d, 0);
}

} // verus!
