//! Decimal numerals as they are written.
//!
//! A numeral is kept as sign, integer part, digits behind the point and
//! exponent, so that whoever needs it in another representation can round it
//! there. Integer parts and exponents are kept modulo 2^32.

use crate::scan::{after_byte, after_ws, decimal, digits_at, lemma_run_end, read_digits, run_end,
    scan, skip_byte, skip_ws, ByteClass, DOT, LOWER_E, MINUS, PLUS, UPPER_E, ZERO};
use vstd::arithmetic::div_mod::{lemma_mod_mod, lemma_sub_mod_noop};
use vstd::prelude::*;

verus! {

/// A numeral.
#[derive(Debug, Clone)]
pub struct Number {
    pub negative: bool,
    /// The part before the point.
    pub int_part: i64,
    /// The values of the digits behind the point.
    pub fraction: Vec<u8>,
    /// The power of ten that multiplies the numeral, where one is written.
    pub exponent: Option<i32>,
}

/// What a numeral says.
#[verifier::ext_equal]
pub struct NumberView {
    pub negative: bool,
    pub int_part: int,
    pub fraction: Seq<u8>,
    pub exponent: Option<int>,
}

impl View for Number {
    type V = NumberView;

    open spec fn view(&self) -> NumberView {
        NumberView {
            negative: self.negative,
            int_part: self.int_part as int,
            fraction: self.fraction@,
            exponent: match self.exponent {
                Some(e) => Some(e as int),
                None => None,
            },
        }
    }
}

/// The numeral of a natural number.
pub open spec fn whole(n: int) -> NumberView {
    NumberView { negative: false, int_part: n, fraction: Seq::empty(), exponent: None }
}

impl Number {
    /// The numeral zero.
    pub fn zero() -> (r: Self)
        ensures
            r@ == whole(0),
    {
        Number { negative: false, int_part: 0, fraction: Vec::new(), exponent: None }
    }
}

/// An integer reduced to a signed 32-bit value.
pub open spec fn signed32(x: int) -> int {
    if x % 0x1_0000_0000 >= 0x8000_0000 {
        x % 0x1_0000_0000 - 0x1_0000_0000
    } else {
        x % 0x1_0000_0000
    }
}

/// The end of the digits of the integer part of a numeral at `p`.
pub open spec fn int_end(d: Seq<u8>, p: int) -> int {
    run_end(d, after_byte(d, p, MINUS), ByteClass::Digit)
}

/// The digits of the integer part of a numeral at `p`.
pub open spec fn int_digits(d: Seq<u8>, p: int) -> Seq<u8> {
    digits_at(d, after_byte(d, p, MINUS))
}

/// Whether the numeral at `p` has a point.
pub open spec fn has_point(d: Seq<u8>, p: int) -> bool {
    int_end(d, p) < d.len() && d[int_end(d, p)] == DOT
}

/// The end of the numeral at `p`, but for its exponent.
pub open spec fn mantissa_end(d: Seq<u8>, p: int) -> int {
    if has_point(d, p) {
        run_end(d, int_end(d, p) + 1, ByteClass::Digit)
    } else {
        int_end(d, p)
    }
}

/// The values of the digits behind the point of the numeral at `p`.
pub open spec fn fraction_at(d: Seq<u8>, p: int) -> Seq<u8> {
    if has_point(d, p) {
        digits_at(d, int_end(d, p) + 1).map_values(|b: u8| (b - ZERO) as u8)
    } else {
        Seq::empty()
    }
}

/// The numeral at `p` without an exponent, its integer part as a signed 32-bit
/// value.
pub open spec fn plain_number_at(d: Seq<u8>, p: int) -> NumberView {
    NumberView {
        negative: p < d.len() && d[p] == MINUS,
        int_part: signed32(decimal(int_digits(d, p)) as int),
        fraction: fraction_at(d, p),
        exponent: None,
    }
}

/// Whether an exponent mark stands at `p`.
pub open spec fn is_exponent_mark(d: Seq<u8>, p: int) -> bool {
    p < d.len() && (d[p] == LOWER_E || d[p] == UPPER_E)
}

/// The position behind a sign at `p`, where one stands there.
pub open spec fn after_sign(d: Seq<u8>, p: int) -> int {
    if p < d.len() && (d[p] == MINUS || d[p] == PLUS) {
        p + 1
    } else {
        p
    }
}

/// The numeral that follows `p` and any whitespace, and the position behind it.
/// There is none where the text ends before the numeral or behind its exponent
/// mark.
pub open spec fn number_at(d: Seq<u8>, p: int) -> Option<(NumberView, int)> {
    let s = after_ws(d, p);
    let m = mantissa_end(d, s);
    let mantissa = NumberView {
        negative: d[s] == MINUS,
        int_part: (decimal(int_digits(d, s)) % 0x1_0000_0000) as int,
        fraction: fraction_at(d, s),
        exponent: None,
    };
    if s >= d.len() {
        None
    } else if !is_exponent_mark(d, m) {
        Some((mantissa, m))
    } else if m + 1 >= d.len() {
        None
    } else {
        let e = after_sign(d, m + 1);
        let size = decimal(digits_at(d, e)) as int;
        let exponent = if d[m + 1] == MINUS {
            signed32(-size)
        } else {
            signed32(size)
        };
        Some((NumberView { exponent: Some(exponent), ..mantissa }, run_end(d, e, ByteClass::Digit)))
    }
}

/// A mantissa lies inside the text.
pub proof fn lemma_mantissa_end(d: Seq<u8>, p: int)
    requires
        0 <= p <= d.len(),
    ensures
        p <= after_byte(d, p, MINUS) <= int_end(d, p) <= mantissa_end(d, p) <= d.len(),
{
    lemma_run_end(d, after_byte(d, p, MINUS), ByteClass::Digit);
    if has_point(d, p) {
        lemma_run_end(d, int_end(d, p) + 1, ByteClass::Digit);
    }
}

/// A numeral ends inside the text, no earlier than it starts.
pub proof fn lemma_number_at(d: Seq<u8>, p: int)
    requires
        0 <= p <= d.len(),
    ensures
        number_at(d, p) matches Some((_, q)) ==> p <= q <= d.len(),
{
    lemma_run_end(d, p, ByteClass::Whitespace);
    let s = after_ws(d, p);
    lemma_mantissa_end(d, s);
    let m = mantissa_end(d, s);
    if m + 1 < d.len() {
        lemma_run_end(d, after_sign(d, m + 1), ByteClass::Digit);
    }
}

/// Reads the integer digits of a numeral, modulo 2^64, and the digits behind
/// its point.
fn read_mantissa(data: &[u8], pos: usize) -> (r: (u64, Vec<u8>, usize))
    requires
        pos <= data@.len(),
    ensures
        r.0 == decimal(int_digits(data@, pos as int)) % 0x1_0000_0000_0000_0000,
        r.1@ == fraction_at(data@, pos as int),
        r.2 == mantissa_end(data@, pos as int),
        pos <= r.2 <= data@.len(),
{
    let start: usize = skip_byte(data, pos, MINUS);
    let point: usize = scan(data, start, ByteClass::Digit);
    proof {
        lemma_run_end(data@, start as int, ByteClass::Digit);
    }
    let value: u64 = read_digits(data, start, point);
    let mut fraction: Vec<u8> = Vec::new();
    if point < data.len() && data[point] == DOT {
        let first: usize = point + 1;
        let end: usize = scan(data, first, ByteClass::Digit);
        proof {
            lemma_run_end(data@, first as int, ByteClass::Digit);
        }
        let mut i: usize = first;
        while i < end
            invariant
                first <= i <= end <= data@.len(),
                forall|j: int| first <= j < end ==> ByteClass::Digit.has(#[trigger] data@[j]),
                fraction@ =~= data@.subrange(first as int, i as int).map_values(
                    |b: u8| (b - ZERO) as u8,
                ),
            decreases end - i,
        {
            fraction.push(data[i] - ZERO);
            i = i + 1;
        }
        (value, fraction, end)
    } else {
        (value, fraction, point)
    }
}

/// What is known modulo 2^64 is known modulo 2^32.
proof fn lemma_low32(x: int)
    ensures
        (x % 0x1_0000_0000_0000_0000) % 0x1_0000_0000 == x % 0x1_0000_0000,
{
    lemma_mod_mod(x, 0x1_0000_0000, 0x1_0000_0000);
}

/// Negates an integer known modulo 2^64.
fn negate(value: u64, Ghost(x): Ghost<int>) -> (r: u64)
    requires
        value == x % 0x1_0000_0000_0000_0000,
    ensures
        r == (-x) % 0x1_0000_0000_0000_0000,
{
    proof {
        lemma_sub_mod_noop(0, x, 0x1_0000_0000_0000_0000);
        lemma_sub_mod_noop(0, value as int, 0x1_0000_0000_0000_0000);
    }
    0u64.wrapping_sub(value)
}

/// An integer known modulo 2^64 as a signed 32-bit value.
fn to_signed32(value: u64, Ghost(x): Ghost<int>) -> (r: i32)
    requires
        value == x % 0x1_0000_0000_0000_0000,
    ensures
        r == signed32(x),
{
    let low: u64 = value % 0x1_0000_0000;
    proof {
        lemma_low32(x);
    }
    if low >= 0x8000_0000 {
        (low as i64 - 0x1_0000_0000) as i32
    } else {
        low as i32
    }
}

/// Reads a numeral without an exponent.
pub fn read_plain_number(data: &[u8], pos: usize) -> (r: (Number, usize))
    requires
        pos <= data@.len(),
    ensures
        r.0@ == plain_number_at(data@, pos as int),
        r.1 == mantissa_end(data@, pos as int),
        pos <= r.1 <= data@.len(),
{
    let negative: bool = pos < data.len() && data[pos] == MINUS;
    let (value, fraction, end) = read_mantissa(data, pos);
    let int_part: i32 = to_signed32(value, Ghost(decimal(int_digits(data@, pos as int)) as int));
    (Number { negative, int_part: int_part as i64, fraction, exponent: None }, end)
}

/// Reads a numeral like 384.88 or 1e-3, behind any whitespace.
pub fn parse_number(data: &[u8], pos: usize) -> (r: Option<(Number, usize)>)
    requires
        pos <= data@.len(),
    ensures
        match r {
            Some((n, q)) => number_at(data@, pos as int) == Some((n@, q as int)) && pos <= q
                <= data@.len(),
            None => number_at(data@, pos as int) is None,
        },
{
    let s: usize = skip_ws(data, pos);
    if s >= data.len() {
        return None;
    }
    let negative: bool = data[s] == MINUS;
    let (value, fraction, m) = read_mantissa(data, s);
    let int_part: i64 = (value % 0x1_0000_0000) as i64;
    proof {
        lemma_low32(decimal(int_digits(data@, s as int)) as int);
    }
    if m >= data.len() || (data[m] != LOWER_E && data[m] != UPPER_E) {
        return Some((Number { negative, int_part, fraction, exponent: None }, m));
    }
    if m + 1 >= data.len() {
        return None;
    }
    let below: bool = data[m + 1] == MINUS;
    let e: usize = if below || data[m + 1] == PLUS {
        m + 2
    } else {
        m + 1
    };
    let end: usize = scan(data, e, ByteClass::Digit);
    proof {
        lemma_run_end(data@, e as int, ByteClass::Digit);
    }
    let size: u64 = read_digits(data, e, end);
    let ghost written = decimal(digits_at(data@, e as int)) as int;
    let exponent: i32 = if below {
        to_signed32(negate(size, Ghost(written)), Ghost(-written))
    } else {
        to_signed32(size, Ghost(written))
    };
    Some((Number { negative, int_part, fraction, exponent: Some(exponent) }, end))
}

} // verus!
