//! The values of the transaction documents: integers, timestamps, booleans,
//! strings and arrays of strings.
//!
//! Integers that do not fit their field are reduced modulo the size of the
//! field.

use crate::calendar::{count_days, days_since_start, is_date, valid_date, weekday, zeller_weekday};
use crate::scan::{after_byte, after_ws, decimal, digits_at, lemma_run_end, read_digits, run_end,
    scan, skip_byte, skip_ws, stands_at, word_at, ByteClass, CLOSE_BRACKET, COMMA, OPEN_BRACKET,
    QUOTE, ZERO};
use vstd::arithmetic::div_mod::lemma_mod_mod;
use vstd::prelude::*;
use vstd::slice::slice_subrange;
use vstd::string::*;

verus! {

/// Most merchants that a customer is known to use.
pub const MAX_MERCHANTS: usize = 32;

/// The hash of a byte string: 33 times the hash of what precedes the last byte,
/// plus that byte, modulo 2^32; 5381 for the empty string.
pub open spec fn hash_of(s: Seq<u8>) -> int
    decreases s.len(),
{
    if s.len() == 0 {
        5381
    } else {
        (33 * hash_of(s.drop_last()) + s.last()) % 0x1_0000_0000
    }
}

/// Fast hash of a short string slice (e.g., "MERC-001").
pub fn hash_str(s: &[u8]) -> (r: u32)
    ensures
        r == hash_of(s@),
{
    let mut h: u32 = 5381;
    let mut i: usize = 0;
    assert(s@.take(0) =~= Seq::<u8>::empty());
    while i < s.len()
        invariant
            i <= s@.len(),
            h == hash_of(s@.take(i as int)),
        decreases s@.len() - i,
    {
        let b: u8 = s[i];
        assert(s@.take(i + 1).drop_last() =~= s@.take(i as int));
        h = h.wrapping_mul(33).wrapping_add(b as u32);
        i = i + 1;
    }
    assert(s@.take(s@.len() as int) =~= s@);
    h
}

/// Check if at current position we have the given bytes (after optional ws).
/// The second component is the position behind what was stepped over.
pub fn match_str(data: &[u8], pos: usize, s: &[u8]) -> (r: (bool, usize))
    requires
        pos <= data@.len(),
    ensures
        r.0 == stands_at(data@, after_ws(data@, pos as int), s@),
        r.1 == after_ws(data@, pos as int) + if r.0 {
            s@.len()
        } else {
            0
        },
        pos <= r.1 <= data@.len(),
{
    let len: usize = data.len();
    let p: usize = skip_ws(data, pos);
    if word_at(data, p, s) {
        (true, p + s.len())
    } else {
        (false, p)
    }
}

/// The integer that follows `p` and any whitespace; zero where no digit does.
pub open spec fn integer_at(d: Seq<u8>, p: int) -> int {
    decimal(digits_at(d, after_ws(d, p))) as int
}

/// The position behind the integer that follows `p` and any whitespace.
pub open spec fn after_integer(d: Seq<u8>, p: int) -> int {
    run_end(d, after_ws(d, p), ByteClass::Digit)
}

/// Parse a u64.
pub fn parse_u64(data: &[u8], pos: usize) -> (r: (u64, usize))
    requires
        pos <= data@.len(),
    ensures
        r.0 == integer_at(data@, pos as int) % 0x1_0000_0000_0000_0000,
        r.1 == after_integer(data@, pos as int),
        pos <= r.1 <= data@.len(),
{
    let start: usize = skip_ws(data, pos);
    let end: usize = scan(data, start, ByteClass::Digit);
    proof {
        lemma_run_end(data@, start as int, ByteClass::Digit);
    }
    (read_digits(data, start, end), end)
}

/// A number kept modulo the size of a u64 has the same low bytes.
proof fn lemma_low_bytes(n: int)
    ensures
        (n % 0x1_0000_0000_0000_0000) % 0x1_0000 == n % 0x1_0000,
        (n % 0x1_0000_0000_0000_0000) % 0x100 == n % 0x100,
{
    lemma_mod_mod(n, 0x1_0000, 0x1_0000_0000_0000);
    lemma_mod_mod(n, 0x100, 0x100_0000_0000_0000);
}

/// The number that the digits of `data` from `start` to `end` write, up to u16.
fn read_code(data: &[u8], start: usize, end: usize) -> (r: u16)
    requires
        start <= end <= data@.len(),
        forall|i: int| start <= i < end ==> ByteClass::Digit.has(#[trigger] data@[i]),
    ensures
        r == decimal(data@.subrange(start as int, end as int)) as int % 0x1_0000,
{
    proof {
        lemma_low_bytes(decimal(data@.subrange(start as int, end as int)) as int);
    }
    let value: u64 = read_digits(data, start, end);
    (value % 0x1_0000) as u16
}

/// Parse a positive integer up to u16.
pub fn parse_u16(data: &[u8], pos: usize) -> (r: (u16, usize))
    requires
        pos <= data@.len(),
    ensures
        r.0 == integer_at(data@, pos as int) % 0x1_0000,
        r.1 == after_integer(data@, pos as int),
        pos <= r.1 <= data@.len(),
{
    proof {
        lemma_low_bytes(integer_at(data@, pos as int));
    }
    let (value, end) = parse_u64(data, pos);
    ((value % 0x1_0000) as u16, end)
}

/// Parse a positive integer up to u8.
pub fn parse_u8(data: &[u8], pos: usize) -> (r: (u8, usize))
    requires
        pos <= data@.len(),
    ensures
        r.0 == integer_at(data@, pos as int) % 0x100,
        r.1 == after_integer(data@, pos as int),
        pos <= r.1 <= data@.len(),
{
    proof {
        lemma_low_bytes(integer_at(data@, pos as int));
    }
    let (value, end) = parse_u64(data, pos);
    ((value % 0x100) as u8, end)
}

/// The integer that follows `p` and any whitespace, bare or in quotes; zero
/// where no digit does.
pub open spec fn category_at(d: Seq<u8>, p: int) -> int {
    decimal(digits_at(d, string_start(d, p))) as int
}

/// The position behind the integer that follows `p`, or behind the quotes that
/// enclose it.
pub open spec fn after_category(d: Seq<u8>, p: int) -> int {
    if string_start(d, p) > after_ws(d, p) {
        after_string(d, p)
    } else {
        after_integer(d, p)
    }
}

/// Parse a merchant category code: an integer up to u16, bare or in quotes.
pub fn parse_category(data: &[u8], pos: usize) -> (r: (u16, usize))
    requires
        pos <= data@.len(),
    ensures
        r.0 == category_at(data@, pos as int) % 0x1_0000,
        r.1 == after_category(data@, pos as int),
        pos <= r.1 <= data@.len(),
{
    let s: usize = skip_ws(data, pos);
    let start: usize = skip_byte(data, s, QUOTE);
    let end: usize = scan(data, start, ByteClass::Digit);
    proof {
        lemma_run_end(data@, start as int, ByteClass::Digit);
    }
    let code: u16 = read_code(data, start, end);
    if start > s {
        (code, skip_byte(data, scan(data, start, ByteClass::Not(QUOTE)), QUOTE))
    } else {
        (code, end)
    }
}

/// The value of a byte as a digit, modulo 256.
pub open spec fn digit_of(b: u8) -> int {
    (b - ZERO) % 0x100
}

/// The value of two bytes as digits.
pub open spec fn two_digits(d: Seq<u8>, p: int) -> int {
    10 * digit_of(d[p]) + digit_of(d[p + 1])
}

/// Where the text of a timestamp behind `p` starts.
pub open spec fn timestamp_start(d: Seq<u8>, p: int) -> int {
    after_byte(d, after_ws(d, p), QUOTE)
}

/// Whether a timestamp behind `p` is long enough to hold an hour.
pub open spec fn has_timestamp(d: Seq<u8>, p: int) -> bool {
    after_ws(d, p) < d.len() && timestamp_start(d, p) + 12 < d.len()
}

/// The hour of the timestamp behind `p`, modulo 256.
pub open spec fn hour_at(d: Seq<u8>, p: int) -> int {
    two_digits(d, timestamp_start(d, p) + 11) % 0x100
}

/// The weekday of the timestamp behind `p`.
pub open spec fn weekday_at(d: Seq<u8>, p: int) -> int {
    let t = timestamp_start(d, p);
    weekday(
        100 * two_digits(d, t) + two_digits(d, t + 2),
        two_digits(d, t + 5),
        two_digits(d, t + 8),
    )
}

/// The position behind the timestamp that follows `p`.
pub open spec fn after_timestamp(d: Seq<u8>, p: int) -> int {
    after_byte(d, run_end(d, timestamp_start(d, p), ByteClass::Not(QUOTE)), QUOTE)
}

/// The value of two bytes as digits.
pub fn read_two_digits(data: &[u8], pos: usize) -> (r: i32)
    requires
        pos + 1 < data@.len(),
    ensures
        r == two_digits(data@, pos as int),
        0 <= r <= 2805,
{
    let tens: u8 = data[pos].wrapping_sub(ZERO);
    let ones: u8 = data[pos + 1].wrapping_sub(ZERO);
    tens as i32 * 10 + ones as i32
}

/// Extract hour and weekday (0=Mon,6=Sun) from an ISO timestamp like
/// "2026-03-11T20:23:35Z".
pub fn parse_timestamp(data: &[u8], pos: usize) -> (r: Option<(u8, u8, usize)>)
    requires
        pos <= data@.len(),
    ensures
        r is Some == has_timestamp(data@, pos as int),
        r matches Some((hour, wd, end)) ==> {
            &&& hour == hour_at(data@, pos as int)
            &&& wd == weekday_at(data@, pos as int)
            &&& end == after_timestamp(data@, pos as int)
            &&& pos <= end <= data@.len()
        },
{
    let s: usize = skip_ws(data, pos);
    if s >= data.len() {
        return None;
    }
    let t: usize = skip_byte(data, s, QUOTE);
    if data.len() - t <= 12 {
        return None;
    }
    let hour: u8 = (read_two_digits(data, t + 11) % 0x100) as u8;
    let year: i32 = read_two_digits(data, t) * 100 + read_two_digits(data, t + 2);
    let month: i32 = read_two_digits(data, t + 5);
    let day: i32 = read_two_digits(data, t + 8);
    let wd: u8 = zeller_weekday(year, month, day) as u8;
    let end: usize = skip_byte(data, scan(data, t, ByteClass::Not(QUOTE)), QUOTE);
    Some((hour, wd, end))
}

/// Whether two digits stand at `p`.
pub open spec fn has_two_digits(d: Seq<u8>, p: int) -> bool {
    ByteClass::Digit.has(d[p]) && ByteClass::Digit.has(d[p + 1])
}

/// Whether a text starts with a date and a time like 2026-03-11T20:23:35, from
/// year 1 on.
pub open spec fn is_moment(text: Seq<u8>) -> bool {
    &&& text.len() >= 19
    &&& has_two_digits(text, 0)
    &&& has_two_digits(text, 2)
    &&& has_two_digits(text, 5)
    &&& has_two_digits(text, 8)
    &&& has_two_digits(text, 11)
    &&& has_two_digits(text, 14)
    &&& has_two_digits(text, 17)
    &&& 100 * two_digits(text, 0) + two_digits(text, 2) >= 1
    &&& valid_date(
        100 * two_digits(text, 0) + two_digits(text, 2),
        two_digits(text, 5),
        two_digits(text, 8),
    )
    &&& two_digits(text, 11) < 24
    &&& two_digits(text, 14) < 60
    &&& two_digits(text, 17) < 60
}

/// The number of seconds from the start of year 1 to the date and time at the
/// start of a text; `None` where there is no such date and time.
pub open spec fn moment_of(text: Seq<u8>) -> Option<int> {
    if is_moment(text) {
        Some(
            86_400 * days_since_start(
                100 * two_digits(text, 0) + two_digits(text, 2),
                two_digits(text, 5),
                two_digits(text, 8),
            ) + 3_600 * two_digits(text, 11) + 60 * two_digits(text, 14) + two_digits(text, 17),
        )
    } else {
        None
    }
}

/// The text of the timestamp behind `p`, up to the next quote.
pub open spec fn timestamp_text(d: Seq<u8>, p: int) -> Seq<u8> {
    d.subrange(
        timestamp_start(d, p),
        run_end(d, timestamp_start(d, p), ByteClass::Not(QUOTE)),
    )
}

/// The moment of the timestamp behind `p`.
pub open spec fn moment_at(d: Seq<u8>, p: int) -> Option<int> {
    moment_of(timestamp_text(d, p))
}

/// A moment as a machine number says the same.
pub open spec fn as_moment(m: Option<i64>) -> Option<int> {
    match m {
        Some(seconds) => Some(seconds as int),
        None => None,
    }
}

/// Reads two digits, or tells that there are none.
fn read_field(text: &[u8], pos: usize) -> (r: Option<i32>)
    requires
        pos + 1 < text@.len(),
    ensures
        match r {
            Some(n) => has_two_digits(text@, pos as int) && n == two_digits(text@, pos as int) && 0
                <= n <= 99,
            None => !has_two_digits(text@, pos as int),
        },
{
    if ByteClass::Digit.contains(text[pos]) && ByteClass::Digit.contains(text[pos + 1]) {
        Some(read_two_digits(text, pos))
    } else {
        None
    }
}

/// Reads the date at the start of a text, as a number of days.
fn read_days(text: &[u8]) -> (r: Option<i64>)
    requires
        text@.len() >= 19,
    ensures
        ({
            let year = 100 * two_digits(text@, 0) + two_digits(text@, 2);
            let month = two_digits(text@, 5);
            let day = two_digits(text@, 8);
            let proper = has_two_digits(text@, 0) && has_two_digits(text@, 2) && has_two_digits(
                text@,
                5,
            ) && has_two_digits(text@, 8) && year >= 1 && valid_date(year, month, day);
            match r {
                Some(n) => proper && n == days_since_start(year, month, day) && 0 <= n
                    <= 1_000_000_000_000,
                None => !proper,
            }
        }),
{
    match (read_field(text, 0), read_field(text, 2), read_field(text, 5), read_field(text, 8)) {
        (Some(century), Some(rest), Some(month), Some(day)) => {
            let year: i32 = century * 100 + rest;
            if year >= 1 && is_date(year, month, day) {
                Some(count_days(year, month, day))
            } else {
                None
            }
        },
        _ => None,
    }
}

/// Reads the moment at the start of a text.
pub fn read_moment(text: &[u8]) -> (r: Option<i64>)
    ensures
        as_moment(r) == moment_of(text@),
{
    if text.len() < 19 {
        return None;
    }
    let days: Option<i64> = read_days(text);
    match (days, read_field(text, 11), read_field(text, 14), read_field(text, 17)) {
        (Some(days), Some(hour), Some(minute), Some(second)) => if hour < 24 && minute < 60
            && second < 60 {
            Some(86_400 * days + 3_600 * hour as i64 + 60 * minute as i64 + second as i64)
        } else {
            None
        },
        _ => None,
    }
}

/// Reads the moment of the timestamp at `pos`.
pub fn parse_moment(data: &[u8], pos: usize) -> (r: Option<i64>)
    requires
        pos <= data@.len(),
    ensures
        as_moment(r) == moment_at(data@, pos as int),
{
    let start: usize = skip_byte(data, skip_ws(data, pos), QUOTE);
    let end: usize = scan(data, start, ByteClass::Not(QUOTE));
    read_moment(slice_subrange(data, start, end))
}

/// The whole minutes from one moment to a later one, at most `u16::MAX`; zero
/// where one of them is unknown, or the second comes first.
pub open spec fn minutes_between(from: Option<int>, to: Option<int>) -> int {
    match (from, to) {
        (Some(a), Some(b)) => if b < a {
            0
        } else if (b - a) / 60 > u16::MAX {
            u16::MAX as int
        } else {
            (b - a) / 60
        },
        _ => 0,
    }
}

/// Counts the whole minutes from one moment to a later one.
pub fn count_minutes(from: Option<i64>, to: Option<i64>) -> (r: u16)
    ensures
        r == minutes_between(as_moment(from), as_moment(to)),
{
    match (from, to) {
        (Some(a), Some(b)) => {
            let seconds: i128 = b as i128 - a as i128;
            if seconds < 0 {
                0
            } else if seconds / 60 > u16::MAX as i128 {
                u16::MAX
            } else {
                (seconds / 60) as u16
            }
        },
        _ => 0,
    }
}

/// Whether the word `true` follows `p` and any whitespace.
pub open spec fn bool_at(d: Seq<u8>, p: int) -> bool {
    stands_at(d, after_ws(d, p), "true".spec_bytes())
}

/// The position behind the word `true` or `false` that follows `p` and any
/// whitespace.
pub open spec fn after_bool(d: Seq<u8>, p: int) -> int {
    if bool_at(d, p) {
        after_ws(d, p) + "true".spec_bytes().len()
    } else if stands_at(d, after_ws(d, p), "false".spec_bytes()) {
        after_ws(d, p) + "false".spec_bytes().len()
    } else {
        after_ws(d, p)
    }
}

/// Behind whitespace there is no further whitespace.
pub proof fn lemma_ws_twice(d: Seq<u8>, p: int)
    requires
        0 <= p <= d.len(),
    ensures
        after_ws(d, after_ws(d, p)) == after_ws(d, p),
{
    lemma_run_end(d, p, ByteClass::Whitespace);
}

/// Parse boolean: true or false.
pub fn parse_bool(data: &[u8], pos: usize) -> (r: (bool, usize))
    requires
        pos <= data@.len(),
    ensures
        r.0 == bool_at(data@, pos as int),
        r.1 == after_bool(data@, pos as int),
        pos <= r.1 <= data@.len(),
{
    let (yes, after) = match_str(data, pos, "true".as_bytes());
    if yes {
        return (true, after);
    }
    proof {
        lemma_ws_twice(data@, pos as int);
    }
    let (_no, end) = match_str(data, after, "false".as_bytes());
    (false, end)
}

/// Where the text of a string behind `p` starts.
pub open spec fn string_start(d: Seq<u8>, p: int) -> int {
    after_byte(d, after_ws(d, p), QUOTE)
}

/// Where the text of a string behind `p` ends.
pub open spec fn string_end(d: Seq<u8>, p: int) -> int {
    run_end(d, string_start(d, p), ByteClass::Not(QUOTE))
}

/// The text of the string behind `p`, up to the next quote.
pub open spec fn string_at(d: Seq<u8>, p: int) -> Seq<u8> {
    d.subrange(string_start(d, p), string_end(d, p))
}

/// The position behind the string that follows `p`.
pub open spec fn after_string(d: Seq<u8>, p: int) -> int {
    after_byte(d, string_end(d, p), QUOTE)
}

/// A string lies inside the text.
pub proof fn lemma_string(d: Seq<u8>, p: int)
    requires
        0 <= p <= d.len(),
    ensures
        p <= after_ws(d, p) <= string_start(d, p) <= string_end(d, p) <= after_string(d, p)
            <= d.len(),
{
    lemma_run_end(d, p, ByteClass::Whitespace);
    lemma_run_end(d, string_start(d, p), ByteClass::Not(QUOTE));
}

/// Parse a string value (skip quotes, return hash).
pub fn parse_str_hash(data: &[u8], pos: usize) -> (r: Option<(u32, usize)>)
    requires
        pos <= data@.len(),
    ensures
        r is Some == (after_ws(data@, pos as int) < data@.len()),
        r matches Some((h, end)) ==> {
            &&& h == hash_of(string_at(data@, pos as int))
            &&& end == after_string(data@, pos as int)
            &&& pos <= end <= data@.len()
        },
{
    let s: usize = skip_ws(data, pos);
    if s >= data.len() {
        return None;
    }
    let start: usize = skip_byte(data, s, QUOTE);
    let end: usize = scan(data, start, ByteClass::Not(QUOTE));
    let h: u32 = hash_str(slice_subrange(data, start, end));
    Some((h, skip_byte(data, end, QUOTE)))
}

/// The hashes of the strings of an array whose elements start at `p`, and the
/// position where the elements end.
pub open spec fn hashes_at(d: Seq<u8>, p: int) -> (Seq<u32>, int)
    decreases d.len() - p,
{
    let s = after_ws(d, p);
    if !(0 <= p <= d.len()) || s >= d.len() || d[s] == CLOSE_BRACKET {
        (Seq::empty(), s)
    } else {
        let h = hash_of(string_at(d, s)) as u32;
        let q = after_ws(d, after_string(d, s));
        if q < d.len() && d[q] == COMMA {
            proof {
                lemma_run_end(d, p, ByteClass::Whitespace);
                lemma_string(d, s);
                lemma_run_end(d, after_string(d, s), ByteClass::Whitespace);
            }
            let (rest, end) = hashes_at(d, q + 1);
            (seq![h] + rest, end)
        } else {
            (seq![h], q)
        }
    }
}

/// Where the elements of an array behind `p` start.
pub open spec fn array_start(d: Seq<u8>, p: int) -> int {
    after_byte(d, after_ws(d, p), OPEN_BRACKET)
}

/// The position behind the array that follows `p`.
pub open spec fn after_array(d: Seq<u8>, p: int) -> int {
    after_byte(d, after_ws(d, hashes_at(d, array_start(d, p)).1), CLOSE_BRACKET)
}

/// The list `old` after `hashes` have been written over its beginning, as far
/// as they fit.
pub open spec fn overwritten(old_list: Seq<u32>, hashes: Seq<u32>) -> Seq<u32> {
    Seq::new(
        old_list.len(),
        |i: int|
            if i < hashes.len() {
                hashes[i]
            } else {
                old_list[i]
            },
    )
}

/// How many of `hashes` fit a list of the given length.
pub open spec fn kept(hashes: Seq<u32>, room: int) -> int {
    if hashes.len() <= room {
        hashes.len() as int
    } else {
        room
    }
}

/// The elements of an array end inside the text, no earlier than they start.
pub proof fn lemma_hashes_at(d: Seq<u8>, p: int)
    requires
        0 <= p <= d.len(),
    ensures
        p <= hashes_at(d, p).1 <= d.len(),
    decreases d.len() - p,
{
    let s = after_ws(d, p);
    lemma_run_end(d, p, ByteClass::Whitespace);
    if s < d.len() && d[s] != CLOSE_BRACKET {
        lemma_string(d, s);
        lemma_run_end(d, after_string(d, s), ByteClass::Whitespace);
        let q = after_ws(d, after_string(d, s));
        if q < d.len() && d[q] == COMMA {
            lemma_hashes_at(d, q + 1);
        }
    }
}

/// Parse an array of strings like ["MERC-001","MERC-002"]. Writes the hashes
/// over the beginning of `out`; returns how many and the position behind the
/// array.
pub fn parse_str_array(data: &[u8], pos: usize, out: &mut [u32]) -> (r: Option<(u8, usize)>)
    requires
        pos <= data@.len(),
        kept(hashes_at(data@, array_start(data@, pos as int)).0, old(out)@.len() as int)
            <= u8::MAX,
    ensures
        r is Some == (after_ws(data@, pos as int) < data@.len()),
        r is None ==> final(out)@ == old(out)@,
        r matches Some((count, end)) ==> {
            let hashes = hashes_at(data@, array_start(data@, pos as int)).0;
            &&& final(out)@ == overwritten(old(out)@, hashes)
            &&& count == kept(hashes, old(out)@.len() as int)
            &&& end == after_array(data@, pos as int)
            &&& pos <= end <= data@.len()
        },
{
    let s: usize = skip_ws(data, pos);
    if s >= data.len() {
        return None;
    }
    let start: usize = skip_byte(data, s, OPEN_BRACKET);
    let ghost all = hashes_at(data@, start as int);
    let ghost mut seen: Seq<u32> = Seq::empty();
    let mut count: u8 = 0;
    let mut p: usize = start;
    proof {
        lemma_hashes_at(data@, start as int);
        assert(overwritten(out@, Seq::empty()) =~= out@);
        assert(seen + all.0 =~= all.0);
    }
    loop
        invariant_except_break
            all.0 == seen + hashes_at(data@, p as int).0,
            all.1 == hashes_at(data@, p as int).1,
        invariant
            pos <= start <= p <= data@.len(),
            out@ == overwritten(old(out)@, seen),
            count == kept(seen, out@.len() as int),
            out@.len() == old(out)@.len(),
            kept(all.0, out@.len() as int) <= u8::MAX,
        ensures
            all.0 == seen,
            all.1 == p,
        decreases data@.len() - p,
    {
        let e: usize = skip_ws(data, p);
        proof {
            lemma_ws_twice(data@, p as int);
        }
        if e >= data.len() || data[e] == CLOSE_BRACKET {
            assert(seen + Seq::<u32>::empty() =~= seen);
            p = e;
            break;
        }
        let (h, after) = parse_str_hash(data, e).unwrap();
        let ghost before = seen;
        proof {
            seen = seen.push(h);
        }
        if (count as usize) < out.len() {
            assert(all.0.len() > count) by {
                assert(all.0.len() == before.len() + hashes_at(data@, p as int).0.len());
            }
            out[count as usize] = h;
            count = count + 1;
        }
        assert(out@ =~= overwritten(old(out)@, seen));
        let q: usize = skip_ws(data, after);
        if q < data.len() && data[q] == COMMA {
            assert(before + (seq![h] + hashes_at(data@, q + 1).0) =~= seen + hashes_at(
                data@,
                q + 1,
            ).0);
            p = q + 1;
        } else {
            assert(before + seq![h] =~= seen);
            p = q;
            break;
        }
    }
    let end: usize = skip_byte(data, skip_ws(data, p), CLOSE_BRACKET);
    Some((count, end))
}

} // verus!
