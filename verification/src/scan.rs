//! Left-to-right scanning of byte slices.
//!
//! Every text format of this library is read by the same few moves: step over
//! a run of bytes of one class, step over one expected byte, compare a stretch
//! with a known word, and read a run of decimal digits.

use vstd::arithmetic::div_mod::{lemma_add_mod_noop, lemma_mod_twice, lemma_mul_mod_noop_left};
use vstd::prelude::*;

verus! {

pub const TAB: u8 = 0x09;

pub const LINE_FEED: u8 = 0x0a;

pub const CARRIAGE_RETURN: u8 = 0x0d;

pub const SPACE: u8 = 0x20;

pub const QUOTE: u8 = 0x22;

pub const PLUS: u8 = 0x2b;

pub const COMMA: u8 = 0x2c;

pub const MINUS: u8 = 0x2d;

pub const DOT: u8 = 0x2e;

pub const ZERO: u8 = 0x30;

pub const NINE: u8 = 0x39;

pub const COLON: u8 = 0x3a;

pub const UPPER_E: u8 = 0x45;

pub const OPEN_BRACKET: u8 = 0x5b;

pub const CLOSE_BRACKET: u8 = 0x5d;

pub const LOWER_E: u8 = 0x65;

pub const OPEN_BRACE: u8 = 0x7b;

pub const CLOSE_BRACE: u8 = 0x7d;

/// A set of bytes that a scan steps over.
#[derive(Clone, Copy)]
pub enum ByteClass {
    /// Space, tab, line feed or carriage return.
    Whitespace,
    /// Whitespace or a comma.
    Separator,
    /// Space or tab.
    Blank,
    /// Space or colon.
    KeyGap,
    /// An ASCII decimal digit.
    Digit,
    /// Any byte but the one given.
    Not(u8),
}

impl ByteClass {
    /// Whether `b` belongs to the class.
    pub open spec fn has(self, b: u8) -> bool {
        match self {
            ByteClass::Whitespace => b == SPACE || b == TAB || b == LINE_FEED || b
                == CARRIAGE_RETURN,
            ByteClass::Separator => b == SPACE || b == TAB || b == LINE_FEED || b
                == CARRIAGE_RETURN || b == COMMA,
            ByteClass::Blank => b == SPACE || b == TAB,
            ByteClass::KeyGap => b == SPACE || b == COLON,
            ByteClass::Digit => ZERO <= b <= NINE,
            ByteClass::Not(x) => b != x,
        }
    }

    /// Tests whether `b` belongs to the class.
    pub fn contains(self, b: u8) -> (r: bool)
        ensures
            r == self.has(b),
    {
        match self {
            ByteClass::Whitespace => b == SPACE || b == TAB || b == LINE_FEED || b
                == CARRIAGE_RETURN,
            ByteClass::Separator => b == SPACE || b == TAB || b == LINE_FEED || b
                == CARRIAGE_RETURN || b == COMMA,
            ByteClass::Blank => b == SPACE || b == TAB,
            ByteClass::KeyGap => b == SPACE || b == COLON,
            ByteClass::Digit => ZERO <= b && b <= NINE,
            ByteClass::Not(x) => b != x,
        }
    }
}

/// The end of the run of bytes of class `class` that starts at `p`.
pub open spec fn run_end(d: Seq<u8>, p: int, class: ByteClass) -> int
    decreases d.len() - p,
{
    if 0 <= p < d.len() && class.has(d[p]) {
        run_end(d, p + 1, class)
    } else {
        p
    }
}

/// The first position from `p` on that holds no whitespace.
pub open spec fn after_ws(d: Seq<u8>, p: int) -> int {
    run_end(d, p, ByteClass::Whitespace)
}

/// The position behind one byte `b`, where one stands at `p`; else `p`.
pub open spec fn after_byte(d: Seq<u8>, p: int, b: u8) -> int {
    if 0 <= p < d.len() && d[p] == b {
        p + 1
    } else {
        p
    }
}

/// A run that starts inside `d` ends inside `d`, consists of bytes of its
/// class, and is followed by none.
pub proof fn lemma_run_end(d: Seq<u8>, p: int, class: ByteClass)
    requires
        0 <= p <= d.len(),
    ensures
        p <= run_end(d, p, class) <= d.len(),
        forall|i: int| p <= i < run_end(d, p, class) ==> class.has(#[trigger] d[i]),
        run_end(d, p, class) < d.len() ==> !class.has(d[run_end(d, p, class)]),
    decreases d.len() - p,
{
    if p < d.len() && class.has(d[p]) {
        lemma_run_end(d, p + 1, class);
    }
}

/// Steps over the bytes of class `class` from `pos` on.
pub fn scan(data: &[u8], pos: usize, class: ByteClass) -> (r: usize)
    requires
        pos <= data@.len(),
    ensures
        r == run_end(data@, pos as int, class),
        pos <= r <= data@.len(),
{
    let mut p: usize = pos;
    while p < data.len() && class.contains(data[p])
        invariant
            pos <= p <= data@.len(),
            run_end(data@, pos as int, class) == run_end(data@, p as int, class),
        decreases data@.len() - p,
    {
        p = p + 1;
    }
    p
}

/// Skip whitespace characters.
pub fn skip_ws(data: &[u8], pos: usize) -> (r: usize)
    requires
        pos <= data@.len(),
    ensures
        r == after_ws(data@, pos as int),
        pos <= r <= data@.len(),
{
    scan(data, pos, ByteClass::Whitespace)
}

/// Steps over one byte `b`, if it stands at `pos`.
pub fn skip_byte(data: &[u8], pos: usize, b: u8) -> (r: usize)
    requires
        pos <= data@.len(),
    ensures
        r == after_byte(data@, pos as int, b),
        pos <= r <= data@.len(),
{
    if pos < data.len() && data[pos] == b {
        pos + 1
    } else {
        pos
    }
}

/// Whether `word` stands in `d` at `p`.
pub open spec fn stands_at(d: Seq<u8>, p: int, word: Seq<u8>) -> bool {
    0 <= p && p + word.len() <= d.len() && d.subrange(p, p + word.len()) == word
}

/// Tests whether `word` stands in `data` at `pos`.
pub fn word_at(data: &[u8], pos: usize, word: &[u8]) -> (r: bool)
    requires
        pos <= data@.len(),
    ensures
        r == stands_at(data@, pos as int, word@),
{
    let len: usize = data.len();
    if len - pos < word.len() {
        return false;
    }
    let mut i: usize = 0;
    while i < word.len()
        invariant
            i <= word@.len(),
            pos + word@.len() <= len,
            len == data@.len(),
            forall|j: int| 0 <= j < i ==> data@[pos + j] == #[trigger] word@[j],
        decreases word@.len() - i,
    {
        if data[pos + i] != word[i] {
            assert(data@.subrange(pos as int, pos + word@.len())[i as int] == data@[pos + i]);
            return false;
        }
        i = i + 1;
    }
    assert(data@.subrange(pos as int, pos + word@.len()) =~= word@);
    true
}

/// Tests whether two byte slices are equal.
pub fn same_bytes(a: &[u8], b: &[u8]) -> (r: bool)
    ensures
        r == (a@ == b@),
{
    if a.len() != b.len() {
        return false;
    }
    proof {
        assert(a@.subrange(0, b@.len() as int) =~= a@);
    }
    word_at(a, 0, b)
}

/// The first position from `from` on at which `word` stands in `d`.
pub open spec fn find(d: Seq<u8>, from: int, word: Seq<u8>) -> Option<int>
    decreases d.len() + 1 - from,
{
    if from < 0 || from + word.len() > d.len() {
        None
    } else if stands_at(d, from, word) {
        Some(from)
    } else {
        find(d, from + 1, word)
    }
}

/// `find` answers with a place where the word stands, with no earlier one; it
/// answers `None` only where the word stands nowhere.
pub proof fn lemma_find(d: Seq<u8>, from: int, word: Seq<u8>)
    requires
        0 <= from,
    ensures
        match find(d, from, word) {
            Some(i) => from <= i && stands_at(d, i, word) && forall|j: int|
                from <= j < i ==> !#[trigger] stands_at(d, j, word),
            None => forall|j: int| from <= j ==> !#[trigger] stands_at(d, j, word),
        },
    decreases d.len() + 1 - from,
{
    if from + word.len() <= d.len() && !stands_at(d, from, word) {
        lemma_find(d, from + 1, word);
    }
}

/// A word is found where it stands first.
pub proof fn lemma_found(d: Seq<u8>, from: int, word: Seq<u8>, i: int)
    requires
        0 <= from <= i,
        stands_at(d, i, word),
        forall|j: int| from <= j < i ==> !#[trigger] stands_at(d, j, word),
    ensures
        find(d, from, word) == Some(i),
{
    lemma_find(d, from, word);
}

/// Searches `data` for `word`, from `from` on.
pub fn find_word(data: &[u8], from: usize, word: &[u8]) -> (r: Option<usize>)
    requires
        from <= data@.len(),
    ensures
        match r {
            Some(i) => find(data@, from as int, word@) == Some(i as int) && from <= i && i
                + word@.len() <= data@.len(),
            None => find(data@, from as int, word@) is None,
        },
{
    let mut i: usize = from;
    while word.len() <= data.len() - i
        invariant
            from <= i <= data@.len(),
            find(data@, from as int, word@) == find(data@, i as int, word@),
        decreases data@.len() - i,
    {
        if word_at(data, i, word) {
            return Some(i);
        }
        if i == data.len() {
            assert(find(data@, i + 1, word@) is None);
            return None;
        }
        i = i + 1;
    }
    None
}

/// The number that a sequence of ASCII digits writes in base ten.
pub open spec fn decimal(s: Seq<u8>) -> nat
    decreases s.len(),
{
    if s.len() == 0 {
        0
    } else {
        10 * decimal(s.drop_last()) + ((s.last() - ZERO) as nat)
    }
}

/// The run of digits that starts at `p`.
pub open spec fn digits_at(d: Seq<u8>, p: int) -> Seq<u8> {
    d.subrange(p, run_end(d, p, ByteClass::Digit))
}

/// One step of a decimal reading in modular arithmetic.
proof fn lemma_decimal_step(prefix: nat, digit: nat, m: nat)
    requires
        m > 0,
    ensures
        ((prefix % m) * 10 + digit) % m == (10 * prefix + digit) % m,
{
    lemma_mul_mod_noop_left(prefix as int, 10, m as int);
    lemma_add_mod_noop(
        ((prefix % m) * 10) as int,
        digit as int,
        m as int,
    );
    lemma_add_mod_noop((prefix * 10) as int, digit as int, m as int);
}

/// One more digit in arithmetic modulo `m`.
pub proof fn lemma_next_digit(prefix: nat, digit: nat, m: nat)
    requires
        m > 0,
    ensures
        (((prefix % m) * 10) % m + digit) % m == (10 * prefix + digit) % m,
{
    lemma_decimal_step(prefix, digit, m);
    lemma_add_mod_noop(((prefix % m) * 10) as int, digit as int, m as int);
    lemma_add_mod_noop((((prefix % m) * 10) % m) as int, digit as int, m as int);
    lemma_mod_twice(((prefix % m) * 10) as int, m as int);
}

/// Reads the digits from `from` up to `to`; a number that does not fit is
/// reduced modulo 2^64.
pub fn read_digits(data: &[u8], from: usize, to: usize) -> (r: u64)
    requires
        from <= to <= data@.len(),
        forall|i: int| from <= i < to ==> ByteClass::Digit.has(#[trigger] data@[i]),
    ensures
        r == decimal(data@.subrange(from as int, to as int)) % 0x1_0000_0000_0000_0000,
{
    let mut value: u64 = 0;
    let mut p: usize = from;
    assert(data@.subrange(from as int, from as int).len() == 0);
    while p < to
        invariant
            from <= p <= to <= data@.len(),
            forall|i: int| from <= i < to ==> ByteClass::Digit.has(#[trigger] data@[i]),
            value == decimal(data@.subrange(from as int, p as int)) % 0x1_0000_0000_0000_0000,
        decreases to - p,
    {
        let digit: u64 = (data[p] - ZERO) as u64;
        let tens: u64 = value.wrapping_mul(10);
        let next: u64 = tens.wrapping_add(digit);
        proof {
            let s = data@.subrange(from as int, p + 1);
            assert(s.drop_last() =~= data@.subrange(from as int, p as int));
            assert(tens == (value * 10) % 0x1_0000_0000_0000_0000);
            assert(next == (tens + digit) % 0x1_0000_0000_0000_0000);
            lemma_next_digit(decimal(s.drop_last()), digit as nat, 0x1_0000_0000_0000_0000);
        }
        value = next;
        p = p + 1;
    }
    value
}

} // verus!
