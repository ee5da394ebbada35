//! Tokens with whitespace between them, and the values that single tokens
//! write.

use crate::json_values::{after_bool, after_category, after_integer, after_string, after_timestamp,
    bool_at, category_at, has_timestamp, hour_at, integer_at, moment_at, string_at, string_end,
    string_start, timestamp_start, timestamp_text, weekday_at};
use crate::number::{after_sign, fraction_at, has_point, int_digits, int_end, lemma_mantissa_end,
    mantissa_end, number_at, NumberView};
use crate::scan::{after_byte, after_ws, digits_at, lemma_run_end, run_end, stands_at, ByteClass,
    CLOSE_BRACE, CLOSE_BRACKET, COMMA, MINUS, QUOTE};
use vstd::prelude::*;
use vstd::string::*;

verus! {

/// Whether the tokens stand in `d` from `p` on, one behind the other, with any
/// whitespace before each.
pub open spec fn spelled(d: Seq<u8>, p: int, tokens: Seq<Seq<u8>>) -> bool
    decreases tokens.len(),
{
    &&& 0 <= p <= d.len()
    &&& tokens.len() == 0 || {
        &&& stands_at(d, after_ws(d, p), tokens[0])
        &&& spelled(d, after_ws(d, p) + tokens[0].len(), tokens.skip(1))
    }
}

/// The position behind the last of the tokens.
pub open spec fn spelled_end(d: Seq<u8>, p: int, tokens: Seq<Seq<u8>>) -> int
    decreases tokens.len(),
{
    if tokens.len() == 0 {
        p
    } else {
        spelled_end(d, after_ws(d, p) + tokens[0].len(), tokens.skip(1))
    }
}

/// Tokens may be taken in two goes.
pub proof fn lemma_spelled_split(d: Seq<u8>, p: int, a: Seq<Seq<u8>>, b: Seq<Seq<u8>>)
    ensures
        spelled(d, p, a + b) <==> spelled(d, p, a) && spelled(d, spelled_end(d, p, a), b),
        spelled_end(d, p, a + b) == spelled_end(d, spelled_end(d, p, a), b),
    decreases a.len(),
{
    if a.len() == 0 {
        assert(a + b =~= b);
    } else {
        assert((a + b).skip(1) =~= a.skip(1) + b);
        assert((a + b)[0] == a[0]);
        lemma_spelled_split(d, after_ws(d, p) + a[0].len(), a.skip(1), b);
    }
}

/// The first of some tokens.
pub proof fn lemma_spelled_first(d: Seq<u8>, p: int, t: Seq<u8>, rest: Seq<Seq<u8>>)
    requires
        spelled(d, p, seq![t] + rest),
    ensures
        p <= after_ws(d, p) <= d.len(),
        stands_at(d, after_ws(d, p), t),
        spelled(d, after_ws(d, p) + t.len(), rest),
        spelled_end(d, p, seq![t] + rest) == spelled_end(d, after_ws(d, p) + t.len(), rest),
{
    assert((seq![t] + rest).skip(1) =~= rest);
    lemma_run_end(d, p, ByteClass::Whitespace);
}

/// One token.
pub proof fn lemma_spelled_one(d: Seq<u8>, p: int, t: Seq<u8>)
    ensures
        spelled(d, p, seq![t]) <==> 0 <= p <= d.len() && stands_at(d, after_ws(d, p), t),
        spelled_end(d, p, seq![t]) == after_ws(d, p) + t.len(),
{
    assert(seq![t].skip(1) =~= Seq::<Seq<u8>>::empty());
    reveal_with_fuel(spelled, 2);
    reveal_with_fuel(spelled_end, 2);
}

/// Whether a byte ends a value: whitespace, a comma or a closing bracket.
pub open spec fn ends_value(b: u8) -> bool {
    ByteClass::Whitespace.has(b) || b == COMMA || b == CLOSE_BRACE || b == CLOSE_BRACKET
}

/// Whether a value ends at `e`.
pub open spec fn value_ends(d: Seq<u8>, e: int) -> bool {
    e >= d.len() || ends_value(d[e])
}

/// In front of a token that ends values, a value ends.
pub proof fn lemma_value_ends(d: Seq<u8>, p: int, b: u8, rest: Seq<Seq<u8>>)
    requires
        spelled(d, p, seq![seq![b]] + rest),
        ends_value(b),
    ensures
        value_ends(d, p),
{
    lemma_spelled_first(d, p, seq![b], rest);
    lemma_run_end(d, p, ByteClass::Whitespace);
    let s = after_ws(d, p);
    assert(d.subrange(s, s + 1)[0] == d[s]);
    if p < s {
        assert(ByteClass::Whitespace.has(d[p]));
    }
}

/// A byte of a token, where the token stands.
pub proof fn lemma_token_byte(d: Seq<u8>, s: int, t: Seq<u8>, i: int)
    requires
        stands_at(d, s, t),
        0 <= i < t.len(),
    ensures
        d[s + i] == t[i],
{
    assert(d.subrange(s, s + t.len())[i] == d[s + i]);
}

/// A run inside a token is the same run where the token stands.
pub proof fn lemma_run_shift(d: Seq<u8>, s: int, t: Seq<u8>, i: int, class: ByteClass)
    requires
        stands_at(d, s, t),
        0 <= i <= t.len(),
        run_end(t, i, class) < t.len() || s + t.len() >= d.len() || !class.has(d[s + t.len()]),
    ensures
        run_end(d, s + i, class) == s + run_end(t, i, class),
        i <= run_end(t, i, class) <= t.len(),
    decreases t.len() - i,
{
    if i < t.len() {
        lemma_token_byte(d, s, t, i);
        if class.has(t[i]) {
            lemma_run_shift(d, s, t, i + 1, class);
        }
    }
}

/// A stretch of a token is the same stretch where the token stands.
pub proof fn lemma_subrange_shift(d: Seq<u8>, s: int, t: Seq<u8>, i: int, j: int)
    requires
        stands_at(d, s, t),
        0 <= i <= j <= t.len(),
    ensures
        d.subrange(s + i, s + j) == t.subrange(i, j),
{
    assert forall|k: int| 0 <= k < j - i implies d.subrange(s + i, s + j)[k] == t.subrange(
        i,
        j,
    )[k] by {
        lemma_token_byte(d, s, t, i + k);
    }
    assert(d.subrange(s + i, s + j) =~= t.subrange(i, j));
}

/// Whether a token is a numeral, whole.
pub open spec fn is_number(t: Seq<u8>) -> bool {
    &&& t.len() > 0
    &&& after_ws(t, 0) == 0
    &&& number_at(t, 0) matches Some((_, q)) && q == t.len()
}

/// The numeral that a token is.
pub open spec fn number_of(t: Seq<u8>) -> NumberView {
    number_at(t, 0).unwrap().0
}

/// The mantissa of a numeral is read where it stands.
pub proof fn lemma_mantissa_shift(d: Seq<u8>, s: int, t: Seq<u8>)
    requires
        stands_at(d, s, t),
        t.len() > 0,
        value_ends(d, s + t.len()),
    ensures
        after_byte(d, s, MINUS) == s + after_byte(t, 0, MINUS),
        int_end(d, s) == s + int_end(t, 0),
        int_digits(d, s) == int_digits(t, 0),
        has_point(d, s) == has_point(t, 0),
        mantissa_end(d, s) == s + mantissa_end(t, 0),
        fraction_at(d, s) == fraction_at(t, 0),
        0 <= int_end(t, 0) <= mantissa_end(t, 0) <= t.len(),
{
    lemma_token_byte(d, s, t, 0);
    lemma_mantissa_end(t, 0);
    let a = after_byte(t, 0, MINUS);
    let i = int_end(t, 0);
    lemma_run_shift(d, s, t, a, ByteClass::Digit);
    lemma_subrange_shift(d, s, t, a, i);
    if i < t.len() {
        lemma_token_byte(d, s, t, i);
    }
    if has_point(t, 0) {
        lemma_run_shift(d, s, t, i + 1, ByteClass::Digit);
        lemma_subrange_shift(d, s, t, i + 1, mantissa_end(t, 0));
    }
}

/// A numeral is read where it stands.
pub proof fn lemma_number_read(d: Seq<u8>, p: int, t: Seq<u8>)
    requires
        0 <= p <= d.len(),
        stands_at(d, after_ws(d, p), t),
        is_number(t),
        value_ends(d, after_ws(d, p) + t.len()),
    ensures
        number_at(d, p) == Some((number_of(t), after_ws(d, p) + t.len())),
{
    let s = after_ws(d, p);
    lemma_run_end(d, p, ByteClass::Whitespace);
    lemma_token_byte(d, s, t, 0);
    lemma_mantissa_shift(d, s, t);
    let m = mantissa_end(t, 0);
    if m < t.len() {
        lemma_token_byte(d, s, t, m);
        lemma_token_byte(d, s, t, m + 1);
        let e = after_sign(t, m + 1);
        lemma_run_shift(d, s, t, e, ByteClass::Digit);
        lemma_subrange_shift(d, s, t, e, run_end(t, e, ByteClass::Digit));
        assert(after_sign(d, s + m + 1) == s + e);
        assert(digits_at(d, s + e) == digits_at(t, e));
    }
}

/// Whether a token is made of digits.
pub open spec fn is_integer(t: Seq<u8>) -> bool {
    t.len() > 0 && run_end(t, 0, ByteClass::Digit) == t.len()
}

/// An integer is read where it stands.
pub proof fn lemma_integer_read(d: Seq<u8>, p: int, t: Seq<u8>)
    requires
        0 <= p <= d.len(),
        stands_at(d, after_ws(d, p), t),
        is_integer(t),
        value_ends(d, after_ws(d, p) + t.len()),
    ensures
        integer_at(d, p) == integer_at(t, 0),
        after_integer(d, p) == after_ws(d, p) + t.len(),
{
    let s = after_ws(d, p);
    lemma_run_end(t, 0, ByteClass::Digit);
    assert(ByteClass::Digit.has(t[0]));
    assert(after_ws(t, 0) == 0);
    lemma_run_shift(d, s, t, 0, ByteClass::Digit);
    lemma_subrange_shift(d, s, t, 0, t.len() as int);
}

/// Whether a token is a text in quotes.
pub open spec fn is_text(t: Seq<u8>) -> bool {
    &&& t.len() >= 2
    &&& t[0] == QUOTE
    &&& t[t.len() - 1] == QUOTE
    &&& run_end(t, 1, ByteClass::Not(QUOTE)) == t.len() - 1
}

/// A text is read where it stands.
pub proof fn lemma_text_read(d: Seq<u8>, p: int, t: Seq<u8>)
    requires
        0 <= p <= d.len(),
        stands_at(d, after_ws(d, p), t),
        is_text(t),
    ensures
        after_ws(d, p) < d.len(),
        string_start(d, p) == after_ws(d, p) + 1,
        string_end(d, p) == after_ws(d, p) + t.len() - 1,
        string_at(d, p) == string_at(t, 0),
        after_string(d, p) == after_ws(d, p) + t.len(),
        after_ws(t, 0) == 0,
        string_start(t, 0) == 1,
        string_end(t, 0) == t.len() - 1,
{
    let s = after_ws(d, p);
    let n = t.len() as int;
    lemma_token_byte(d, s, t, 0);
    lemma_token_byte(d, s, t, n - 1);
    assert(after_ws(t, 0) == 0);
    lemma_run_shift(d, s, t, 1, ByteClass::Not(QUOTE));
    lemma_subrange_shift(d, s, t, 1, n - 1);
}

/// A category is read where it stands, bare or in quotes.
pub proof fn lemma_category_read(d: Seq<u8>, p: int, t: Seq<u8>)
    requires
        0 <= p <= d.len(),
        stands_at(d, after_ws(d, p), t),
        is_integer(t) || is_text(t),
        value_ends(d, after_ws(d, p) + t.len()),
    ensures
        category_at(d, p) == category_at(t, 0),
        after_category(d, p) == after_ws(d, p) + t.len(),
{
    let s = after_ws(d, p);
    if is_text(t) {
        lemma_text_read(d, p, t);
        lemma_run_end(t, 1, ByteClass::Digit);
        let e = run_end(t, 1, ByteClass::Digit);
        if e >= t.len() {
            assert(ByteClass::Digit.has(t[t.len() - 1]));
        }
        lemma_run_shift(d, s, t, 1, ByteClass::Digit);
        lemma_subrange_shift(d, s, t, 1, e);
    } else {
        lemma_integer_read(d, p, t);
        lemma_run_end(t, 0, ByteClass::Digit);
        assert(ByteClass::Digit.has(t[0]));
        lemma_token_byte(d, s, t, 0);
    }
}

/// Whether a token is a timestamp in quotes.
pub open spec fn is_timestamp(t: Seq<u8>) -> bool {
    is_text(t) && t.len() >= 21
}

/// A timestamp is read where it stands.
pub proof fn lemma_timestamp_read(d: Seq<u8>, p: int, t: Seq<u8>)
    requires
        0 <= p <= d.len(),
        stands_at(d, after_ws(d, p), t),
        is_timestamp(t),
    ensures
        has_timestamp(d, p),
        hour_at(d, p) == hour_at(t, 0),
        weekday_at(d, p) == weekday_at(t, 0),
        moment_at(d, p) == moment_at(t, 0),
        after_timestamp(d, p) == after_ws(d, p) + t.len(),
{
    let s = after_ws(d, p);
    lemma_text_read(d, p, t);
    assert(timestamp_start(d, p) == s + 1 && timestamp_start(t, 0) == 1);
    assert forall|i: int| 0 <= i < t.len() implies d[s + i] == #[trigger] t[i] by {
        lemma_token_byte(d, s, t, i);
    }
    assert(t[1] == d[s + 1] && t[2] == d[s + 2] && t[3] == d[s + 3] && t[4] == d[s + 4]);
    assert(t[6] == d[s + 6] && t[7] == d[s + 7] && t[9] == d[s + 9] && t[10] == d[s + 10]);
    assert(t[12] == d[s + 12] && t[13] == d[s + 13]);
    assert(timestamp_text(d, p) == string_at(d, p));
    assert(timestamp_text(t, 0) == string_at(t, 0));
}

/// Whether a token is one of the two truth values.
pub open spec fn is_truth(t: Seq<u8>) -> bool {
    t == "true".spec_bytes() || t == "false".spec_bytes()
}

/// A truth value is read where it stands.
pub proof fn lemma_truth_read(d: Seq<u8>, p: int, t: Seq<u8>)
    requires
        0 <= p <= d.len(),
        stands_at(d, after_ws(d, p), t),
        is_truth(t),
    ensures
        bool_at(d, p) == (t == "true".spec_bytes()),
        after_bool(d, p) == after_ws(d, p) + t.len(),
{
    reveal_strlit("true");
    reveal_strlit("false");
    assert(is_ascii("true"));
    assert(is_ascii("false"));
    let s = after_ws(d, p);
    let yes = "true".spec_bytes();
    lemma_token_byte(d, s, t, 0);
    if t != yes {
        if stands_at(d, s, yes) {
            lemma_token_byte(d, s, yes, 0);
        }
    }
}

} // verus!
