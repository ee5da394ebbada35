//! What is made of documents that say something else, or break off.

use crate::calendar::weekday;
use crate::json_parser::{blank_draft, finished, member, object, part, parts, section_of,
    transaction, DraftView, Section, TransactionView};
use crate::json_values::{has_timestamp, hour_at, timestamp_start, two_digits, weekday_at};
use crate::mcc_risk::risks_in;
use crate::number::{number_at, NumberView};
use crate::reference_laws::{all_of, lemma_class_run, lemma_quoted_name, lemma_stands_split};
use crate::references::{components, item_at, references_from, value, ReferenceView};
use crate::scan::{after_ws, lemma_run_end, run_end, stands_at, ByteClass};
use crate::spelling::lemma_token_byte;
use vstd::prelude::*;
use vstd::string::*;

verus! {

/// Whether the members of a part have a name.
pub open spec fn is_known(section: Section, name: Seq<u8>) -> bool {
    match section {
        Section::Transaction => {
            ||| name == "amount".spec_bytes()
            ||| name == "installments".spec_bytes()
            ||| name == "requested_at".spec_bytes()
        },
        Section::Customer => {
            ||| name == "avg_amount".spec_bytes()
            ||| name == "tx_count_24h".spec_bytes()
            ||| name == "known_merchants".spec_bytes()
        },
        Section::Merchant => {
            ||| name == "id".spec_bytes()
            ||| name == "mcc".spec_bytes()
            ||| name == "avg_amount".spec_bytes()
        },
        Section::Terminal => {
            ||| name == "is_online".spec_bytes()
            ||| name == "card_present".spec_bytes()
            ||| name == "km_from_home".spec_bytes()
        },
        Section::LastTransaction => {
            ||| name == "timestamp".spec_bytes()
            ||| name == "km_from_current".spec_bytes()
        },
        _ => false,
    }
}

/// A member with another name changes nothing, and its value is not read.
pub proof fn law_other_members(section: Section, name: Seq<u8>, d: Seq<u8>, p: int, r: DraftView)
    requires
        !is_known(section, name),
    ensures
        member(section, name, d, p, r) == Some((r, p)),
{
}

/// A part with another name changes nothing, and its value is not read.
pub proof fn law_other_parts(name: Seq<u8>, d: Seq<u8>, p: int, r: DraftView)
    requires
        name != "id".spec_bytes(),
        name != "transaction".spec_bytes(),
        name != "customer".spec_bytes(),
        name != "merchant".spec_bytes(),
        name != "terminal".spec_bytes(),
        name != "last_transaction".spec_bytes(),
    ensures
        part(section_of(name), d, p, r) == Some((r, p)),
{
}

/// A last transaction that is neither null nor an object changes nothing, and is
/// not read.
pub proof fn law_other_last_transaction(d: Seq<u8>, p: int, r: DraftView)
    requires
        0 <= p < d.len(),
        !ByteClass::Whitespace.has(d[p]),
        d[p] != ':' as u8,
        d[p] != '{' as u8,
        !stands_at(d, p, "null".spec_bytes()),
    ensures
        part(Section::LastTransaction, d, p, r) == Some((r, p)),
{
}

/// Whether nothing but whitespace follows from `p` on.
pub open spec fn breaks_off(d: Seq<u8>, p: int) -> bool {
    forall|i: int| p <= i < d.len() ==> ByteClass::Whitespace.has(#[trigger] d[i])
}

proof fn lemma_breaks_off(d: Seq<u8>, p: int)
    requires
        0 <= p <= d.len(),
    ensures
        breaks_off(d, p) <==> after_ws(d, p) >= d.len(),
{
    lemma_run_end(d, p, ByteClass::Whitespace);
}

/// A part is missed where the document breaks off in front of it.
pub proof fn law_cut_off_part(d: Seq<u8>, p: int, r: DraftView)
    requires
        0 <= p <= d.len(),
        breaks_off(d, p),
    ensures
        part(Section::Id, d, p, r) is None,
        part(Section::Transaction, d, p, r) is None,
        part(Section::Customer, d, p, r) is None,
        part(Section::Merchant, d, p, r) is None,
        part(Section::Terminal, d, p, r) is None,
        part(Section::LastTransaction, d, p, r) == Some((r, d.len() as int)),
{
    reveal_strlit("null");
    assert(is_ascii("null"));
    lemma_breaks_off(d, p);
    lemma_run_end(d, p, ByteClass::Whitespace);
}

/// An identifier is missed only where the document breaks off.
pub proof fn law_id_is_text(d: Seq<u8>, p: int, r: DraftView)
    requires
        0 <= p <= d.len(),
        !breaks_off(d, p),
    ensures
        part(Section::Id, d, p, r) is Some,
{
    lemma_breaks_off(d, p);
}

/// The identifier of a merchant is missed exactly where the document breaks off
/// in front of it.
pub proof fn law_cut_off_merchant(d: Seq<u8>, p: int, r: DraftView)
    requires
        0 <= p <= d.len(),
    ensures
        member(Section::Merchant, "id".spec_bytes(), d, p, r) is None <==> breaks_off(d, p),
{
    lemma_breaks_off(d, p);
}

/// A list of merchants is missed exactly where the document breaks off in front
/// of it.
pub proof fn law_cut_off_merchants(d: Seq<u8>, p: int, r: DraftView)
    requires
        0 <= p <= d.len(),
    ensures
        member(Section::Customer, "known_merchants".spec_bytes(), d, p, r) is None <==> breaks_off(
            d,
            p,
        ),
{
    lemma_customer_names();
    lemma_breaks_off(d, p);
}

proof fn lemma_customer_names()
    ensures
        "known_merchants".spec_bytes() != "avg_amount".spec_bytes(),
        "known_merchants".spec_bytes() != "tx_count_24h".spec_bytes(),
{
    reveal_strlit("known_merchants");
    reveal_strlit("avg_amount");
    reveal_strlit("tx_count_24h");
    assert(is_ascii("known_merchants"));
    assert(is_ascii("avg_amount"));
    assert(is_ascii("tx_count_24h"));
}

proof fn lemma_empty_document(d: Seq<u8>)
    requires
        d.len() > 0,
        d[0] == '{' as u8,
        breaks_off(d, 1),
    ensures
        transaction(d) == Some(finished(blank_draft())),
{
    let r = blank_draft();
    lemma_breaks_off(d, 1);
    assert(after_ws(d, 0) == 0);
    assert(parts(d, 1, r) == Some(r));
}

/// Whether every field of a transaction is zero, empty or false.
pub open spec fn is_zero(tx: TransactionView) -> bool {
    let zero = NumberView { negative: false, int_part: 0, fraction: Seq::empty(), exponent: None };
    &&& tx.id == 0
    &&& tx.amount == zero
    &&& tx.installments == 0
    &&& tx.hour == 0
    &&& tx.weekday == 0
    &&& tx.customer_avg_amount == zero
    &&& tx.tx_count_24h == 0
    &&& tx.merchant_id_hash == 0
    &&& tx.known_merchants == Seq::new(32, |i: int| 0u32)
    &&& tx.known_merchant_count == 0
    &&& tx.mcc == 0
    &&& tx.merchant_avg_amount == zero
    &&& !tx.is_online
    &&& !tx.card_present
    &&& tx.km_from_home == zero
    &&& !tx.has_last_tx
    &&& tx.last_tx_minutes == 0
    &&& tx.km_from_last_tx == zero
}

proof fn lemma_blank()
    ensures
        is_zero(finished(blank_draft())),
{
    assert(finished(blank_draft()).known_merchants =~= Seq::new(32, |i: int| 0u32));
}

/// Of a document that breaks off behind its opening brace every field is zero.
pub proof fn law_empty_document(d: Seq<u8>)
    requires
        d.len() > 0,
        d[0] == '{' as u8,
        breaks_off(d, 1),
    ensures
        exists|tx: TransactionView| transaction(d) == Some(tx) && #[trigger] is_zero(tx),
{
    lemma_blank();
    assert(transaction(d) == Some(finished(blank_draft()))) by {
        lemma_empty_document(d);
    }
}

/// A list of merchants leaves the places behind its end as they were.
pub proof fn law_merchants_behind_the_list(d: Seq<u8>, p: int, r: DraftView, i: int)
    requires
        r.tx.known_merchants.len() == 32,
        0 <= i < 32,
    ensures
        match member(Section::Customer, "known_merchants".spec_bytes(), d, p, r) {
            Some((next, _)) => {
                &&& next.tx.known_merchants.len() == 32
                &&& next.tx.known_merchant_count <= i ==> next.tx.known_merchants[i]
                    == r.tx.known_merchants[i]
            },
            None => true,
        },
{
    lemma_customer_names();
}

/// Bytes that are neither a quote nor a closing brace are passed over in front
/// of a part.
pub proof fn law_stray_bytes(d: Seq<u8>, p: int, q: int, r: DraftView)
    requires
        0 <= p <= q <= d.len(),
        forall|i: int| p <= i < q ==> #[trigger] d[i] != '"' as u8 && d[i] != '}' as u8,
    ensures
        parts(d, p, r) == parts(d, q, r),
    decreases q - p,
{
    if p < q {
        assert(d[p] != '"' as u8 && d[p] != '}' as u8);
        law_stray_bytes(d, p + 1, q, r);
        lemma_run_end(d, p, ByteClass::Whitespace);
        lemma_run_end(d, p + 1, ByteClass::Whitespace);
        if ByteClass::Whitespace.has(d[p]) {
            assert(after_ws(d, p) == after_ws(d, p + 1));
            let s = after_ws(d, p);
            if s < d.len() && d[s] != '"' as u8 && d[s] != '}' as u8 {
                assert(parts(d, p, r) == parts(d, s + 1, r));
                assert(parts(d, p + 1, r) == parts(d, s + 1, r));
            }
        } else {
            assert(after_ws(d, p) == p);
        }
    }
}

/// The braces of a part and of the document may be missing where nothing but
/// whitespace follows.
pub proof fn law_braces_may_be_missing(section: Section, d: Seq<u8>, p: int, r: DraftView)
    requires
        0 <= p <= d.len(),
        all_of(d.skip(p), ByteClass::Whitespace),
    ensures
        object(section, d, p, r) == Some((r, d.len() as int)),
        parts(d, p, r) == Some(r),
{
    lemma_run_end(d, p, ByteClass::Whitespace);
    lemma_run_end(d, d.len() as int, ByteClass::Whitespace);
    let s = after_ws(d, p);
    if s < d.len() {
        assert(d.skip(p)[s - p] == d[s]);
    }
}

/// The number that two bytes stand for as digits, each modulo 256.
#[verifier::opaque]
pub open spec fn pair(a: u8, b: u8) -> int {
    10 * ((a + 208) % 256) + (b + 208) % 256
}

proof fn lemma_digit(b: u8)
    ensures
        (b + 208) % 256 == if b >= 48 {
            b - 48
        } else {
            b + 208
        },
{
}

/// Two digits stand for the number that they spell.
pub proof fn law_pair(a: u8, b: u8)
    ensures
        '0' as u8 <= a <= '9' as u8 && '0' as u8 <= b <= '9' as u8 ==> pair(a, b) == 10 * (a - 48)
            + (b - 48),
        pair(a, b) % 256 == (10 * a + b + 240) % 256,
{
    reveal(pair);
    lemma_digit(a);
    lemma_digit(b);
    let whole = 10 * a + b + 240;
    assert((whole - 768) % 256 == whole % 256);
    assert((whole - 512) % 256 == whole % 256);
    assert((whole + 1792) % 256 == whole % 256);
    assert((whole + 2048) % 256 == whole % 256);
}

proof fn lemma_pair(d: Seq<u8>, p: int)
    ensures
        two_digits(d, p) == pair(d[p], d[p + 1]),
{
    reveal(pair);
    assert((d[p] - 48) % 256 == (d[p] + 208) % 256);
    assert((d[p + 1] - 48) % 256 == (d[p + 1] + 208) % 256);
}

/// A timestamp in quotes is read where thirteen bytes follow its quote, one
/// without where twelve follow its first.
pub proof fn law_timestamp_length(d: Seq<u8>, p: int)
    requires
        0 <= p < d.len(),
        !ByteClass::Whitespace.has(d[p]),
    ensures
        d[p] == '"' as u8 ==> (has_timestamp(d, p) <==> p + 13 < d.len()),
        d[p] != '"' as u8 ==> (has_timestamp(d, p) <==> p + 12 < d.len()),
{
}

/// The hour of a timestamp stands in its twelfth and thirteenth byte; digits are
/// not asked for.
pub proof fn law_hour_bytes(d: Seq<u8>, p: int)
    requires
        0 <= p < d.len(),
        d[p] == '"' as u8,
    ensures
        hour_at(d, p) == pair(d[p + 12], d[p + 13]) % 256,
{
    lemma_pair(d, p + 12);
    assert(timestamp_start(d, p) == p + 1);
}

/// The date of a timestamp stands in its first ten bytes; digits are not asked
/// for.
pub proof fn law_date_bytes(d: Seq<u8>, p: int)
    requires
        0 <= p < d.len(),
        d[p] == '"' as u8,
    ensures
        weekday_at(d, p) == weekday(
            100 * pair(d[p + 1], d[p + 2]) + pair(d[p + 3], d[p + 4]),
            pair(d[p + 6], d[p + 7]),
            pair(d[p + 9], d[p + 10]),
        ),
{
    assert(timestamp_start(d, p) == p + 1);
    assert(two_digits(d, p + 1) == pair(d[p + 1], d[p + 2])) by {
        lemma_pair(d, p + 1);
    }
    assert(two_digits(d, p + 3) == pair(d[p + 3], d[p + 4])) by {
        lemma_pair(d, p + 3);
    }
    assert(two_digits(d, p + 6) == pair(d[p + 6], d[p + 7])) by {
        lemma_pair(d, p + 6);
    }
    assert(two_digits(d, p + 9) == pair(d[p + 9], d[p + 10])) by {
        lemma_pair(d, p + 9);
    }
}

/// A timestamp that breaks off makes a transaction fail.
pub proof fn law_short_timestamp(d: Seq<u8>, p: int, r: DraftView)
    requires
        0 <= p < d.len() <= p + 13,
        d[p] == '"' as u8,
    ensures
        member(Section::Transaction, "requested_at".spec_bytes(), d, p, r) is None,
        member(Section::LastTransaction, "timestamp".spec_bytes(), d, p, r) is None,
{
    reveal_strlit("requested_at");
    reveal_strlit("amount");
    reveal_strlit("installments");
    assert(is_ascii("requested_at"));
    assert(is_ascii("amount"));
    assert(is_ascii("installments"));
    assert("requested_at".spec_bytes()[0] != "installments".spec_bytes()[0]);
    law_timestamp_length(d, p);
}

/// A numeral that breaks off behind the mark of its exponent is none.
pub proof fn law_cut_off_exponent(d: Seq<u8>, p: int)
    requires
        0 <= p < d.len() - 1,
        forall|i: int| p <= i < d.len() - 1 ==> '0' as u8 <= #[trigger] d[i] <= '9' as u8,
        d.last() == 'e' as u8 || d.last() == 'E' as u8,
    ensures
        number_at(d, p) is None,
{
    assert('0' as u8 <= d[p] <= '9' as u8);
    assert(after_ws(d, p) == p);
    let e = d.len() - 1;
    lemma_run_end(d, p, ByteClass::Digit);
    let m = run_end(d, p, ByteClass::Digit);
    if m < e {
        assert('0' as u8 <= d[m] <= '9' as u8);
    }
    assert(d[e] == d.last());
    assert(m == e);
}

/// A list of risks may break off, or be empty, behind its opening brace.
pub proof fn law_empty_risks(d: Seq<u8>, rest: Seq<u8>)
    requires
        d == seq!['{' as u8] + rest,
        all_of(rest, ByteClass::Whitespace) || rest.len() > 0 && rest[0] == '}' as u8,
    ensures
        risks_in(d) == Some(Seq::<(u16, NumberView)>::empty()),
{
    assert(d[0] == '{' as u8);
    assert(after_ws(d, 0) == 0);
    lemma_run_end(d, 1, ByteClass::Whitespace);
    let s = after_ws(d, 1);
    if s < d.len() {
        assert(d[s] == rest[s - 1]);
        assert(d[1] == rest[0]);
    }
}

/// A member of a reference with another name changes nothing, and its value is
/// not read.
pub proof fn law_other_reference_members(name: Seq<u8>, d: Seq<u8>, v: int, r: ReferenceView)
    requires
        name != "vector".spec_bytes(),
        name != "label".spec_bytes(),
    ensures
        value(name, d, v, r) == Some((r, v)),
{
}

/// Components that break off keep those that were read; blanks at the end are
/// the start of one that is missing.
pub proof fn law_cut_off_components(d: Seq<u8>, p: int, i: int, vector: Seq<NumberView>)
    requires
        0 <= p <= d.len(),
        0 <= i < 14,
        all_of(d.skip(p), ByteClass::Blank),
    ensures
        p == d.len() ==> components(d, p, i, vector) == Some((vector, p)),
        p < d.len() ==> components(d, p, i, vector) is None,
{
    lemma_run_end(d, p, ByteClass::Blank);
    let s = run_end(d, p, ByteClass::Blank);
    if s < d.len() {
        assert(d.skip(p)[s - p] == d[s]);
    }
}

/// A reference that breaks off in front of its label makes the list fail.
pub proof fn law_cut_off_label(d: Seq<u8>, p: int, gap: Seq<u8>)
    requires
        stands_at(d, p, "{\"label\"".spec_bytes() + gap),
        d.len() == p + "{\"label\"".spec_bytes().len() + gap.len(),
        all_of(gap, ByteClass::KeyGap),
    ensures
        item_at(d, p) is CutOff,
        references_from(d, p) is None,
{
    reveal_strlit("{\"label\"");
    reveal_strlit("label");
    reveal_strlit("vector");
    assert(is_ascii("{\"label\""));
    assert(is_ascii("label"));
    assert(is_ascii("vector"));
    let quote = seq!['"' as u8];
    let word = "label".spec_bytes();
    let open = seq!['{' as u8];
    assert("{\"label\"".spec_bytes() =~= open + (quote + (word + quote)));
    lemma_stands_split(d, p, "{\"label\"".spec_bytes(), gap);
    lemma_stands_split(d, p, open, quote + (word + quote));
    lemma_token_byte(d, p, open, 0);
    lemma_quoted_name(d, p + 1, word);
    lemma_class_run(d, p + 8, gap, ByteClass::KeyGap);
}

} // verus!
