//! JSON parser for the transaction documents of the scoring service.
//!
//! The parser knows the names that it reads and where they occur. It checks no
//! grammar: it steps over what it does not expect, and stops at the first
//! member that no comma follows. Integers that do not fit their field are
//! reduced modulo the size of the field.

use crate::json_values::{after_array, after_bool, after_category, after_integer, after_string,
    after_timestamp, array_start, as_moment, bool_at, category_at, count_minutes, has_timestamp,
    hash_of, hashes_at, hour_at, integer_at, kept, lemma_hashes_at, lemma_string, minutes_between,
    moment_at, overwritten, parse_bool, parse_category, parse_moment, parse_str_array,
    parse_str_hash, parse_timestamp, parse_u64, parse_u8, string_at, timestamp_start, weekday_at,
    MAX_MERCHANTS};
use crate::number::{lemma_number_at, number_at, parse_number, whole, Number, NumberView};
use crate::scan::{after_byte, after_ws, find, find_word, lemma_run_end, run_end,
    same_bytes, scan, skip_byte, skip_ws, stands_at, word_at, ByteClass, CLOSE_BRACE, COLON, COMMA,
    MINUS, OPEN_BRACE, QUOTE};
use vstd::prelude::*;
use vstd::slice::slice_subrange;
use vstd::string::*;

verus! {

/// Transaction data extracted from JSON.
#[derive(Debug, Clone)]
pub struct TransactionData {
    /// The numeric suffix of the transaction id.
    pub id: u64,
    pub amount: Number,
    pub installments: u8,
    pub hour: u8,
    /// 0 = Monday, ... 6 = Sunday.
    pub weekday: u8,
    pub customer_avg_amount: Number,
    pub tx_count_24h: u8,
    pub merchant_id_hash: u32,
    /// Hashes of the merchants that the customer uses.
    pub known_merchants: [u32; MAX_MERCHANTS],
    pub known_merchant_count: u8,
    pub mcc: u16,
    pub merchant_avg_amount: Number,
    pub is_online: bool,
    pub card_present: bool,
    pub km_from_home: Number,
    pub has_last_tx: bool,
    /// Whole minutes since the last transaction, at most 65535; zero if there
    /// is none.
    pub last_tx_minutes: u16,
    pub km_from_last_tx: Number,
}

/// What a transaction says.
#[verifier::ext_equal]
pub struct TransactionView {
    pub id: u64,
    pub amount: NumberView,
    pub installments: u8,
    pub hour: u8,
    pub weekday: u8,
    pub customer_avg_amount: NumberView,
    pub tx_count_24h: u8,
    pub merchant_id_hash: u32,
    pub known_merchants: Seq<u32>,
    pub known_merchant_count: u8,
    pub mcc: u16,
    pub merchant_avg_amount: NumberView,
    pub is_online: bool,
    pub card_present: bool,
    pub km_from_home: NumberView,
    pub has_last_tx: bool,
    pub last_tx_minutes: u16,
    pub km_from_last_tx: NumberView,
}

impl View for TransactionData {
    type V = TransactionView;

    open spec fn view(&self) -> TransactionView {
        TransactionView {
            id: self.id,
            amount: self.amount@,
            installments: self.installments,
            hour: self.hour,
            weekday: self.weekday,
            customer_avg_amount: self.customer_avg_amount@,
            tx_count_24h: self.tx_count_24h,
            merchant_id_hash: self.merchant_id_hash,
            known_merchants: self.known_merchants@,
            known_merchant_count: self.known_merchant_count,
            mcc: self.mcc,
            merchant_avg_amount: self.merchant_avg_amount@,
            is_online: self.is_online,
            card_present: self.card_present,
            km_from_home: self.km_from_home@,
            has_last_tx: self.has_last_tx,
            last_tx_minutes: self.last_tx_minutes,
            km_from_last_tx: self.km_from_last_tx@,
        }
    }
}

/// The transaction of an empty document.
pub open spec fn blank_transaction() -> TransactionView {
    TransactionView {
        id: 0,
        amount: whole(0),
        installments: 0,
        hour: 0,
        weekday: 0,
        customer_avg_amount: whole(0),
        tx_count_24h: 0,
        merchant_id_hash: 0,
        known_merchants: Seq::new(MAX_MERCHANTS as nat, |i: int| 0u32),
        known_merchant_count: 0,
        mcc: 0,
        merchant_avg_amount: whole(0),
        is_online: false,
        card_present: false,
        km_from_home: whole(0),
        has_last_tx: false,
        last_tx_minutes: 0,
        km_from_last_tx: whole(0),
    }
}

impl TransactionData {
    /// The transaction of an empty document.
    pub fn new() -> (r: Self)
        ensures
            r@ == blank_transaction(),
    {
        let tx = TransactionData {
            id: 0,
            amount: Number::zero(),
            installments: 0,
            hour: 0,
            weekday: 0,
            customer_avg_amount: Number::zero(),
            tx_count_24h: 0,
            merchant_id_hash: 0,
            known_merchants: [0;MAX_MERCHANTS],
            known_merchant_count: 0,
            mcc: 0,
            merchant_avg_amount: Number::zero(),
            is_online: false,
            card_present: false,
            km_from_home: Number::zero(),
            has_last_tx: false,
            last_tx_minutes: 0,
            km_from_last_tx: Number::zero(),
        };
        assert(tx@ =~= blank_transaction());
        tx
    }
}

/// A transaction that is being read, with the moments of the request and of the
/// last transaction, where they are known.
#[derive(Debug)]
pub struct Draft {
    pub tx: TransactionData,
    pub requested_at: Option<i64>,
    pub last_at: Option<i64>,
}

/// What a draft says.
#[verifier::ext_equal]
pub struct DraftView {
    pub tx: TransactionView,
    pub requested_at: Option<int>,
    pub last_at: Option<int>,
}

impl View for Draft {
    type V = DraftView;

    open spec fn view(&self) -> DraftView {
        DraftView {
            tx: self.tx@,
            requested_at: as_moment(self.requested_at),
            last_at: as_moment(self.last_at),
        }
    }
}

/// The draft of an empty document.
pub open spec fn blank_draft() -> DraftView {
    DraftView { tx: blank_transaction(), requested_at: None, last_at: None }
}

/// The transaction of a draft: the minutes since the last transaction follow
/// from the two moments.
pub open spec fn finished(r: DraftView) -> TransactionView {
    TransactionView {
        last_tx_minutes: if r.tx.has_last_tx {
            minutes_between(r.last_at, r.requested_at) as u16
        } else {
            0
        },
        ..r.tx
    }
}

/// Completes a draft.
fn finish(draft: Draft) -> (tx: TransactionData)
    ensures
        tx@ == finished(draft@),
{
    let minutes: u16 = count_minutes(draft.last_at, draft.requested_at);
    let mut tx = draft.tx;
    tx.last_tx_minutes = if tx.has_last_tx {
        minutes
    } else {
        0
    };
    tx
}

/// A part of the document, named by the key that introduces it.
#[derive(Clone, Copy)]
pub enum Section {
    Id,
    Transaction,
    Customer,
    Merchant,
    Terminal,
    LastTransaction,
    Unknown,
}

/// The part of the document that a key introduces.
pub open spec fn section_of(key: Seq<u8>) -> Section {
    if key == "id".spec_bytes() {
        Section::Id
    } else if key == "transaction".spec_bytes() {
        Section::Transaction
    } else if key == "customer".spec_bytes() {
        Section::Customer
    } else if key == "merchant".spec_bytes() {
        Section::Merchant
    } else if key == "terminal".spec_bytes() {
        Section::Terminal
    } else if key == "last_transaction".spec_bytes() {
        Section::LastTransaction
    } else {
        Section::Unknown
    }
}

/// Where the key at `p` starts.
pub open spec fn key_start(d: Seq<u8>, p: int) -> int {
    after_byte(d, p, QUOTE)
}

/// Where the key at `p` ends.
pub open spec fn key_end(d: Seq<u8>, p: int) -> int {
    run_end(d, key_start(d, p), ByteClass::Not(QUOTE))
}

/// The key at `p`.
pub open spec fn key_at(d: Seq<u8>, p: int) -> Seq<u8> {
    d.subrange(key_start(d, p), key_end(d, p))
}

/// The position behind the key at `p` and its colon.
pub open spec fn after_key(d: Seq<u8>, p: int) -> int {
    after_byte(d, after_ws(d, after_byte(d, key_end(d, p), QUOTE)), COLON)
}

/// A key lies inside the text.
pub proof fn lemma_key(d: Seq<u8>, p: int)
    requires
        0 <= p <= d.len(),
    ensures
        p <= key_start(d, p) <= key_end(d, p) <= after_key(d, p) <= d.len(),
{
    lemma_run_end(d, key_start(d, p), ByteClass::Not(QUOTE));
    lemma_run_end(d, after_byte(d, key_end(d, p), QUOTE), ByteClass::Whitespace);
}

/// Reads the key at `pos`; returns where it starts, where it ends, and the
/// position behind it and its colon.
pub fn parse_key(data: &[u8], pos: usize) -> (r: (usize, usize, usize))
    requires
        pos <= data@.len(),
    ensures
        r.0 == key_start(data@, pos as int),
        r.1 == key_end(data@, pos as int),
        r.2 == after_key(data@, pos as int),
        pos <= r.0 <= r.1 <= r.2 <= data@.len(),
{
    let start: usize = skip_byte(data, pos, QUOTE);
    let end: usize = scan(data, start, ByteClass::Not(QUOTE));
    let after: usize = skip_byte(data, skip_ws(data, skip_byte(data, end, QUOTE)), COLON);
    (start, end, after)
}

/// The draft after the member `key` of the part "transaction", whose value
/// follows `p`; with the position behind the value.
pub open spec fn transaction_member(
    key: Seq<u8>,
    d: Seq<u8>,
    p: int,
    r: DraftView,
) -> Option<(DraftView, int)> {
    if key == "amount".spec_bytes() {
        match number_at(d, p) {
            Some((n, q)) => Some((DraftView { tx: TransactionView { amount: n, ..r.tx }, ..r }, q)),
            None => None,
        }
    } else if key == "installments".spec_bytes() {
        Some(
            (
                DraftView {
                    tx: TransactionView {
                        installments: (integer_at(d, p) % 0x100) as u8,
                        ..r.tx
                    },
                    ..r
                },
                after_integer(d, p),
            ),
        )
    } else if key == "requested_at".spec_bytes() {
        if has_timestamp(d, p) {
            Some(
                (
                    DraftView {
                        tx: TransactionView {
                            hour: hour_at(d, p) as u8,
                            weekday: weekday_at(d, p) as u8,
                            ..r.tx
                        },
                        requested_at: moment_at(d, p),
                        ..r
                    },
                    after_timestamp(d, p),
                ),
            )
        } else {
            None
        }
    } else {
        Some((r, p))
    }
}

/// The transaction after the member `key` of the part "customer".
pub open spec fn customer_member(
    key: Seq<u8>,
    d: Seq<u8>,
    p: int,
    tx: TransactionView,
) -> Option<(TransactionView, int)> {
    if key == "avg_amount".spec_bytes() {
        match number_at(d, p) {
            Some((n, q)) => Some((TransactionView { customer_avg_amount: n, ..tx }, q)),
            None => None,
        }
    } else if key == "tx_count_24h".spec_bytes() {
        Some(
            (
                TransactionView { tx_count_24h: (integer_at(d, p) % 0x100) as u8, ..tx },
                after_integer(d, p),
            ),
        )
    } else if key == "known_merchants".spec_bytes() {
        let hashes = hashes_at(d, array_start(d, p)).0;
        if after_ws(d, p) < d.len() {
            Some(
                (
                    TransactionView {
                        known_merchants: overwritten(tx.known_merchants, hashes),
                        known_merchant_count: kept(
                            hashes,
                            tx.known_merchants.len() as int,
                        ) as u8,
                        ..tx
                    },
                    after_array(d, p),
                ),
            )
        } else {
            None
        }
    } else {
        Some((tx, p))
    }
}

/// The transaction after the member `key` of the part "merchant".
pub open spec fn merchant_member(
    key: Seq<u8>,
    d: Seq<u8>,
    p: int,
    tx: TransactionView,
) -> Option<(TransactionView, int)> {
    if key == "id".spec_bytes() {
        if after_ws(d, p) < d.len() {
            Some(
                (
                    TransactionView { merchant_id_hash: hash_of(string_at(d, p)) as u32, ..tx },
                    after_string(d, p),
                ),
            )
        } else {
            None
        }
    } else if key == "mcc".spec_bytes() {
        Some(
            (
                TransactionView { mcc: (category_at(d, p) % 0x1_0000) as u16, ..tx },
                after_category(d, p),
            ),
        )
    } else if key == "avg_amount".spec_bytes() {
        match number_at(d, p) {
            Some((n, q)) => Some((TransactionView { merchant_avg_amount: n, ..tx }, q)),
            None => None,
        }
    } else {
        Some((tx, p))
    }
}

/// The transaction after the member `key` of the part "terminal".
pub open spec fn terminal_member(
    key: Seq<u8>,
    d: Seq<u8>,
    p: int,
    tx: TransactionView,
) -> Option<(TransactionView, int)> {
    if key == "is_online".spec_bytes() {
        Some((TransactionView { is_online: bool_at(d, p), ..tx }, after_bool(d, p)))
    } else if key == "card_present".spec_bytes() {
        Some((TransactionView { card_present: bool_at(d, p), ..tx }, after_bool(d, p)))
    } else if key == "km_from_home".spec_bytes() {
        match number_at(d, p) {
            Some((n, q)) => Some((TransactionView { km_from_home: n, ..tx }, q)),
            None => None,
        }
    } else {
        Some((tx, p))
    }
}

/// The draft after the member `key` of the part "last_transaction".
pub open spec fn last_member(key: Seq<u8>, d: Seq<u8>, p: int, r: DraftView) -> Option<
    (DraftView, int),
> {
    if key == "timestamp".spec_bytes() {
        if has_timestamp(d, p) {
            Some((DraftView { last_at: moment_at(d, p), ..r }, after_timestamp(d, p)))
        } else {
            None
        }
    } else if key == "km_from_current".spec_bytes() {
        match number_at(d, p) {
            Some((n, q)) => Some(
                (DraftView { tx: TransactionView { km_from_last_tx: n, ..r.tx }, ..r }, q),
            ),
            None => None,
        }
    } else {
        Some((r, p))
    }
}

/// The draft with the transaction that a member leaves.
pub open spec fn with_transaction(r: DraftView, m: Option<(TransactionView, int)>) -> Option<
    (DraftView, int),
> {
    match m {
        Some((tx, q)) => Some((DraftView { tx, ..r }, q)),
        None => None,
    }
}

/// The draft after the member `key` of a part of the document.
pub open spec fn member(section: Section, key: Seq<u8>, d: Seq<u8>, p: int, r: DraftView) -> Option<
    (DraftView, int),
> {
    match section {
        Section::Transaction => transaction_member(key, d, p, r),
        Section::Customer => with_transaction(r, customer_member(key, d, p, r.tx)),
        Section::Merchant => with_transaction(r, merchant_member(key, d, p, r.tx)),
        Section::Terminal => with_transaction(r, terminal_member(key, d, p, r.tx)),
        Section::LastTransaction => last_member(key, d, p, r),
        Section::Id => Some((r, p)),
        Section::Unknown => Some((r, p)),
    }
}

/// A member ends inside the text, no earlier than it starts.
pub proof fn lemma_member(
    section: Section,
    key: Seq<u8>,
    d: Seq<u8>,
    p: int,
    r: DraftView,
)
    requires
        0 <= p <= d.len(),
    ensures
        member(section, key, d, p, r) matches Some((_, q)) ==> p <= q <= d.len(),
{
    lemma_number_at(d, p);
    lemma_run_end(d, p, ByteClass::Whitespace);
    lemma_run_end(d, after_ws(d, p), ByteClass::Digit);
    lemma_run_end(d, timestamp_start(d, p), ByteClass::Not(QUOTE));
    lemma_string(d, p);
    lemma_hashes_at(d, array_start(d, p));
    lemma_run_end(d, hashes_at(d, array_start(d, p)).1, ByteClass::Whitespace);
}

/// The draft after the members of a part of the document from `p` on,
/// and the position where they end.
pub open spec fn members(section: Section, d: Seq<u8>, p: int, r: DraftView) -> Option<
    (DraftView, int),
>
    decreases d.len() - p,
{
    let s = after_ws(d, p);
    if !(0 <= p <= d.len()) || s >= d.len() || d[s] == CLOSE_BRACE {
        Some((r, s))
    } else {
        match member(section, key_at(d, s), d, after_key(d, s), r) {
            None => None,
            Some((next, q)) => {
                let e = after_ws(d, q);
                if e < d.len() && d[e] == COMMA {
                    proof {
                        lemma_run_end(d, p, ByteClass::Whitespace);
                        lemma_key(d, s);
                        lemma_member(section, key_at(d, s), d, after_key(d, s), r);
                        lemma_run_end(d, q, ByteClass::Whitespace);
                    }
                    members(section, d, e + 1, next)
                } else {
                    Some((next, e))
                }
            },
        }
    }
}

/// The draft after the object of a part of the document whose members
/// start at `p`, and the position behind the object.
pub open spec fn object(section: Section, d: Seq<u8>, p: int, r: DraftView) -> Option<
    (DraftView, int),
> {
    match members(section, d, p, r) {
        None => None,
        Some((next, q)) => Some((next, after_byte(d, after_ws(d, q), CLOSE_BRACE))),
    }
}

/// The number behind the first dash of an id, if it has one.
pub open spec fn id_suffix(id: Seq<u8>, otherwise: u64) -> u64 {
    match find(id, 0, seq![MINUS]) {
        Some(dash) => (integer_at(id, dash + 1) % 0x1_0000_0000_0000_0000) as u64,
        None => otherwise,
    }
}

/// The draft with the word on whether there is a last transaction.
pub open spec fn with_last(r: DraftView, has_last_tx: bool) -> DraftView {
    DraftView { tx: TransactionView { has_last_tx, ..r.tx }, ..r }
}

/// The draft after one part of the document, whose value follows `p`,
/// and the position behind it. There is none where the text ends inside a
/// value.
pub open spec fn part(section: Section, d: Seq<u8>, p: int, r: DraftView) -> Option<
    (DraftView, int),
> {
    let s = after_ws(d, p);
    match section {
        Section::Id => if s < d.len() {
            Some(
                (
                    DraftView {
                        tx: TransactionView { id: id_suffix(string_at(d, p), r.tx.id), ..r.tx },
                        ..r
                    },
                    after_string(d, p),
                ),
            )
        } else {
            None
        },
        Section::Unknown => Some((r, p)),
        Section::LastTransaction => {
            let v = after_ws(d, after_byte(d, s, COLON));
            if stands_at(d, v, "null".spec_bytes()) {
                Some((with_last(r, false), v + "null".spec_bytes().len()))
            } else if v < d.len() && d[v] == OPEN_BRACE {
                object(section, d, v + 1, with_last(r, true))
            } else {
                Some((r, v))
            }
        },
        _ => if s < d.len() {
            object(section, d, after_byte(d, s, OPEN_BRACE), r)
        } else {
            None
        },
    }
}

/// Members end inside the text, no earlier than they start.
pub proof fn lemma_members(section: Section, d: Seq<u8>, p: int, r: DraftView)
    requires
        0 <= p <= d.len(),
    ensures
        members(section, d, p, r) matches Some((_, q)) ==> p <= q <= d.len(),
    decreases d.len() - p,
{
    let s = after_ws(d, p);
    lemma_run_end(d, p, ByteClass::Whitespace);
    if s < d.len() && d[s] != CLOSE_BRACE {
        lemma_key(d, s);
        lemma_member(section, key_at(d, s), d, after_key(d, s), r);
        if let Some((next, q)) = member(section, key_at(d, s), d, after_key(d, s), r) {
            let e = after_ws(d, q);
            lemma_run_end(d, q, ByteClass::Whitespace);
            if e < d.len() && d[e] == COMMA {
                lemma_members(section, d, e + 1, next);
            }
        }
    }
}

/// A part ends inside the text, no earlier than it starts.
pub proof fn lemma_part(section: Section, d: Seq<u8>, p: int, r: DraftView)
    requires
        0 <= p <= d.len(),
    ensures
        part(section, d, p, r) matches Some((_, q)) ==> p <= q <= d.len(),
{
    let s = after_ws(d, p);
    lemma_run_end(d, p, ByteClass::Whitespace);
    lemma_string(d, p);
    match section {
        Section::Id => {},
        Section::Unknown => {},
        Section::LastTransaction => {
            let c = after_byte(d, s, COLON);
            lemma_run_end(d, c, ByteClass::Whitespace);
            let v = after_ws(d, c);
            if v < d.len() {
                let started = with_last(r, true);
                lemma_members(section, d, v + 1, started);
                if let Some((_, q)) = members(section, d, v + 1, started) {
                    lemma_run_end(d, q, ByteClass::Whitespace);
                }
            }
        },
        _ => {
            let b = after_byte(d, s, OPEN_BRACE);
            lemma_members(section, d, b, r);
            if let Some((_, q)) = members(section, d, b, r) {
                lemma_run_end(d, q, ByteClass::Whitespace);
            }
        },
    }
}

/// The draft after the parts of the document from `p` on.
pub open spec fn parts(d: Seq<u8>, p: int, r: DraftView) -> Option<DraftView>
    decreases d.len() - p,
{
    let s = after_ws(d, p);
    if !(0 <= p <= d.len()) || s >= d.len() || d[s] == CLOSE_BRACE {
        Some(r)
    } else if d[s] != QUOTE {
        proof {
            lemma_run_end(d, p, ByteClass::Whitespace);
        }
        parts(d, s + 1, r)
    } else {
        match part(section_of(key_at(d, s)), d, after_key(d, s), r) {
            None => None,
            Some((next, q)) => {
                let e = after_ws(d, q);
                if e < d.len() && d[e] == COMMA {
                    proof {
                        lemma_run_end(d, p, ByteClass::Whitespace);
                        lemma_key(d, s);
                        lemma_part(section_of(key_at(d, s)), d, after_key(d, s), r);
                        lemma_run_end(d, q, ByteClass::Whitespace);
                    }
                    parts(d, e + 1, next)
                } else {
                    Some(next)
                }
            },
        }
    }
}

/// The transaction that a document describes. There is none where the text
/// ends before the document starts, or inside a value.
pub open spec fn transaction(d: Seq<u8>) -> Option<TransactionView> {
    let s = after_ws(d, 0);
    if s < d.len() {
        match parts(d, after_byte(d, s, OPEN_BRACE), blank_draft()) {
            Some(r) => Some(finished(r)),
            None => None,
        }
    } else {
        None
    }
}

/// Reads the member `key` of the part "transaction".
fn parse_transaction_member(
    key: &[u8],
    data: &[u8],
    pos: usize,
    draft: &mut Draft,
) -> (r: Option<usize>)
    requires
        pos <= data@.len(),
    ensures
        match r {
            Some(q) => transaction_member(key@, data@, pos as int, old(draft)@) == Some((final(draft)@, q as int))
                && pos <= q <= data@.len(),
            None => transaction_member(key@, data@, pos as int, old(draft)@) is None,
        },
{
    if same_bytes(key, "amount".as_bytes()) {
        match parse_number(data, pos) {
            Some((n, q)) => {
                draft.tx.amount = n;
                Some(q)
            },
            None => None,
        }
    } else if same_bytes(key, "installments".as_bytes()) {
        let (value, q) = parse_u8(data, pos);
        draft.tx.installments = value;
        Some(q)
    } else if same_bytes(key, "requested_at".as_bytes()) {
        match parse_timestamp(data, pos) {
            Some((hour, wd, q)) => {
                draft.requested_at = parse_moment(data, pos);
                draft.tx.hour = hour;
                draft.tx.weekday = wd;
                Some(q)
            },
            None => None,
        }
    } else {
        Some(pos)
    }
}

/// Reads the member `key` of the part "customer".
fn parse_customer_member(
    key: &[u8],
    data: &[u8],
    pos: usize,
    tx: &mut TransactionData,
) -> (r: Option<usize>)
    requires
        pos <= data@.len(),
    ensures
        match r {
            Some(q) => customer_member(key@, data@, pos as int, old(tx)@) == Some((final(tx)@, q as int))
                && pos <= q <= data@.len(),
            None => customer_member(key@, data@, pos as int, old(tx)@) is None,
        },
{
    if same_bytes(key, "avg_amount".as_bytes()) {
        match parse_number(data, pos) {
            Some((n, q)) => {
                tx.customer_avg_amount = n;
                Some(q)
            },
            None => None,
        }
    } else if same_bytes(key, "tx_count_24h".as_bytes()) {
        let (value, q) = parse_u8(data, pos);
        tx.tx_count_24h = value;
        Some(q)
    } else if same_bytes(key, "known_merchants".as_bytes()) {
        match parse_str_array(data, pos, &mut tx.known_merchants) {
            Some((count, q)) => {
                tx.known_merchant_count = count;
                Some(q)
            },
            None => None,
        }
    } else {
        Some(pos)
    }
}

/// Reads the member `key` of the part "merchant".
fn parse_merchant_member(
    key: &[u8],
    data: &[u8],
    pos: usize,
    tx: &mut TransactionData,
) -> (r: Option<usize>)
    requires
        pos <= data@.len(),
    ensures
        match r {
            Some(q) => merchant_member(key@, data@, pos as int, old(tx)@) == Some((final(tx)@, q as int))
                && pos <= q <= data@.len(),
            None => merchant_member(key@, data@, pos as int, old(tx)@) is None,
        },
{
    if same_bytes(key, "id".as_bytes()) {
        match parse_str_hash(data, pos) {
            Some((h, q)) => {
                tx.merchant_id_hash = h;
                Some(q)
            },
            None => None,
        }
    } else if same_bytes(key, "mcc".as_bytes()) {
        let (value, q) = parse_category(data, pos);
        tx.mcc = value;
        Some(q)
    } else if same_bytes(key, "avg_amount".as_bytes()) {
        match parse_number(data, pos) {
            Some((n, q)) => {
                tx.merchant_avg_amount = n;
                Some(q)
            },
            None => None,
        }
    } else {
        Some(pos)
    }
}

/// Reads the member `key` of the part "terminal".
fn parse_terminal_member(
    key: &[u8],
    data: &[u8],
    pos: usize,
    tx: &mut TransactionData,
) -> (r: Option<usize>)
    requires
        pos <= data@.len(),
    ensures
        match r {
            Some(q) => terminal_member(key@, data@, pos as int, old(tx)@) == Some((final(tx)@, q as int))
                && pos <= q <= data@.len(),
            None => terminal_member(key@, data@, pos as int, old(tx)@) is None,
        },
{
    if same_bytes(key, "is_online".as_bytes()) {
        let (value, q) = parse_bool(data, pos);
        tx.is_online = value;
        Some(q)
    } else if same_bytes(key, "card_present".as_bytes()) {
        let (value, q) = parse_bool(data, pos);
        tx.card_present = value;
        Some(q)
    } else if same_bytes(key, "km_from_home".as_bytes()) {
        match parse_number(data, pos) {
            Some((n, q)) => {
                tx.km_from_home = n;
                Some(q)
            },
            None => None,
        }
    } else {
        Some(pos)
    }
}

/// Reads the member `key` of the part "last_transaction".
fn parse_last_member(
    key: &[u8],
    data: &[u8],
    pos: usize,
    draft: &mut Draft,
) -> (r: Option<usize>)
    requires
        pos <= data@.len(),
    ensures
        match r {
            Some(q) => last_member(key@, data@, pos as int, old(draft)@) == Some((final(draft)@, q as int))
                && pos <= q <= data@.len(),
            None => last_member(key@, data@, pos as int, old(draft)@) is None,
        },
{
    if same_bytes(key, "timestamp".as_bytes()) {
        match parse_timestamp(data, pos) {
            Some((_hour, _wd, q)) => {
                draft.last_at = parse_moment(data, pos);
                Some(q)
            },
            None => None,
        }
    } else if same_bytes(key, "km_from_current".as_bytes()) {
        match parse_number(data, pos) {
            Some((n, q)) => {
                draft.tx.km_from_last_tx = n;
                Some(q)
            },
            None => None,
        }
    } else {
        Some(pos)
    }
}

/// Reads the members of a part of the document from `pos` on.
fn parse_members(section: Section, data: &[u8], pos: usize, draft: &mut Draft) -> (r: Option<
    usize,
>)
    requires
        pos <= data@.len(),
    ensures
        match r {
            Some(q) => members(section, data@, pos as int, old(draft)@) == Some(
                (final(draft)@, q as int),
            ) && pos <= q <= data@.len(),
            None => members(section, data@, pos as int, old(draft)@) is None,
        },
{
    let mut p: usize = pos;
    loop
        invariant
            pos <= p <= data@.len(),
            members(section, data@, pos as int, old(draft)@) == members(
                section,
                data@,
                p as int,
                draft@,
            ),
        decreases data@.len() - p,
    {
        let s: usize = skip_ws(data, p);
        if s >= data.len() || data[s] == CLOSE_BRACE {
            return Some(s);
        }
        let (start, end, after) = parse_key(data, s);
        let key: &[u8] = slice_subrange(data, start, end);
        let value: Option<usize> = match section {
            Section::Transaction => parse_transaction_member(key, data, after, draft),
            Section::Customer => parse_customer_member(key, data, after, &mut draft.tx),
            Section::Merchant => parse_merchant_member(key, data, after, &mut draft.tx),
            Section::Terminal => parse_terminal_member(key, data, after, &mut draft.tx),
            Section::LastTransaction => parse_last_member(key, data, after, draft),
            Section::Id => Some(after),
            Section::Unknown => Some(after),
        };
        if value.is_none() {
            return None;
        }
        let e: usize = skip_ws(data, value.unwrap());
        if e < data.len() && data[e] == COMMA {
            p = e + 1;
        } else {
            return Some(e);
        }
    }
}

/// Reads the object of a part of the document whose members start at `pos`.
fn parse_object(section: Section, data: &[u8], pos: usize, draft: &mut Draft) -> (r: Option<
    usize,
>)
    requires
        pos <= data@.len(),
    ensures
        match r {
            Some(q) => object(section, data@, pos as int, old(draft)@) == Some(
                (final(draft)@, q as int),
            ) && pos <= q <= data@.len(),
            None => object(section, data@, pos as int, old(draft)@) is None,
        },
{
    match parse_members(section, data, pos, draft) {
        Some(q) => Some(skip_byte(data, skip_ws(data, q), CLOSE_BRACE)),
        None => None,
    }
}

/// Tells which part of the document a key introduces.
fn find_section(key: &[u8]) -> (r: Section)
    ensures
        r == section_of(key@),
{
    if same_bytes(key, "id".as_bytes()) {
        Section::Id
    } else if same_bytes(key, "transaction".as_bytes()) {
        Section::Transaction
    } else if same_bytes(key, "customer".as_bytes()) {
        Section::Customer
    } else if same_bytes(key, "merchant".as_bytes()) {
        Section::Merchant
    } else if same_bytes(key, "terminal".as_bytes()) {
        Section::Terminal
    } else if same_bytes(key, "last_transaction".as_bytes()) {
        Section::LastTransaction
    } else {
        Section::Unknown
    }
}

/// Reads the id of a transaction: the number behind its first dash.
fn parse_id(data: &[u8], pos: usize, draft: &mut Draft) -> (r: Option<usize>)
    requires
        pos <= data@.len(),
    ensures
        match r {
            Some(q) => part(Section::Id, data@, pos as int, old(draft)@) == Some(
                (final(draft)@, q as int),
            ) && pos <= q <= data@.len(),
            None => part(Section::Id, data@, pos as int, old(draft)@) is None,
        },
{
    let s: usize = skip_ws(data, pos);
    if s >= data.len() {
        return None;
    }
    let start: usize = skip_byte(data, s, QUOTE);
    let end: usize = scan(data, start, ByteClass::Not(QUOTE));
    let id: &[u8] = slice_subrange(data, start, end);
    let dash: [u8; 1] = [MINUS];
    assert(dash@ =~= seq![MINUS]);
    if let Some(i) = find_word(id, 0, dash.as_slice()) {
        let (value, _end) = parse_u64(id, i + 1);
        draft.tx.id = value;
    }
    Some(skip_byte(data, end, QUOTE))
}

/// Reads the part "last_transaction", which may be `null`.
fn parse_last(data: &[u8], pos: usize, draft: &mut Draft) -> (r: Option<usize>)
    requires
        pos <= data@.len(),
    ensures
        match r {
            Some(q) => part(Section::LastTransaction, data@, pos as int, old(draft)@) == Some(
                (final(draft)@, q as int),
            ) && pos <= q <= data@.len(),
            None => part(Section::LastTransaction, data@, pos as int, old(draft)@) is None,
        },
{
    let len: usize = data.len();
    let v: usize = skip_ws(data, skip_byte(data, skip_ws(data, pos), COLON));
    if word_at(data, v, "null".as_bytes()) {
        draft.tx.has_last_tx = false;
        Some(v + "null".as_bytes().len())
    } else if v < len && data[v] == OPEN_BRACE {
        draft.tx.has_last_tx = true;
        parse_object(Section::LastTransaction, data, v + 1, draft)
    } else {
        Some(v)
    }
}

/// Reads one part of the document.
fn parse_part(section: Section, data: &[u8], pos: usize, draft: &mut Draft) -> (r: Option<
    usize,
>)
    requires
        pos <= data@.len(),
    ensures
        match r {
            Some(q) => part(section, data@, pos as int, old(draft)@) == Some((final(draft)@, q as int))
                && pos <= q <= data@.len(),
            None => part(section, data@, pos as int, old(draft)@) is None,
        },
{
    match section {
        Section::Id => parse_id(data, pos, draft),
        Section::Unknown => Some(pos),
        Section::LastTransaction => parse_last(data, pos, draft),
        _ => {
            let s: usize = skip_ws(data, pos);
            if s >= data.len() {
                return None;
            }
            parse_object(section, data, skip_byte(data, s, OPEN_BRACE), draft)
        },
    }
}

/// Whether a draft lists no more merchants than fit.
pub open spec fn fits(r: DraftView) -> bool {
    r.tx.known_merchants.len() == MAX_MERCHANTS && r.tx.known_merchant_count <= MAX_MERCHANTS
}

/// Members list no more merchants than fit.
proof fn lemma_members_fit(section: Section, d: Seq<u8>, p: int, r: DraftView)
    requires
        0 <= p <= d.len(),
        fits(r),
    ensures
        members(section, d, p, r) matches Some((next, _)) ==> fits(next),
    decreases d.len() - p,
{
    let s = after_ws(d, p);
    lemma_run_end(d, p, ByteClass::Whitespace);
    if s < d.len() && d[s] != CLOSE_BRACE {
        lemma_key(d, s);
        lemma_member(section, key_at(d, s), d, after_key(d, s), r);
        if let Some((next, q)) = member(section, key_at(d, s), d, after_key(d, s), r) {
            let e = after_ws(d, q);
            lemma_run_end(d, q, ByteClass::Whitespace);
            if e < d.len() && d[e] == COMMA {
                lemma_members_fit(section, d, e + 1, next);
            }
        }
    }
}

/// A part lists no more merchants than fit.
proof fn lemma_part_fits(section: Section, d: Seq<u8>, p: int, r: DraftView)
    requires
        0 <= p <= d.len(),
        fits(r),
    ensures
        part(section, d, p, r) matches Some((next, _)) ==> fits(next),
{
    let s = after_ws(d, p);
    lemma_run_end(d, p, ByteClass::Whitespace);
    let v = after_ws(d, after_byte(d, s, COLON));
    lemma_run_end(d, after_byte(d, s, COLON), ByteClass::Whitespace);
    if v < d.len() {
        lemma_members_fit(section, d, v + 1, with_last(r, true));
    }
    lemma_members_fit(section, d, after_byte(d, s, OPEN_BRACE), r);
}

proof fn lemma_parts_fit(d: Seq<u8>, p: int, r: DraftView)
    requires
        0 <= p <= d.len(),
        fits(r),
    ensures
        parts(d, p, r) matches Some(next) ==> fits(next),
    decreases d.len() - p,
{
    let s = after_ws(d, p);
    lemma_run_end(d, p, ByteClass::Whitespace);
    if s < d.len() && d[s] != CLOSE_BRACE {
        if d[s] != QUOTE {
            lemma_parts_fit(d, s + 1, r);
        } else {
            let section = section_of(key_at(d, s));
            lemma_key(d, s);
            lemma_part(section, d, after_key(d, s), r);
            lemma_part_fits(section, d, after_key(d, s), r);
            if let Some((next, q)) = part(section, d, after_key(d, s), r) {
                let e = after_ws(d, q);
                lemma_run_end(d, q, ByteClass::Whitespace);
                if e < d.len() && d[e] == COMMA {
                    lemma_parts_fit(d, e + 1, next);
                }
            }
        }
    }
}

/// No document makes a transaction list more merchants than fit.
pub proof fn law_known_merchants_fit(d: Seq<u8>)
    ensures
        transaction(d) matches Some(tx) ==> tx.known_merchant_count <= MAX_MERCHANTS,
{
    let s = after_ws(d, 0);
    lemma_run_end(d, 0, ByteClass::Whitespace);
    if s < d.len() {
        lemma_parts_fit(d, after_byte(d, s, OPEN_BRACE), blank_draft());
    }
}

/// Scans the JSON and fills `TransactionData`, the parts in any order. Returns
/// `None` where the text ends before the document starts, or inside a value.
pub fn try_parse_transaction(data: &[u8]) -> (r: Option<TransactionData>)
    ensures
        match r {
            Some(tx) => transaction(data@) == Some(tx@) && tx.known_merchant_count
                <= MAX_MERCHANTS,
            None => transaction(data@) is None,
        },
{
    proof {
        law_known_merchants_fit(data@);
    }
    let mut draft = Draft { tx: TransactionData::new(), requested_at: None, last_at: None };
    let first: usize = skip_ws(data, 0);
    if first >= data.len() {
        return None;
    }
    let start: usize = skip_byte(data, first, OPEN_BRACE);
    let mut p: usize = start;
    loop
        invariant
            p <= data@.len(),
            parts(data@, start as int, blank_draft()) == parts(data@, p as int, draft@),
            first < data@.len(),
            first == after_ws(data@, 0),
            start == after_byte(data@, first as int, OPEN_BRACE),
            transaction(data@) matches Some(t) ==> t.known_merchant_count <= MAX_MERCHANTS,
        decreases data@.len() - p,
    {
        let s: usize = skip_ws(data, p);
        if s >= data.len() || data[s] == CLOSE_BRACE {
            return Some(finish(draft));
        }
        if data[s] != QUOTE {
            p = s + 1;
            continue;
        }
        let (key_from, key_to, after) = parse_key(data, s);
        let section: Section = find_section(slice_subrange(data, key_from, key_to));
        match parse_part(section, data, after, &mut draft) {
            None => {
                return None;
            },
            Some(q) => {
                let e: usize = skip_ws(data, q);
                if e < data.len() && data[e] == COMMA {
                    p = e + 1;
                } else {
                    return Some(finish(draft));
                }
            },
        }
    }
}

/// Main parser: scans the JSON and fills `TransactionData`, of a document that
/// does not end inside a value.
pub fn parse_transaction(data: &[u8]) -> (tx: TransactionData)
    requires
        transaction(data@) is Some,
    ensures
        transaction(data@) == Some(tx@),
        tx.known_merchant_count <= MAX_MERCHANTS,
{
    try_parse_transaction(data).unwrap()
}

/// Whether two drafts agree in what a part of the document describes.
pub open spec fn same_part(section: Section, a: DraftView, b: DraftView) -> bool {
    match section {
        Section::Id => a.tx.id == b.tx.id,
        Section::Transaction => {
            &&& a.tx.amount == b.tx.amount
            &&& a.tx.installments == b.tx.installments
            &&& a.tx.hour == b.tx.hour
            &&& a.tx.weekday == b.tx.weekday
            &&& a.requested_at == b.requested_at
        },
        Section::Customer => {
            &&& a.tx.customer_avg_amount == b.tx.customer_avg_amount
            &&& a.tx.tx_count_24h == b.tx.tx_count_24h
            &&& a.tx.known_merchants == b.tx.known_merchants
            &&& a.tx.known_merchant_count == b.tx.known_merchant_count
        },
        Section::Merchant => {
            &&& a.tx.merchant_id_hash == b.tx.merchant_id_hash
            &&& a.tx.mcc == b.tx.mcc
            &&& a.tx.merchant_avg_amount == b.tx.merchant_avg_amount
        },
        Section::Terminal => {
            &&& a.tx.is_online == b.tx.is_online
            &&& a.tx.card_present == b.tx.card_present
            &&& a.tx.km_from_home == b.tx.km_from_home
        },
        Section::LastTransaction => {
            &&& a.tx.has_last_tx == b.tx.has_last_tx
            &&& a.last_at == b.last_at
            &&& a.tx.km_from_last_tx == b.tx.km_from_last_tx
        },
        Section::Unknown => true,
    }
}

/// Whether two drafts agree in all but what a part of the document
/// describes.
pub open spec fn same_rest(section: Section, a: DraftView, b: DraftView) -> bool {
    &&& a.tx.last_tx_minutes == b.tx.last_tx_minutes
    &&& section != Section::Id ==> same_part(Section::Id, a, b)
    &&& section != Section::Transaction ==> same_part(Section::Transaction, a, b)
    &&& section != Section::Customer ==> same_part(Section::Customer, a, b)
    &&& section != Section::Merchant ==> same_part(Section::Merchant, a, b)
    &&& section != Section::Terminal ==> same_part(Section::Terminal, a, b)
    &&& section != Section::LastTransaction ==> same_part(Section::LastTransaction, a, b)
}

proof fn lemma_member_local(
    section: Section,
    key: Seq<u8>,
    d: Seq<u8>,
    p: int,
    a: DraftView,
    b: DraftView,
)
    requires
        same_part(section, a, b),
    ensures
        match (member(section, key, d, p, a), member(section, key, d, p, b)) {
            (Some((ta, qa)), Some((tb, qb))) => qa == qb && same_part(section, ta, tb)
                && same_rest(section, ta, a) && same_rest(section, tb, b),
            (None, None) => true,
            _ => false,
        },
{
    match section {
        Section::Transaction => {
            assert(transaction_member(key, d, p, a) == member(section, key, d, p, a));
        },
        Section::Customer => {
            assert(with_transaction(a, customer_member(key, d, p, a.tx)) == member(section, key, d, p, a));
        },
        Section::Merchant => {
            assert(with_transaction(a, merchant_member(key, d, p, a.tx)) == member(section, key, d, p, a));
        },
        Section::Terminal => {
            assert(with_transaction(a, terminal_member(key, d, p, a.tx)) == member(section, key, d, p, a));
        },
        Section::LastTransaction => {
            assert(last_member(key, d, p, a) == member(section, key, d, p, a));
        },
        _ => {},
    }
}

proof fn lemma_same_rest_chain(
    section: Section,
    a: DraftView,
    b: DraftView,
    c: DraftView,
)
    requires
        same_rest(section, a, b),
        same_rest(section, b, c),
    ensures
        same_rest(section, a, c),
{
}

proof fn lemma_members_local(
    section: Section,
    d: Seq<u8>,
    p: int,
    a: DraftView,
    b: DraftView,
)
    requires
        same_part(section, a, b),
    ensures
        match (members(section, d, p, a), members(section, d, p, b)) {
            (Some((ta, qa)), Some((tb, qb))) => qa == qb && same_part(section, ta, tb)
                && same_rest(section, ta, a) && same_rest(section, tb, b),
            (None, None) => true,
            _ => false,
        },
    decreases d.len() - p,
{
    let s = after_ws(d, p);
    if 0 <= p <= d.len() && s < d.len() && d[s] != CLOSE_BRACE {
        let key = key_at(d, s);
        let v = after_key(d, s);
        lemma_run_end(d, p, ByteClass::Whitespace);
        lemma_key(d, s);
        lemma_member(section, key, d, v, a);
        lemma_member_local(section, key, d, v, a, b);
        if let Some((ta, q)) = member(section, key, d, v, a) {
            let (tb, _) = member(section, key, d, v, b).unwrap();
            let e = after_ws(d, q);
            lemma_run_end(d, q, ByteClass::Whitespace);
            if e < d.len() && d[e] == COMMA {
                lemma_members_local(section, d, e + 1, ta, tb);
                if let Some((ra, _)) = members(section, d, e + 1, ta) {
                    let (rb, _) = members(section, d, e + 1, tb).unwrap();
                    lemma_same_rest_chain(section, ra, ta, a);
                    lemma_same_rest_chain(section, rb, tb, b);
                }
            }
        }
    }
}

/// A part of the document is read without regard to what other parts said, and
/// leaves what they said alone.
pub proof fn law_part_is_local(
    section: Section,
    d: Seq<u8>,
    p: int,
    a: DraftView,
    b: DraftView,
)
    requires
        same_part(section, a, b),
    ensures
        match (part(section, d, p, a), part(section, d, p, b)) {
            (Some((ta, qa)), Some((tb, qb))) => qa == qb && same_part(section, ta, tb)
                && same_rest(section, ta, a) && same_rest(section, tb, b),
            (None, None) => true,
            _ => false,
        },
{
    let s = after_ws(d, p);
    match section {
        Section::Id => {},
        Section::Unknown => {},
        Section::LastTransaction => {
            let v = after_ws(d, after_byte(d, s, COLON));
            lemma_members_local(
                section,
                d,
                v + 1,
                with_last(a, true),
                with_last(b, true),
            );
        },
        _ => {
            lemma_members_local(section, d, after_byte(d, s, OPEN_BRACE), a, b);
        },
    }
}

/// The parts of a document may stand in any order: two different parts, read
/// one after the other, give the same draft whichever comes first.
pub proof fn law_parts_commute(
    s1: Section,
    d1: Seq<u8>,
    p1: int,
    s2: Section,
    d2: Seq<u8>,
    p2: int,
    r: DraftView,
)
    requires
        s1 != s2,
        part(s1, d1, p1, r) is Some,
        part(s2, d2, p2, r) is Some,
    ensures
        ({
            let first = part(s2, d2, p2, part(s1, d1, p1, r).unwrap().0);
            let second = part(s1, d1, p1, part(s2, d2, p2, r).unwrap().0);
            &&& first is Some
            &&& second is Some
            &&& first.unwrap().0 == second.unwrap().0
            &&& first.unwrap().1 == part(s2, d2, p2, r).unwrap().1
            &&& second.unwrap().1 == part(s1, d1, p1, r).unwrap().1
        }),
{
    let t1 = part(s1, d1, p1, r).unwrap().0;
    let t2 = part(s2, d2, p2, r).unwrap().0;
    law_part_is_local(s1, d1, p1, r, r);
    law_part_is_local(s2, d2, p2, r, r);
    assert(same_part(s2, t1, r));
    assert(same_part(s1, t2, r));
    law_part_is_local(s2, d2, p2, t1, r);
    law_part_is_local(s1, d1, p1, t2, r);
    let t12 = part(s2, d2, p2, t1).unwrap().0;
    let t21 = part(s1, d1, p1, t2).unwrap().0;
    assert(same_part(s2, t12, t2) && same_part(s1, t12, t1));
    assert(same_part(s1, t21, t1) && same_part(s2, t21, t2));
    assert(t12 =~= t21);
}

} // verus!
