//! What a document says, whatever the order of its parts and members and
//! whatever whitespace stands between its tokens.

use crate::json_parser::{after_key, blank_draft, finished, id_suffix, key_at, member, members,
    object, part, parts, section_of, transaction, with_last, DraftView, Section, TransactionView};
use crate::json_values::{after_array, array_start, category_at, hash_of, hashes_at, hour_at,
    integer_at, kept, moment_at, overwritten, string_at, weekday_at};
use crate::number::NumberView;
use crate::scan::{after_byte, after_ws, lemma_run_end, stands_at, ByteClass, CLOSE_BRACE,
    CLOSE_BRACKET, COLON, COMMA, OPEN_BRACE, OPEN_BRACKET, QUOTE};
use crate::spelling::{is_integer, is_number, is_text, is_timestamp, is_truth, lemma_category_read,
    lemma_integer_read, lemma_number_read, lemma_spelled_first, lemma_spelled_one,
    lemma_spelled_split, lemma_text_read, lemma_timestamp_read, lemma_token_byte, lemma_truth_read,
    lemma_value_ends, number_of, spelled, spelled_end, value_ends};
use vstd::prelude::*;
use vstd::seq_lib::{to_multiset_contains, to_multiset_len, to_multiset_remove};
use vstd::string::*;

verus! {

/// The value of a member: one token, or a list of texts.
pub enum Value {
    Token(Seq<u8>),
    Texts(Seq<Seq<u8>>),
}

/// A member of a part: its name, a text in quotes, and its value.
pub struct Member {
    pub name: Seq<u8>,
    pub value: Value,
}

/// The value of a part: a text in quotes, the word "null", or members.
pub enum Body {
    Text(Seq<u8>),
    Null,
    Members(Seq<Member>),
}

/// A part of a document: its name, a text in quotes, and its value.
pub struct Part {
    pub name: Seq<u8>,
    pub body: Body,
}

/// The tokens of a list of texts behind its opening bracket.
pub open spec fn texts_tokens(texts: Seq<Seq<u8>>) -> Seq<Seq<u8>>
    decreases texts.len(),
{
    if texts.len() == 0 {
        seq![seq![CLOSE_BRACKET]]
    } else if texts.len() == 1 {
        seq![texts[0]] + seq![seq![CLOSE_BRACKET]]
    } else {
        seq![texts[0]] + (seq![seq![COMMA]] + texts_tokens(texts.skip(1)))
    }
}

/// The tokens of the value of a member.
pub open spec fn value_tokens(value: Value) -> Seq<Seq<u8>> {
    match value {
        Value::Token(t) => seq![t],
        Value::Texts(texts) => seq![seq![OPEN_BRACKET]] + texts_tokens(texts),
    }
}

/// The tokens of a name and its colon.
pub open spec fn name_tokens(name: Seq<u8>) -> Seq<Seq<u8>> {
    seq![name] + seq![seq![COLON]]
}

/// The tokens of a member.
pub open spec fn member_tokens(m: Member) -> Seq<Seq<u8>> {
    name_tokens(m.name) + value_tokens(m.value)
}

/// The tokens of members behind their opening brace.
pub open spec fn members_tokens(ms: Seq<Member>) -> Seq<Seq<u8>>
    decreases ms.len(),
{
    if ms.len() == 0 {
        seq![seq![CLOSE_BRACE]]
    } else if ms.len() == 1 {
        member_tokens(ms[0]) + seq![seq![CLOSE_BRACE]]
    } else {
        member_tokens(ms[0]) + (seq![seq![COMMA]] + members_tokens(ms.skip(1)))
    }
}

/// The tokens of the value of a part.
pub open spec fn body_tokens(body: Body) -> Seq<Seq<u8>> {
    match body {
        Body::Text(t) => seq![t],
        Body::Null => seq!["null".spec_bytes()],
        Body::Members(ms) => seq![seq![OPEN_BRACE]] + members_tokens(ms),
    }
}

/// The tokens of a part.
pub open spec fn part_tokens(pt: Part) -> Seq<Seq<u8>> {
    name_tokens(pt.name) + body_tokens(pt.body)
}

/// The tokens of parts behind their opening brace.
pub open spec fn parts_tokens(ps: Seq<Part>) -> Seq<Seq<u8>>
    decreases ps.len(),
{
    if ps.len() == 0 {
        seq![seq![CLOSE_BRACE]]
    } else if ps.len() == 1 {
        part_tokens(ps[0]) + seq![seq![CLOSE_BRACE]]
    } else {
        part_tokens(ps[0]) + (seq![seq![COMMA]] + parts_tokens(ps.skip(1)))
    }
}

/// The tokens of a document.
pub open spec fn document_tokens(ps: Seq<Part>) -> Seq<Seq<u8>> {
    seq![seq![OPEN_BRACE]] + parts_tokens(ps)
}

/// One thing that a document says of its transaction.
pub enum Fact {
    Id(Seq<u8>),
    Amount(NumberView),
    Installments(u8),
    RequestedAt(u8, u8, Option<int>),
    CustomerAverage(NumberView),
    TxCount(u8),
    KnownMerchants(Seq<u32>),
    MerchantId(u32),
    Mcc(u16),
    MerchantAverage(NumberView),
    IsOnline(bool),
    CardPresent(bool),
    KmFromHome(NumberView),
    HasLast(bool),
    LastAt(Option<int>),
    KmFromLast(NumberView),
}

/// Which thing a fact is about.
pub open spec fn subject(f: Fact) -> int {
    match f {
        Fact::Id(_) => 0,
        Fact::Amount(_) => 1,
        Fact::Installments(_) => 2,
        Fact::RequestedAt(_, _, _) => 3,
        Fact::CustomerAverage(_) => 4,
        Fact::TxCount(_) => 5,
        Fact::KnownMerchants(_) => 6,
        Fact::MerchantId(_) => 7,
        Fact::Mcc(_) => 8,
        Fact::MerchantAverage(_) => 9,
        Fact::IsOnline(_) => 10,
        Fact::CardPresent(_) => 11,
        Fact::KmFromHome(_) => 12,
        Fact::HasLast(_) => 13,
        Fact::LastAt(_) => 14,
        Fact::KmFromLast(_) => 15,
    }
}

/// The transaction after a fact.
#[verifier::opaque]
pub open spec fn noted(f: Fact, tx: TransactionView) -> TransactionView {
    match f {
        Fact::Id(text) => TransactionView { id: id_suffix(text, tx.id), ..tx },
        Fact::Amount(n) => TransactionView { amount: n, ..tx },
        Fact::Installments(n) => TransactionView { installments: n, ..tx },
        Fact::RequestedAt(hour, weekday, _) => TransactionView { hour, weekday, ..tx },
        Fact::CustomerAverage(n) => TransactionView { customer_avg_amount: n, ..tx },
        Fact::TxCount(n) => TransactionView { tx_count_24h: n, ..tx },
        Fact::KnownMerchants(hashes) => TransactionView {
            known_merchants: overwritten(tx.known_merchants, hashes),
            known_merchant_count: kept(hashes, tx.known_merchants.len() as int) as u8,
            ..tx
        },
        Fact::MerchantId(hash) => TransactionView { merchant_id_hash: hash, ..tx },
        Fact::Mcc(n) => TransactionView { mcc: n, ..tx },
        Fact::MerchantAverage(n) => TransactionView { merchant_avg_amount: n, ..tx },
        Fact::IsOnline(b) => TransactionView { is_online: b, ..tx },
        Fact::CardPresent(b) => TransactionView { card_present: b, ..tx },
        Fact::KmFromHome(n) => TransactionView { km_from_home: n, ..tx },
        Fact::HasLast(b) => TransactionView { has_last_tx: b, ..tx },
        Fact::LastAt(_) => tx,
        Fact::KmFromLast(n) => TransactionView { km_from_last_tx: n, ..tx },
    }
}

/// The draft after a fact.
pub open spec fn apply(f: Fact, r: DraftView) -> DraftView {
    DraftView {
        tx: noted(f, r.tx),
        requested_at: match f {
            Fact::RequestedAt(_, _, moment) => moment,
            _ => r.requested_at,
        },
        last_at: match f {
            Fact::LastAt(moment) => moment,
            _ => r.last_at,
        },
    }
}

/// The draft after facts, one after the other.
pub open spec fn applied(facts: Seq<Fact>, r: DraftView) -> DraftView
    decreases facts.len(),
{
    if facts.len() == 0 {
        r
    } else {
        applied(facts.skip(1), apply(facts[0], r))
    }
}

/// The hashes of texts.
pub open spec fn hashes_of(texts: Seq<Seq<u8>>) -> Seq<u32> {
    Seq::new(texts.len(), |i: int| hash_of(string_at(texts[i], 0)) as u32)
}

/// What a member of the part "transaction" says, if its token is of the right
/// kind.
pub open spec fn transaction_fact(key: Seq<u8>, t: Seq<u8>) -> Option<Fact> {
    if key == "amount".spec_bytes() {
        if is_number(t) {
            Some(Fact::Amount(number_of(t)))
        } else {
            None
        }
    } else if key == "installments".spec_bytes() {
        if is_integer(t) {
            Some(Fact::Installments((integer_at(t, 0) % 0x100) as u8))
        } else {
            None
        }
    } else if key == "requested_at".spec_bytes() {
        if is_timestamp(t) {
            Some(Fact::RequestedAt(hour_at(t, 0) as u8, weekday_at(t, 0) as u8, moment_at(t, 0)))
        } else {
            None
        }
    } else {
        None
    }
}

/// What a member of the part "customer" says.
pub open spec fn customer_fact(key: Seq<u8>, value: Value) -> Option<Fact> {
    if key == "avg_amount".spec_bytes() {
        match value {
            Value::Token(t) if is_number(t) => Some(Fact::CustomerAverage(number_of(t))),
            _ => None,
        }
    } else if key == "tx_count_24h".spec_bytes() {
        match value {
            Value::Token(t) if is_integer(t) => Some(
                Fact::TxCount((integer_at(t, 0) % 0x100) as u8),
            ),
            _ => None,
        }
    } else if key == "known_merchants".spec_bytes() {
        match value {
            Value::Texts(texts) if are_texts(texts) => Some(Fact::KnownMerchants(hashes_of(texts))),
            _ => None,
        }
    } else {
        None
    }
}

/// Whether all of the tokens are texts in quotes.
pub open spec fn are_texts(texts: Seq<Seq<u8>>) -> bool {
    forall|i: int| 0 <= i < texts.len() ==> is_text(#[trigger] texts[i])
}

/// What a member of the part "merchant" says.
pub open spec fn merchant_fact(key: Seq<u8>, t: Seq<u8>) -> Option<Fact> {
    if key == "id".spec_bytes() {
        if is_text(t) {
            Some(Fact::MerchantId(hash_of(string_at(t, 0)) as u32))
        } else {
            None
        }
    } else if key == "mcc".spec_bytes() {
        if is_integer(t) || is_text(t) {
            Some(Fact::Mcc((category_at(t, 0) % 0x1_0000) as u16))
        } else {
            None
        }
    } else if key == "avg_amount".spec_bytes() {
        if is_number(t) {
            Some(Fact::MerchantAverage(number_of(t)))
        } else {
            None
        }
    } else {
        None
    }
}

/// What a member of the part "terminal" says.
pub open spec fn terminal_fact(key: Seq<u8>, t: Seq<u8>) -> Option<Fact> {
    if key == "is_online".spec_bytes() {
        if is_truth(t) {
            Some(Fact::IsOnline(t == "true".spec_bytes()))
        } else {
            None
        }
    } else if key == "card_present".spec_bytes() {
        if is_truth(t) {
            Some(Fact::CardPresent(t == "true".spec_bytes()))
        } else {
            None
        }
    } else if key == "km_from_home".spec_bytes() {
        if is_number(t) {
            Some(Fact::KmFromHome(number_of(t)))
        } else {
            None
        }
    } else {
        None
    }
}

/// What a member of the part "last_transaction" says.
pub open spec fn last_fact(key: Seq<u8>, t: Seq<u8>) -> Option<Fact> {
    if key == "timestamp".spec_bytes() {
        if is_timestamp(t) {
            Some(Fact::LastAt(moment_at(t, 0)))
        } else {
            None
        }
    } else if key == "km_from_current".spec_bytes() {
        if is_number(t) {
            Some(Fact::KmFromLast(number_of(t)))
        } else {
            None
        }
    } else {
        None
    }
}

/// What a member of a part says; nothing if its name is not known there, or if
/// its value is not of the right kind.
pub open spec fn member_fact(section: Section, m: Member) -> Option<Fact> {
    let key = string_at(m.name, 0);
    if !is_text(m.name) {
        None
    } else {
        match (section, m.value) {
            (Section::Customer, value) => customer_fact(key, value),
            (Section::Transaction, Value::Token(t)) => transaction_fact(key, t),
            (Section::Merchant, Value::Token(t)) => merchant_fact(key, t),
            (Section::Terminal, Value::Token(t)) => terminal_fact(key, t),
            (Section::LastTransaction, Value::Token(t)) => last_fact(key, t),
            _ => None,
        }
    }
}

/// What members of a part say, in their order.
pub open spec fn members_facts(section: Section, ms: Seq<Member>) -> Seq<Fact> {
    Seq::new(ms.len(), |i: int| member_fact(section, ms[i]).unwrap())
}

/// Whether each of the members says something.
pub open spec fn are_members(section: Section, ms: Seq<Member>) -> bool {
    forall|i: int| 0 <= i < ms.len() ==> member_fact(section, #[trigger] ms[i]) is Some
}

/// The section that a part belongs to.
pub open spec fn part_section(pt: Part) -> Section {
    section_of(string_at(pt.name, 0))
}

/// Whether a part is one of those that a document may have.
pub open spec fn is_part(pt: Part) -> bool {
    is_text(pt.name) && match (part_section(pt), pt.body) {
        (Section::Id, Body::Text(t)) => is_text(t),
        (Section::LastTransaction, Body::Null) => true,
        (Section::Id, _) => false,
        (Section::Unknown, _) => false,
        (section, Body::Members(ms)) => are_members(section, ms),
        _ => false,
    }
}

/// What a part says.
pub open spec fn part_facts(pt: Part) -> Seq<Fact> {
    match (part_section(pt), pt.body) {
        (Section::Id, Body::Text(t)) => seq![Fact::Id(string_at(t, 0))],
        (Section::LastTransaction, Body::Null) => seq![Fact::HasLast(false)],
        (Section::LastTransaction, Body::Members(ms)) => seq![Fact::HasLast(true)] + members_facts(
            Section::LastTransaction,
            ms,
        ),
        (section, Body::Members(ms)) => members_facts(section, ms),
        _ => seq![],
    }
}

/// Whether the parts are ones that a document may have.
pub open spec fn is_document(ps: Seq<Part>) -> bool {
    forall|i: int| 0 <= i < ps.len() ==> is_part(#[trigger] ps[i])
}

/// What a document says, in its order.
pub open spec fn document_facts(ps: Seq<Part>) -> Seq<Fact>
    decreases ps.len(),
{
    if ps.len() == 0 {
        seq![]
    } else {
        part_facts(ps[0]) + document_facts(ps.skip(1))
    }
}

/// Facts may be applied in two goes.
pub proof fn lemma_applied_split(a: Seq<Fact>, b: Seq<Fact>, r: DraftView)
    ensures
        applied(a + b, r) == applied(b, applied(a, r)),
    decreases a.len(),
{
    if a.len() == 0 {
        assert(a + b =~= b);
    } else {
        assert((a + b).skip(1) =~= a.skip(1) + b);
        lemma_applied_split(a.skip(1), b, apply(a[0], r));
    }
}

/// A name is read where it stands.
pub proof fn lemma_name_read(d: Seq<u8>, p: int, name: Seq<u8>)
    requires
        spelled(d, p, name_tokens(name)),
        is_text(name),
    ensures
        ({
            let s = after_ws(d, p);
            &&& p <= s < d.len()
            &&& d[s] == QUOTE
            &&& key_at(d, s) == string_at(name, 0)
            &&& after_key(d, s) == spelled_end(d, p, name_tokens(name))
        }),
{
    let s = after_ws(d, p);
    lemma_spelled_first(d, p, name, seq![seq![COLON]]);
    lemma_token_byte(d, s, name, 0);
    lemma_text_read(d, p, name);
    let e = s + name.len();
    lemma_token_byte(d, s, name, name.len() - 1);
    lemma_spelled_one(d, e, seq![COLON]);
    lemma_token_byte(d, after_ws(d, e), seq![COLON], 0);
}

/// A list of texts is read where it stands.
proof fn lemma_texts_read(d: Seq<u8>, p: int, texts: Seq<Seq<u8>>)
    requires
        spelled(d, p, texts_tokens(texts)),
        are_texts(texts),
    ensures
        hashes_at(d, p).0 == hashes_of(texts),
        after_byte(d, after_ws(d, hashes_at(d, p).1), CLOSE_BRACKET) == spelled_end(
            d,
            p,
            texts_tokens(texts),
        ),
    decreases texts.len(),
{
    let s = after_ws(d, p);
    let close = seq![CLOSE_BRACKET];
    lemma_run_end(d, p, ByteClass::Whitespace);
    if texts.len() == 0 {
        lemma_spelled_one(d, p, close);
        lemma_token_byte(d, s, close, 0);
        assert(after_ws(d, s) == s);
        assert(hashes_of(texts) =~= Seq::<u32>::empty());
    } else {
        let t = texts[0];
        let rest = if texts.len() == 1 {
            seq![close]
        } else {
            seq![seq![COMMA]] + texts_tokens(texts.skip(1))
        };
        assert(texts_tokens(texts) == seq![t] + rest);
        lemma_spelled_first(d, p, t, rest);
        lemma_text_read(d, p, t);
        lemma_token_byte(d, s, t, 0);
        assert(after_ws(d, s) == s);
        lemma_text_read(d, s, t);
        let e = s + t.len();
        let q = after_ws(d, e);
        lemma_run_end(d, e, ByteClass::Whitespace);
        if texts.len() == 1 {
            lemma_spelled_one(d, e, close);
            lemma_token_byte(d, q, close, 0);
            assert(after_ws(d, q) == q);
            assert(hashes_of(texts) =~= seq![hash_of(string_at(t, 0)) as u32]);
        } else {
            lemma_spelled_first(d, e, seq![COMMA], texts_tokens(texts.skip(1)));
            lemma_token_byte(d, q, seq![COMMA], 0);
            lemma_texts_read(d, q + 1, texts.skip(1));
            assert(hashes_of(texts) =~= seq![hash_of(string_at(t, 0)) as u32] + hashes_of(
                texts.skip(1),
            ));
        }
    }
}

/// The list of a customer's merchants is read where it stands.
proof fn lemma_array_read(d: Seq<u8>, p: int, texts: Seq<Seq<u8>>)
    requires
        spelled(d, p, value_tokens(Value::Texts(texts))),
        are_texts(texts),
    ensures
        after_ws(d, p) < d.len(),
        hashes_at(d, array_start(d, p)).0 == hashes_of(texts),
        after_array(d, p) == spelled_end(d, p, value_tokens(Value::Texts(texts))),
{
    lemma_spelled_first(d, p, seq![OPEN_BRACKET], texts_tokens(texts));
    lemma_token_byte(d, after_ws(d, p), seq![OPEN_BRACKET], 0);
    lemma_texts_read(d, after_ws(d, p) + 1, texts);
}

/// The value of a member, of one token, is read where it stands.
proof fn lemma_token_value_read(section: Section, m: Member, d: Seq<u8>, p: int, r: DraftView)
    requires
        m.value is Token,
        spelled(d, p, value_tokens(m.value)),
        member_fact(section, m) is Some,
        value_ends(d, spelled_end(d, p, value_tokens(m.value))),
    ensures
        member(section, string_at(m.name, 0), d, p, r) == Some(
            (
                apply(member_fact(section, m).unwrap(), r),
                spelled_end(d, p, value_tokens(m.value)),
            ),
        ),
{
    reveal(noted);
    let t = m.value->Token_0;
    lemma_spelled_one(d, p, t);
    if is_number(t) {
        lemma_number_read(d, p, t);
    }
    if is_integer(t) {
        lemma_integer_read(d, p, t);
    }
    if is_integer(t) || is_text(t) {
        lemma_category_read(d, p, t);
    }
    if is_timestamp(t) {
        lemma_timestamp_read(d, p, t);
    }
    if is_text(t) {
        lemma_text_read(d, p, t);
    }
    if is_truth(t) {
        lemma_truth_read(d, p, t);
    }
}

/// A member is read where it stands.
proof fn lemma_member_read(section: Section, m: Member, d: Seq<u8>, p: int, r: DraftView)
    requires
        spelled(d, p, member_tokens(m)),
        member_fact(section, m) is Some,
        value_ends(d, spelled_end(d, p, member_tokens(m))),
    ensures
        ({
            let s = after_ws(d, p);
            &&& p <= s < d.len()
            &&& d[s] == QUOTE
            &&& member(section, key_at(d, s), d, after_key(d, s), r) == Some(
                (apply(member_fact(section, m).unwrap(), r), spelled_end(d, p, member_tokens(m))),
            )
        }),
{
    lemma_spelled_split(d, p, name_tokens(m.name), value_tokens(m.value));
    lemma_name_read(d, p, m.name);
    let v = spelled_end(d, p, name_tokens(m.name));
    match m.value {
        Value::Token(_) => {
            lemma_token_value_read(section, m, d, v, r);
        },
        Value::Texts(texts) => {
            reveal(noted);
            lemma_array_read(d, v, texts);
        },
    }
}

/// Members are read where they stand.
proof fn lemma_members_read(section: Section, ms: Seq<Member>, d: Seq<u8>, p: int, r: DraftView)
    requires
        spelled(d, p, members_tokens(ms)),
        are_members(section, ms),
    ensures
        object(section, d, p, r) == Some(
            (applied(members_facts(section, ms), r), spelled_end(d, p, members_tokens(ms))),
        ),
    decreases ms.len(),
{
    let s = after_ws(d, p);
    let close = seq![CLOSE_BRACE];
    let facts = members_facts(section, ms);
    lemma_run_end(d, p, ByteClass::Whitespace);
    if ms.len() == 0 {
        lemma_spelled_one(d, p, close);
        lemma_token_byte(d, s, close, 0);
        assert(after_ws(d, s) == s);
    } else {
        let m = ms[0];
        let rest = if ms.len() == 1 {
            seq![close]
        } else {
            seq![seq![COMMA]] + members_tokens(ms.skip(1))
        };
        assert(members_tokens(ms) == member_tokens(m) + rest);
        lemma_spelled_split(d, p, member_tokens(m), rest);
        let e = spelled_end(d, p, member_tokens(m));
        let q = after_ws(d, e);
        lemma_run_end(d, e, ByteClass::Whitespace);
        let next = apply(member_fact(section, m).unwrap(), r);
        assert(facts[0] == member_fact(section, m).unwrap());
        assert(facts.skip(1) =~= members_facts(section, ms.skip(1)));
        if ms.len() == 1 {
            assert(rest =~= seq![close] + Seq::<Seq<u8>>::empty());
            lemma_value_ends(d, e, CLOSE_BRACE, Seq::empty());
            lemma_member_read(section, m, d, p, r);
            lemma_spelled_one(d, e, close);
            lemma_token_byte(d, q, close, 0);
            assert(after_ws(d, q) == q);
            assert(applied(facts, r) == applied(facts.skip(1), next));
            assert(applied(facts.skip(1), next) == next);
            assert(members(section, d, p, r) == Some((next, q)));
        } else {
            lemma_value_ends(d, e, COMMA, members_tokens(ms.skip(1)));
            lemma_member_read(section, m, d, p, r);
            lemma_spelled_first(d, e, seq![COMMA], members_tokens(ms.skip(1)));
            lemma_token_byte(d, q, seq![COMMA], 0);
            lemma_members_read(section, ms.skip(1), d, q + 1, next);
            assert(members(section, d, p, r) == members(section, d, q + 1, next));
        }
    }
}

/// One fact is applied alone.
proof fn lemma_applied_one(f: Fact, r: DraftView)
    ensures
        applied(seq![f], r) == apply(f, r),
{
    assert(seq![f].skip(1) =~= Seq::<Fact>::empty());
    reveal_with_fuel(applied, 2);
}

/// The word that stands for no last transaction is read where it stands.
proof fn lemma_null_read(d: Seq<u8>, p: int, r: DraftView)
    requires
        spelled(d, p, body_tokens(Body::Null)),
    ensures
        part(Section::LastTransaction, d, p, r) == Some(
            (apply(Fact::HasLast(false), r), spelled_end(d, p, body_tokens(Body::Null))),
        ),
{
    reveal(noted);
    reveal_strlit("null");
    assert(is_ascii("null"));
    let null = "null".spec_bytes();
    let s = after_ws(d, p);
    lemma_spelled_one(d, p, null);
    lemma_token_byte(d, s, null, 0);
    assert(after_byte(d, s, COLON) == s);
    assert(after_ws(d, s) == s);
    assert(apply(Fact::HasLast(false), r) =~= with_last(r, false));
}

/// The last transaction is read where it stands.
proof fn lemma_last_read(ms: Seq<Member>, d: Seq<u8>, p: int, r: DraftView)
    requires
        spelled(d, p, body_tokens(Body::Members(ms))),
        are_members(Section::LastTransaction, ms),
    ensures
        part(Section::LastTransaction, d, p, r) == Some(
            (
                applied(
                    members_facts(Section::LastTransaction, ms),
                    apply(Fact::HasLast(true), r),
                ),
                spelled_end(d, p, body_tokens(Body::Members(ms))),
            ),
        ),
{
    reveal(noted);
    reveal_strlit("null");
    assert(is_ascii("null"));
    let null = "null".spec_bytes();
    let open = seq![OPEN_BRACE];
    let s = after_ws(d, p);
    lemma_spelled_first(d, p, open, members_tokens(ms));
    lemma_token_byte(d, s, open, 0);
    if stands_at(d, s, null) {
        lemma_token_byte(d, s, null, 0);
    }
    assert(after_byte(d, s, COLON) == s);
    assert(after_ws(d, s) == s);
    let started = with_last(r, true);
    assert(apply(Fact::HasLast(true), r) =~= started);
    lemma_members_read(Section::LastTransaction, ms, d, s + 1, started);
}

/// A part with members, other than the last transaction, is read where it
/// stands.
#[verifier::rlimit(50)]
proof fn lemma_object_read(section: Section, ms: Seq<Member>, d: Seq<u8>, p: int, r: DraftView)
    requires
        !(section is Id || section is Unknown || section is LastTransaction),
        spelled(d, p, body_tokens(Body::Members(ms))),
        are_members(section, ms),
    ensures
        part(section, d, p, r) == Some(
            (
                applied(members_facts(section, ms), r),
                spelled_end(d, p, body_tokens(Body::Members(ms))),
            ),
        ),
{
    let open = seq![OPEN_BRACE];
    let s = after_ws(d, p);
    lemma_spelled_first(d, p, open, members_tokens(ms));
    lemma_token_byte(d, s, open, 0);
    assert(after_byte(d, s, OPEN_BRACE) == s + 1);
    lemma_members_read(section, ms, d, s + 1, r);
    assert(part(section, d, p, r) == object(section, d, s + 1, r));
}

/// The value of a part is read where it stands.
proof fn lemma_body_read(pt: Part, d: Seq<u8>, p: int, r: DraftView)
    requires
        spelled(d, p, body_tokens(pt.body)),
        is_part(pt),
    ensures
        part(part_section(pt), d, p, r) == Some(
            (applied(part_facts(pt), r), spelled_end(d, p, body_tokens(pt.body))),
        ),
{
    let section = part_section(pt);
    match pt.body {
        Body::Text(t) => {
            reveal(noted);
            lemma_spelled_one(d, p, t);
            lemma_text_read(d, p, t);
            lemma_applied_one(Fact::Id(string_at(t, 0)), r);
        },
        Body::Null => {
            lemma_null_read(d, p, r);
            lemma_applied_one(Fact::HasLast(false), r);
        },
        Body::Members(ms) => {
            if section is LastTransaction {
                let facts = members_facts(section, ms);
                lemma_last_read(ms, d, p, r);
                lemma_applied_split(seq![Fact::HasLast(true)], facts, r);
                lemma_applied_one(Fact::HasLast(true), r);
            } else {
                lemma_object_read(section, ms, d, p, r);
            }
        },
    }
}

/// Parts are read where they stand.
#[verifier::rlimit(50)]
proof fn lemma_parts_read(ps: Seq<Part>, d: Seq<u8>, p: int, r: DraftView)
    requires
        spelled(d, p, parts_tokens(ps)),
        is_document(ps),
    ensures
        parts(d, p, r) == Some(applied(document_facts(ps), r)),
    decreases ps.len(),
{
    let s = after_ws(d, p);
    let close = seq![CLOSE_BRACE];
    lemma_run_end(d, p, ByteClass::Whitespace);
    if ps.len() == 0 {
        lemma_spelled_one(d, p, close);
        lemma_token_byte(d, s, close, 0);
    } else {
        let pt = ps[0];
        let rest = if ps.len() == 1 {
            seq![close]
        } else {
            seq![seq![COMMA]] + parts_tokens(ps.skip(1))
        };
        assert(parts_tokens(ps) == part_tokens(pt) + rest);
        lemma_spelled_split(d, p, part_tokens(pt), rest);
        lemma_spelled_split(d, p, name_tokens(pt.name), body_tokens(pt.body));
        lemma_name_read(d, p, pt.name);
        lemma_body_read(pt, d, after_key(d, s), r);
        let e = spelled_end(d, p, part_tokens(pt));
        let q = after_ws(d, e);
        let next = applied(part_facts(pt), r);
        lemma_run_end(d, e, ByteClass::Whitespace);
        lemma_applied_split(part_facts(pt), document_facts(ps.skip(1)), r);
        if ps.len() == 1 {
            lemma_spelled_one(d, e, close);
            lemma_token_byte(d, q, close, 0);
            assert(document_facts(ps.skip(1)) == Seq::<Fact>::empty());
            assert(applied(document_facts(ps.skip(1)), next) == next);
        } else {
            lemma_spelled_first(d, e, seq![COMMA], parts_tokens(ps.skip(1)));
            lemma_token_byte(d, q, seq![COMMA], 0);
            lemma_parts_read(ps.skip(1), d, q + 1, next);
        }
    }
}

/// A document is read as what its parts and members say, one after the other.
/// The whitespace between its tokens plays no part, nor does what follows it.
pub proof fn law_document_is_read(d: Seq<u8>, ps: Seq<Part>)
    requires
        is_document(ps),
        spelled(d, 0, document_tokens(ps)),
    ensures
        transaction(d) == Some(finished(applied(document_facts(ps), blank_draft()))),
{
    let open = seq![OPEN_BRACE];
    lemma_spelled_first(d, 0, open, parts_tokens(ps));
    lemma_token_byte(d, after_ws(d, 0), open, 0);
    lemma_parts_read(ps, d, after_ws(d, 0) + 1, blank_draft());
}

/// Whether no two facts are about the same thing.
pub open spec fn are_apart(facts: Seq<Fact>) -> bool {
    forall|i: int, j: int|
        0 <= i < j < facts.len() ==> subject(#[trigger] facts[i]) != subject(#[trigger] facts[j])
}

/// A fact changes what it is about and nothing else, and leaves there what does
/// not depend on anything else.
pub proof fn lemma_noted(f: Fact, a: TransactionView, b: TransactionView)
    ensures
        subject(f) != 0 ==> noted(f, a).id == a.id,
        subject(f) != 1 ==> noted(f, a).amount == a.amount,
        subject(f) != 2 ==> noted(f, a).installments == a.installments,
        subject(f) != 3 ==> noted(f, a).hour == a.hour,
        subject(f) != 3 ==> noted(f, a).weekday == a.weekday,
        subject(f) != 4 ==> noted(f, a).customer_avg_amount == a.customer_avg_amount,
        subject(f) != 5 ==> noted(f, a).tx_count_24h == a.tx_count_24h,
        subject(f) != 7 ==> noted(f, a).merchant_id_hash == a.merchant_id_hash,
        subject(f) != 8 ==> noted(f, a).mcc == a.mcc,
        subject(f) != 9 ==> noted(f, a).merchant_avg_amount == a.merchant_avg_amount,
        subject(f) != 10 ==> noted(f, a).is_online == a.is_online,
        subject(f) != 11 ==> noted(f, a).card_present == a.card_present,
        subject(f) != 12 ==> noted(f, a).km_from_home == a.km_from_home,
        subject(f) != 13 ==> noted(f, a).has_last_tx == a.has_last_tx,
        subject(f) != 15 ==> noted(f, a).km_from_last_tx == a.km_from_last_tx,
        subject(f) != 6 ==> noted(f, a).known_merchants == a.known_merchants,
        subject(f) != 6 ==> noted(f, a).known_merchant_count == a.known_merchant_count,
        a.id == b.id && subject(f) == 0 ==> noted(f, a).id == noted(f, b).id,
        subject(f) == 1 ==> noted(f, a).amount == noted(f, b).amount,
        subject(f) == 2 ==> noted(f, a).installments == noted(f, b).installments,
        subject(f) == 3 ==> noted(f, a).hour == noted(f, b).hour,
        subject(f) == 3 ==> noted(f, a).weekday == noted(f, b).weekday,
        subject(f) == 4 ==> noted(f, a).customer_avg_amount == noted(f, b).customer_avg_amount,
        subject(f) == 5 ==> noted(f, a).tx_count_24h == noted(f, b).tx_count_24h,
        subject(f) == 7 ==> noted(f, a).merchant_id_hash == noted(f, b).merchant_id_hash,
        subject(f) == 8 ==> noted(f, a).mcc == noted(f, b).mcc,
        subject(f) == 9 ==> noted(f, a).merchant_avg_amount == noted(f, b).merchant_avg_amount,
        subject(f) == 10 ==> noted(f, a).is_online == noted(f, b).is_online,
        subject(f) == 11 ==> noted(f, a).card_present == noted(f, b).card_present,
        subject(f) == 12 ==> noted(f, a).km_from_home == noted(f, b).km_from_home,
        subject(f) == 13 ==> noted(f, a).has_last_tx == noted(f, b).has_last_tx,
        subject(f) == 15 ==> noted(f, a).km_from_last_tx == noted(f, b).km_from_last_tx,
        a.known_merchants == b.known_merchants && subject(f) == 6 ==> noted(f, a).known_merchants
            == noted(f, b).known_merchants && noted(f, a).known_merchant_count == noted(
            f,
            b,
        ).known_merchant_count,
        noted(f, a).last_tx_minutes == a.last_tx_minutes,
{
    reveal(noted);
}

/// Facts about different things may be applied in either order.
proof fn lemma_apply_swap(f: Fact, g: Fact, r: DraftView)
    requires
        subject(f) != subject(g),
    ensures
        apply(f, apply(g, r)) == apply(g, apply(f, r)),
{
    let after_f = noted(f, r.tx);
    let after_g = noted(g, r.tx);
    lemma_noted(f, r.tx, after_g);
    lemma_noted(g, r.tx, after_f);
    lemma_noted(f, after_g, r.tx);
    lemma_noted(g, after_f, r.tx);
    assert(noted(f, after_g) =~= noted(g, after_f));
    assert(apply(f, apply(g, r)) =~= apply(g, apply(f, r)));
}

/// A fact may be applied first, if the facts before it are about other things.
pub proof fn lemma_apply_first(x: Seq<Fact>, f: Fact, r: DraftView)
    requires
        forall|i: int| 0 <= i < x.len() ==> subject(#[trigger] x[i]) != subject(f),
    ensures
        apply(f, applied(x, r)) == applied(x, apply(f, r)),
    decreases x.len(),
{
    if x.len() > 0 {
        assert forall|i: int| 0 <= i < x.skip(1).len() implies subject(#[trigger] x.skip(1)[i])
            != subject(f) by {
            assert(x.skip(1)[i] == x[i + 1]);
        }
        lemma_apply_first(x.skip(1), f, apply(x[0], r));
        lemma_apply_swap(f, x[0], r);
    }
}

/// Two sequences with the same items, and the first item of the one: the rest
/// of the one has the same items as the other without that item.
proof fn lemma_same_items<A>(a: Seq<A>, b: Seq<A>) -> (i: int)
    requires
        a.len() > 0,
        a.to_multiset() == b.to_multiset(),
    ensures
        0 <= i < b.len(),
        b[i] == a[0],
        a.skip(1).to_multiset() == b.remove(i).to_multiset(),
{
    assert(a.contains(a[0]));
    to_multiset_contains(a, a[0]);
    to_multiset_contains(b, a[0]);
    let i = choose|i: int| 0 <= i < b.len() && b[i] == a[0];
    assert(a.remove(0) =~= a.skip(1));
    to_multiset_remove(a, 0);
    to_multiset_remove(b, i);
    i
}

/// Facts about different things may be applied in any order.
proof fn lemma_applied_order(a: Seq<Fact>, b: Seq<Fact>, r: DraftView)
    requires
        are_apart(a),
        a.to_multiset() == b.to_multiset(),
    ensures
        applied(a, r) == applied(b, r),
    decreases a.len(),
{
    to_multiset_len(a);
    to_multiset_len(b);
    if a.len() > 0 {
        let f = a[0];
        let rest = a.skip(1);
        let i = lemma_same_items(a, b);
        let x = b.take(i);
        let y = b.skip(i + 1);
        assert(b =~= x + (seq![f] + y));
        assert(b.remove(i) =~= x + y);
        assert forall|k: int| 0 <= k < x.len() implies subject(#[trigger] x[k]) != subject(f) by {
            assert((x + y)[k] == x[k]);
            assert((x + y).contains(x[k]));
            to_multiset_contains(x + y, x[k]);
            to_multiset_contains(rest, x[k]);
            let j = choose|j: int| 0 <= j < rest.len() && rest[j] == x[k];
            assert(a[j + 1] == x[k]);
        }
        assert forall|j: int, k: int| 0 <= j < k < rest.len() implies subject(#[trigger] rest[j])
            != subject(#[trigger] rest[k]) by {
            assert(rest[j] == a[j + 1] && rest[k] == a[k + 1]);
        }
        lemma_applied_order(rest, x + y, apply(f, r));
        lemma_applied_split(x, y, apply(f, r));
        lemma_apply_first(x, f, r);
        lemma_applied_split(x, seq![f] + y, r);
        assert((seq![f] + y).skip(1) =~= y);
    }
}

/// Whether two parts differ in the order of their members at most.
pub open spec fn same_members(a: Part, b: Part) -> bool {
    a.name == b.name && match (a.body, b.body) {
        (Body::Members(x), Body::Members(y)) => x.to_multiset() == y.to_multiset(),
        _ => a.body == b.body,
    }
}

/// Whether two documents differ in the order of their parts, and of the members
/// in their parts, at most.
pub open spec fn same_parts(a: Seq<Part>, b: Seq<Part>) -> bool {
    exists|c: Seq<Part>| #[trigger] are_reordered(a, c) && have_same_members(c, b)
}

/// Whether two documents differ in the order of their parts at most.
pub open spec fn are_reordered(a: Seq<Part>, b: Seq<Part>) -> bool {
    a.to_multiset() == b.to_multiset()
}

/// Whether two documents differ in the order of the members of their parts at
/// most.
pub open spec fn have_same_members(a: Seq<Part>, b: Seq<Part>) -> bool {
    &&& a.len() == b.len()
    &&& forall|i: int| 0 <= i < a.len() ==> same_members(#[trigger] a[i], b[i])
}

/// The order of members changes neither whether they say something nor what
/// they say.
proof fn lemma_members_order(section: Section, x: Seq<Member>, y: Seq<Member>)
    requires
        x.to_multiset() == y.to_multiset(),
    ensures
        members_facts(section, x).to_multiset() == members_facts(section, y).to_multiset(),
        are_members(section, x) ==> are_members(section, y),
    decreases x.len(),
{
    broadcast use vstd::multiset::group_multiset_axioms;

    to_multiset_len(x);
    to_multiset_len(y);
    let fx = members_facts(section, x);
    let fy = members_facts(section, y);
    if x.len() == 0 {
        assert(fx =~= fy);
    } else {
        let i = lemma_same_items(x, y);
        lemma_members_order(section, x.skip(1), y.remove(i));
        assert(fx.remove(0) =~= members_facts(section, x.skip(1)));
        assert(fy.remove(i) =~= members_facts(section, y.remove(i)));
        to_multiset_remove(fx, 0);
        to_multiset_remove(fy, i);
        assert(fx.contains(fx[0]) && fy.contains(fy[i]));
        to_multiset_contains(fx, fx[0]);
        to_multiset_contains(fy, fy[i]);
        assert(fx[0] == fy[i]);
        assert(fx.to_multiset() =~= fx.to_multiset().remove(fx[0]).insert(fx[0]));
        assert(fy.to_multiset() =~= fy.to_multiset().remove(fy[i]).insert(fy[i]));
    }
    if are_members(section, x) {
        assert forall|k: int| 0 <= k < y.len() implies member_fact(
            section,
            #[trigger] y[k],
        ) is Some by {
            assert(y.contains(y[k]));
            to_multiset_contains(y, y[k]);
            to_multiset_contains(x, y[k]);
            let j = choose|j: int| 0 <= j < x.len() && x[j] == y[k];
            assert(member_fact(section, x[j]) is Some);
        }
    }
}

/// The order of members changes neither whether a part may stand in a document
/// nor what it says.
proof fn lemma_part_order(a: Part, b: Part)
    requires
        same_members(a, b),
    ensures
        part_facts(a).to_multiset() == part_facts(b).to_multiset(),
        is_part(a) ==> is_part(b),
{
    match (a.body, b.body) {
        (Body::Members(x), Body::Members(y)) => {
            let section = part_section(a);
            lemma_members_order(section, x, y);
            if section is LastTransaction {
                let first = seq![Fact::HasLast(true)];
                vstd::seq_lib::lemma_multiset_commutative(first, members_facts(section, x));
                vstd::seq_lib::lemma_multiset_commutative(first, members_facts(section, y));
            }
        },
        _ => {},
    }
}

/// What a document says is what one part says and what the others say.
proof fn lemma_document_remove(ps: Seq<Part>, i: int)
    requires
        0 <= i < ps.len(),
    ensures
        document_facts(ps).to_multiset() == part_facts(ps[i]).to_multiset().add(
            document_facts(ps.remove(i)).to_multiset(),
        ),
    decreases ps.len(),
{
    broadcast use vstd::multiset::group_multiset_axioms;

    vstd::seq_lib::lemma_multiset_commutative(part_facts(ps[0]), document_facts(ps.skip(1)));
    if i == 0 {
        assert(ps.remove(0) =~= ps.skip(1));
    } else {
        let rest = ps.remove(i);
        lemma_document_remove(ps.skip(1), i - 1);
        assert(ps.skip(1).remove(i - 1) =~= rest.skip(1));
        vstd::seq_lib::lemma_multiset_commutative(part_facts(rest[0]), document_facts(rest.skip(1)));
        assert(document_facts(ps).to_multiset() =~= part_facts(ps[i]).to_multiset().add(
            document_facts(rest).to_multiset(),
        ));
    }
}

/// The order of parts changes neither whether they are a document nor what it
/// says.
proof fn lemma_parts_order(a: Seq<Part>, b: Seq<Part>)
    requires
        are_reordered(a, b),
    ensures
        document_facts(a).to_multiset() == document_facts(b).to_multiset(),
        is_document(a) ==> is_document(b),
    decreases a.len(),
{
    to_multiset_len(a);
    to_multiset_len(b);
    if a.len() > 0 {
        let i = lemma_same_items(a, b);
        lemma_parts_order(a.skip(1), b.remove(i));
        assert(a.remove(0) =~= a.skip(1));
        lemma_document_remove(a, 0);
        lemma_document_remove(b, i);
    }
    if is_document(a) {
        assert forall|k: int| 0 <= k < b.len() implies is_part(#[trigger] b[k]) by {
            assert(b.contains(b[k]));
            to_multiset_contains(b, b[k]);
            to_multiset_contains(a, b[k]);
            let j = choose|j: int| 0 <= j < a.len() && a[j] == b[k];
            assert(is_part(a[j]));
        }
    }
}

/// The order of the members in the parts changes neither whether they are a
/// document nor what it says.
proof fn lemma_inner_order(a: Seq<Part>, b: Seq<Part>)
    requires
        have_same_members(a, b),
    ensures
        document_facts(a).to_multiset() == document_facts(b).to_multiset(),
        is_document(a) ==> is_document(b),
    decreases a.len(),
{
    if a.len() > 0 {
        assert(same_members(a[0], b[0]));
        assert forall|i: int| 0 <= i < a.skip(1).len() implies same_members(
            #[trigger] a.skip(1)[i],
            b.skip(1)[i],
        ) by {
            assert(same_members(a[i + 1], b[i + 1]));
        }
        lemma_inner_order(a.skip(1), b.skip(1));
        lemma_part_order(a[0], b[0]);
        vstd::seq_lib::lemma_multiset_commutative(part_facts(a[0]), document_facts(a.skip(1)));
        vstd::seq_lib::lemma_multiset_commutative(part_facts(b[0]), document_facts(b.skip(1)));
    }
    if is_document(a) {
        assert forall|k: int| 0 <= k < b.len() implies is_part(#[trigger] b[k]) by {
            assert(same_members(a[k], b[k]));
            lemma_part_order(a[k], b[k]);
        }
    }
}

/// A document that says everything once at most reads the same in any order of
/// its parts and of the members in them, and with any whitespace between its
/// tokens.
pub proof fn law_order_and_spacing(d1: Seq<u8>, a: Seq<Part>, d2: Seq<u8>, b: Seq<Part>)
    requires
        is_document(a),
        are_apart(document_facts(a)),
        same_parts(a, b),
        spelled(d1, 0, document_tokens(a)),
        spelled(d2, 0, document_tokens(b)),
    ensures
        transaction(d1) is Some,
        transaction(d1) == transaction(d2),
{
    let c = choose|c: Seq<Part>| #[trigger] are_reordered(a, c) && have_same_members(c, b);
    lemma_parts_order(a, c);
    lemma_inner_order(c, b);
    law_document_is_read(d1, a);
    law_document_is_read(d2, b);
    lemma_applied_order(document_facts(a), document_facts(b), blank_draft());
}

} // verus!
