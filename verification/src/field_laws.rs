//! Which member of a document gives which field of the transaction.

use crate::document_laws::{applied, apply, are_apart, are_members, are_texts, document_facts,
    document_tokens, hashes_of, is_document, is_part, law_document_is_read, lemma_applied_split,
    lemma_apply_first, lemma_noted, member_fact, members_facts, noted, part_facts, part_section,
    subject, Body, Fact, Member, Part, Value};
use crate::json_parser::{blank_draft, finished, id_suffix, section_of, transaction, DraftView,
    Section};
use crate::json_values::{category_at, hash_of, hour_at, integer_at, minutes_between, moment_at,
    string_at, weekday_at};
use crate::number::whole;
use crate::spelling::{is_integer, is_number, is_text, is_timestamp, is_truth, number_of, spelled};
use vstd::prelude::*;
use vstd::string::*;

verus! {

/// The name of a part, without its quotes.
pub open spec fn part_name(pt: Part) -> Seq<u8> {
    string_at(pt.name, 0)
}

/// The name of a member, without its quotes.
pub open spec fn member_name(m: Member) -> Seq<u8> {
    string_at(m.name, 0)
}

/// The parts of a document have six names.
pub proof fn law_part_names()
    ensures
        section_of("id".spec_bytes()) is Id,
        section_of("transaction".spec_bytes()) is Transaction,
        section_of("customer".spec_bytes()) is Customer,
        section_of("merchant".spec_bytes()) is Merchant,
        section_of("terminal".spec_bytes()) is Terminal,
        section_of("last_transaction".spec_bytes()) is LastTransaction,
        forall|name: Seq<u8>|
            name != "id".spec_bytes() && name != "transaction".spec_bytes() && name
                != "customer".spec_bytes() && name != "merchant".spec_bytes() && name
                != "terminal".spec_bytes() && name != "last_transaction".spec_bytes()
                ==> #[trigger] section_of(name) is Unknown,
{
    reveal_strlit("id");
    reveal_strlit("transaction");
    reveal_strlit("customer");
    reveal_strlit("merchant");
    reveal_strlit("terminal");
    reveal_strlit("last_transaction");
    assert(is_ascii("id"));
    assert(is_ascii("transaction"));
    assert(is_ascii("customer"));
    assert(is_ascii("merchant"));
    assert(is_ascii("terminal"));
    assert(is_ascii("last_transaction"));
    assert("customer".spec_bytes()[0] != "merchant".spec_bytes()[0]);
    assert("customer".spec_bytes()[0] != "terminal".spec_bytes()[0]);
    assert("merchant".spec_bytes()[0] != "terminal".spec_bytes()[0]);
}

/// What members of the part "transaction" say.
proof fn lemma_transaction_facts(m: Member, t: Seq<u8>)
    requires
        is_text(m.name),
        m.value == Value::Token(t),
    ensures
        member_name(m) == "amount".spec_bytes() && is_number(t) ==> member_fact(
            Section::Transaction,
            m,
        ) == Some(Fact::Amount(number_of(t))),
        member_name(m) == "installments".spec_bytes() && is_integer(t) ==> member_fact(
            Section::Transaction,
            m,
        ) == Some(Fact::Installments((integer_at(t, 0) % 256) as u8)),
        member_name(m) == "requested_at".spec_bytes() && is_timestamp(t) ==> member_fact(
            Section::Transaction,
            m,
        ) == Some(
            Fact::RequestedAt(hour_at(t, 0) as u8, weekday_at(t, 0) as u8, moment_at(t, 0)),
        ),
{
    reveal_strlit("amount");
    reveal_strlit("installments");
    reveal_strlit("requested_at");
    assert(is_ascii("amount"));
    assert(is_ascii("installments"));
    assert(is_ascii("requested_at"));
    assert("installments".spec_bytes()[0] != "requested_at".spec_bytes()[0]);
}

/// What members of the part "customer" say.
proof fn lemma_customer_facts(m: Member, t: Seq<u8>, texts: Seq<Seq<u8>>)
    requires
        is_text(m.name),
    ensures
        member_name(m) == "avg_amount".spec_bytes() && m.value == Value::Token(t) && is_number(t)
            ==> member_fact(Section::Customer, m) == Some(Fact::CustomerAverage(number_of(t))),
        member_name(m) == "tx_count_24h".spec_bytes() && m.value == Value::Token(t) && is_integer(t)
            ==> member_fact(Section::Customer, m) == Some(
            Fact::TxCount((integer_at(t, 0) % 256) as u8),
        ),
        member_name(m) == "known_merchants".spec_bytes() && m.value == Value::Texts(texts)
            && are_texts(texts) ==> member_fact(Section::Customer, m) == Some(
            Fact::KnownMerchants(hashes_of(texts)),
        ),
{
    reveal_strlit("avg_amount");
    reveal_strlit("tx_count_24h");
    reveal_strlit("known_merchants");
    assert(is_ascii("avg_amount"));
    assert(is_ascii("tx_count_24h"));
    assert(is_ascii("known_merchants"));
}

/// What members of the part "merchant" say.
proof fn lemma_merchant_facts(m: Member, t: Seq<u8>)
    requires
        is_text(m.name),
        m.value == Value::Token(t),
    ensures
        member_name(m) == "id".spec_bytes() && is_text(t) ==> member_fact(Section::Merchant, m)
            == Some(Fact::MerchantId(hash_of(string_at(t, 0)) as u32)),
        member_name(m) == "mcc".spec_bytes() && (is_integer(t) || is_text(t)) ==> member_fact(
            Section::Merchant,
            m,
        ) == Some(Fact::Mcc((category_at(t, 0) % 65_536) as u16)),
        member_name(m) == "avg_amount".spec_bytes() && is_number(t) ==> member_fact(
            Section::Merchant,
            m,
        ) == Some(Fact::MerchantAverage(number_of(t))),
{
    reveal_strlit("id");
    reveal_strlit("mcc");
    reveal_strlit("avg_amount");
    assert(is_ascii("id"));
    assert(is_ascii("mcc"));
    assert(is_ascii("avg_amount"));
}

/// What members of the part "terminal" say.
proof fn lemma_terminal_facts(m: Member, t: Seq<u8>)
    requires
        is_text(m.name),
        m.value == Value::Token(t),
    ensures
        member_name(m) == "is_online".spec_bytes() && is_truth(t) ==> member_fact(
            Section::Terminal,
            m,
        ) == Some(Fact::IsOnline(t == "true".spec_bytes())),
        member_name(m) == "card_present".spec_bytes() && is_truth(t) ==> member_fact(
            Section::Terminal,
            m,
        ) == Some(Fact::CardPresent(t == "true".spec_bytes())),
        member_name(m) == "km_from_home".spec_bytes() && is_number(t) ==> member_fact(
            Section::Terminal,
            m,
        ) == Some(Fact::KmFromHome(number_of(t))),
{
    reveal_strlit("is_online");
    reveal_strlit("card_present");
    reveal_strlit("km_from_home");
    assert(is_ascii("is_online"));
    assert(is_ascii("card_present"));
    assert(is_ascii("km_from_home"));
    assert("card_present".spec_bytes()[0] != "km_from_home".spec_bytes()[0]);
}

/// What members of the part "last_transaction" say.
proof fn lemma_last_facts(m: Member, t: Seq<u8>)
    requires
        is_text(m.name),
        m.value == Value::Token(t),
    ensures
        member_name(m) == "timestamp".spec_bytes() && is_timestamp(t) ==> member_fact(
            Section::LastTransaction,
            m,
        ) == Some(Fact::LastAt(moment_at(t, 0))),
        member_name(m) == "km_from_current".spec_bytes() && is_number(t) ==> member_fact(
            Section::LastTransaction,
            m,
        ) == Some(Fact::KmFromLast(number_of(t))),
{
    reveal_strlit("timestamp");
    reveal_strlit("km_from_current");
    assert(is_ascii("timestamp"));
    assert(is_ascii("km_from_current"));
}

/// A document may have every part and member by its name, with a value of the
/// kind that belongs to it: numerals for amounts and distances, digits for
/// counts, texts in quotes for names, timestamps for moments, and so on.
pub proof fn law_members_are_accepted(m: Member, t: Seq<u8>, texts: Seq<Seq<u8>>)
    requires
        is_text(m.name),
    ensures
        ({
            let name = member_name(m);
            let token = m.value == Value::Token(t);
            &&& token && is_number(t) && name == "amount".spec_bytes() ==> member_fact(
                Section::Transaction,
                m,
            ) is Some
            &&& token && is_integer(t) && name == "installments".spec_bytes() ==> member_fact(
                Section::Transaction,
                m,
            ) is Some
            &&& token && is_timestamp(t) && name == "requested_at".spec_bytes() ==> member_fact(
                Section::Transaction,
                m,
            ) is Some
            &&& token && is_number(t) && name == "avg_amount".spec_bytes() ==> member_fact(
                Section::Customer,
                m,
            ) is Some && member_fact(Section::Merchant, m) is Some
            &&& token && is_integer(t) && name == "tx_count_24h".spec_bytes() ==> member_fact(
                Section::Customer,
                m,
            ) is Some
            &&& m.value == Value::Texts(texts) && are_texts(texts) && name
                == "known_merchants".spec_bytes() ==> member_fact(Section::Customer, m) is Some
            &&& token && is_text(t) && name == "id".spec_bytes() ==> member_fact(
                Section::Merchant,
                m,
            ) is Some
            &&& token && (is_integer(t) || is_text(t)) && name == "mcc".spec_bytes()
                ==> member_fact(Section::Merchant, m) is Some
            &&& token && is_truth(t) && name == "is_online".spec_bytes() ==> member_fact(
                Section::Terminal,
                m,
            ) is Some
            &&& token && is_truth(t) && name == "card_present".spec_bytes() ==> member_fact(
                Section::Terminal,
                m,
            ) is Some
            &&& token && is_number(t) && name == "km_from_home".spec_bytes() ==> member_fact(
                Section::Terminal,
                m,
            ) is Some
            &&& token && is_timestamp(t) && name == "timestamp".spec_bytes() ==> member_fact(
                Section::LastTransaction,
                m,
            ) is Some
            &&& token && is_number(t) && name == "km_from_current".spec_bytes() ==> member_fact(
                Section::LastTransaction,
                m,
            ) is Some
        }),
{
    lemma_customer_facts(m, t, texts);
    if m.value == Value::Token(t) {
        lemma_transaction_facts(m, t);
        lemma_merchant_facts(m, t);
        lemma_terminal_facts(m, t);
        lemma_last_facts(m, t);
    }
}

/// A document may have each of its six parts: a text as id, members that say
/// something in the others, and no last transaction.
pub proof fn law_parts_are_accepted(pt: Part, t: Seq<u8>, ms: Seq<Member>)
    requires
        is_text(pt.name),
    ensures
        part_name(pt) == "id".spec_bytes() && pt.body == Body::Text(t) && is_text(t) ==> is_part(
            pt,
        ),
        part_name(pt) == "last_transaction".spec_bytes() && pt.body is Null ==> is_part(pt),
        pt.body == Body::Members(ms) ==> {
            let name = part_name(pt);
            &&& name == "transaction".spec_bytes() && are_members(Section::Transaction, ms)
                ==> is_part(pt)
            &&& name == "customer".spec_bytes() && are_members(Section::Customer, ms) ==> is_part(
                pt,
            )
            &&& name == "merchant".spec_bytes() && are_members(Section::Merchant, ms) ==> is_part(
                pt,
            )
            &&& name == "terminal".spec_bytes() && are_members(Section::Terminal, ms) ==> is_part(
                pt,
            )
            &&& name == "last_transaction".spec_bytes() && are_members(
                Section::LastTransaction,
                ms,
            ) ==> is_part(pt)
        },
{
    law_part_names();
}

/// Two facts are about the same thing only where they are of the same kind.
pub proof fn law_subjects(f: Fact, g: Fact)
    requires
        subject(f) == subject(g),
    ensures
        f is Id <==> g is Id,
        f is Amount <==> g is Amount,
        f is Installments <==> g is Installments,
        f is RequestedAt <==> g is RequestedAt,
        f is CustomerAverage <==> g is CustomerAverage,
        f is TxCount <==> g is TxCount,
        f is KnownMerchants <==> g is KnownMerchants,
        f is MerchantId <==> g is MerchantId,
        f is Mcc <==> g is Mcc,
        f is MerchantAverage <==> g is MerchantAverage,
        f is IsOnline <==> g is IsOnline,
        f is CardPresent <==> g is CardPresent,
        f is KmFromHome <==> g is KmFromHome,
        f is HasLast <==> g is HasLast,
        f is LastAt <==> g is LastAt,
        f is KmFromLast <==> g is KmFromLast,
{
}

/// What a part says is said by the document.
proof fn lemma_fact_listed(ps: Seq<Part>, i: int, k: int) -> (x: int)
    requires
        0 <= i < ps.len(),
        0 <= k < part_facts(ps[i]).len(),
    ensures
        0 <= x < document_facts(ps).len(),
        document_facts(ps)[x] == part_facts(ps[i])[k],
    decreases i,
{
    let first = part_facts(ps[0]);
    if i == 0 {
        assert(document_facts(ps)[k] == first[k]);
        k
    } else {
        assert(ps.skip(1)[i - 1] == ps[i]);
        let y = lemma_fact_listed(ps.skip(1), i - 1, k);
        assert(document_facts(ps)[first.len() + y] == document_facts(ps.skip(1))[y]);
        first.len() + y
    }
}

/// Of facts about different things, each one may be applied last.
proof fn lemma_applied_last(facts: Seq<Fact>, x: int, r: DraftView) -> (before: DraftView)
    requires
        are_apart(facts),
        0 <= x < facts.len(),
    ensures
        applied(facts, r) == apply(facts[x], before),
        before == applied(facts.take(x) + facts.skip(x + 1), r),
{
    let f = facts[x];
    let a = facts.take(x);
    let b = facts.skip(x + 1);
    assert(facts =~= a + (seq![f] + b));
    lemma_applied_split(a, seq![f] + b, r);
    assert((seq![f] + b).skip(1) =~= b);
    let middle = applied(a, r);
    assert forall|i: int| 0 <= i < b.len() implies subject(#[trigger] b[i]) != subject(f) by {
        assert(b[i] == facts[x + 1 + i]);
    }
    lemma_apply_first(b, f, middle);
    lemma_applied_split(a, b, r);
    applied(b, middle)
}

/// The list of merchants keeps its length.
proof fn lemma_merchants_len(facts: Seq<Fact>, r: DraftView)
    ensures
        applied(facts, r).tx.known_merchants.len() == r.tx.known_merchants.len(),
    decreases facts.len(),
{
    if facts.len() > 0 {
        reveal(noted);
        lemma_merchants_len(facts.skip(1), apply(facts[0], r));
    }
}

/// A document that says a fact, and everything once at most, describes a
/// transaction of which the fact holds.
proof fn lemma_fact_holds(d: Seq<u8>, ps: Seq<Part>, i: int, k: int)
    requires
        is_document(ps),
        are_apart(document_facts(ps)),
        spelled(d, 0, document_tokens(ps)),
        0 <= i < ps.len(),
        0 <= k < part_facts(ps[i]).len(),
    ensures
        transaction(d) is Some,
        exists|before: DraftView|
            before.tx.known_merchants.len() == 32 && transaction(d) == Some(
                finished(#[trigger] apply(part_facts(ps[i])[k], before)),
            ),
        part_facts(ps[i])[k] matches Fact::Id(text) ==> transaction(d).unwrap().id == id_suffix(
            text,
            0,
        ),
{
    law_document_is_read(d, ps);
    let facts = document_facts(ps);
    let x = lemma_fact_listed(ps, i, k);
    let before = lemma_applied_last(facts, x, blank_draft());
    let others = facts.take(x) + facts.skip(x + 1);
    lemma_merchants_len(others, blank_draft());
    assert(transaction(d) == Some(finished(apply(part_facts(ps[i])[k], before))));
    if facts[x] is Id {
        assert forall|j: int| 0 <= j < others.len() implies !(#[trigger] others[j] is Id) by {
            let y = if j < x {
                j
            } else {
                j + 1
            };
            assert(others[j] == facts[y]);
            assert(subject(facts[y]) != subject(facts[x]));
        }
        lemma_id_kept(others, blank_draft());
        reveal(noted);
    }
}

/// Without a fact about it the id stays.
proof fn lemma_id_kept(facts: Seq<Fact>, r: DraftView)
    requires
        forall|j: int| 0 <= j < facts.len() ==> !(#[trigger] facts[j] is Id),
    ensures
        applied(facts, r).tx.id == r.tx.id,
    decreases facts.len(),
{
    if facts.len() > 0 {
        lemma_noted(facts[0], r.tx, r.tx);
        assert(!(facts[0] is Id));
        assert forall|j: int| 0 <= j < facts.skip(1).len() implies !(
        #[trigger] facts.skip(1)[j] is Id) by {
            assert(facts.skip(1)[j] == facts[j + 1]);
        }
        lemma_id_kept(facts.skip(1), apply(facts[0], r));
    }
}

/// A member of a part is a fact of the part.
proof fn lemma_member_listed(pt: Part, ms: Seq<Member>, j: int) -> (k: int)
    requires
        is_part(pt),
        pt.body == Body::Members(ms),
        0 <= j < ms.len(),
    ensures
        0 <= k < part_facts(pt).len(),
        member_fact(part_section(pt), ms[j]) is Some,
        part_facts(pt)[k] == member_fact(part_section(pt), ms[j]).unwrap(),
        is_text(ms[j].name),
{
    let section = part_section(pt);
    assert(are_members(section, ms));
    assert(member_fact(section, ms[j]) is Some);
    let facts = members_facts(section, ms);
    assert(facts[j] == member_fact(section, ms[j]).unwrap());
    if section is LastTransaction {
        assert(part_facts(pt)[j + 1] == facts[j]);
        j + 1
    } else {
        j
    }
}

/// What a document that says everything once at most gives the transaction,
/// member by member, wherever the member stands: amounts, averages and distances
/// as numerals, counts as numbers, the hour and the weekday of the request,
/// hashes of names, and flags.
pub proof fn law_members_are_read(
    d: Seq<u8>,
    ps: Seq<Part>,
    i: int,
    ms: Seq<Member>,
    j: int,
    t: Seq<u8>,
)
    requires
        is_document(ps),
        are_apart(document_facts(ps)),
        spelled(d, 0, document_tokens(ps)),
        0 <= i < ps.len(),
        ps[i].body == Body::Members(ms),
        0 <= j < ms.len(),
        ms[j].value == Value::Token(t),
    ensures
        transaction(d) is Some,
        ({
            let tx = transaction(d).unwrap();
            let part = part_name(ps[i]);
            let name = member_name(ms[j]);
            &&& part == "transaction".spec_bytes() ==> {
                &&& name == "amount".spec_bytes() && is_number(t) ==> tx.amount == number_of(t)
                &&& name == "installments".spec_bytes() && is_integer(t) ==> tx.installments
                    == integer_at(t, 0) % 256
                &&& name == "requested_at".spec_bytes() && is_timestamp(t) ==> tx.hour == hour_at(
                    t,
                    0,
                ) as u8 && tx.weekday == weekday_at(t, 0) as u8
            }
            &&& part == "customer".spec_bytes() ==> {
                &&& name == "avg_amount".spec_bytes() && is_number(t) ==> tx.customer_avg_amount
                    == number_of(t)
                &&& name == "tx_count_24h".spec_bytes() && is_integer(t) ==> tx.tx_count_24h
                    == integer_at(t, 0) % 256
            }
            &&& part == "merchant".spec_bytes() ==> {
                &&& name == "id".spec_bytes() && is_text(t) ==> tx.merchant_id_hash == hash_of(
                    string_at(t, 0),
                ) as u32
                &&& name == "mcc".spec_bytes() && (is_integer(t) || is_text(t)) ==> tx.mcc
                    == category_at(t, 0) % 65_536
                &&& name == "avg_amount".spec_bytes() && is_number(t) ==> tx.merchant_avg_amount
                    == number_of(t)
            }
            &&& part == "terminal".spec_bytes() ==> {
                &&& name == "is_online".spec_bytes() && is_truth(t) ==> tx.is_online == (t
                    == "true".spec_bytes())
                &&& name == "card_present".spec_bytes() && is_truth(t) ==> tx.card_present == (t
                    == "true".spec_bytes())
                &&& name == "km_from_home".spec_bytes() && is_number(t) ==> tx.km_from_home
                    == number_of(t)
            }
            &&& part == "last_transaction".spec_bytes() ==> {
                &&& name == "km_from_current".spec_bytes() && is_number(t) ==> tx.km_from_last_tx
                    == number_of(t)
            }
        }),
{
    law_part_names();
    assert(is_part(ps[i]));
    let k = lemma_member_listed(ps[i], ms, j);
    lemma_fact_holds(d, ps, i, k);
    let m = ms[j];
    lemma_transaction_facts(m, t);
    lemma_customer_facts(m, t, Seq::empty());
    lemma_merchant_facts(m, t);
    lemma_terminal_facts(m, t);
    lemma_last_facts(m, t);
    reveal(noted);
}

/// The merchants of a customer are kept by the hashes of their names, in order,
/// the first thirty-two of them.
pub proof fn law_merchants_are_read(
    d: Seq<u8>,
    ps: Seq<Part>,
    i: int,
    ms: Seq<Member>,
    j: int,
    texts: Seq<Seq<u8>>,
)
    requires
        is_document(ps),
        are_apart(document_facts(ps)),
        spelled(d, 0, document_tokens(ps)),
        0 <= i < ps.len(),
        ps[i].body == Body::Members(ms),
        part_name(ps[i]) == "customer".spec_bytes(),
        0 <= j < ms.len(),
        member_name(ms[j]) == "known_merchants".spec_bytes(),
        ms[j].value == Value::Texts(texts),
        are_texts(texts),
    ensures
        transaction(d) is Some,
        transaction(d).unwrap().known_merchants.len() == 32,
        texts.len() <= 32 ==> transaction(d).unwrap().known_merchant_count == texts.len(),
        texts.len() > 32 ==> transaction(d).unwrap().known_merchant_count == 32,
        forall|x: int|
            0 <= x < 32 && x < texts.len()
                ==> #[trigger] transaction(d).unwrap().known_merchants[x] == hash_of(
                string_at(texts[x], 0),
            ) as u32,
{
    law_part_names();
    assert(is_part(ps[i]));
    let k = lemma_member_listed(ps[i], ms, j);
    lemma_fact_holds(d, ps, i, k);
    lemma_customer_facts(ms[j], Seq::empty(), texts);
    reveal(noted);
}

/// The id of a document is the number in its text; a document without a number
/// in its id has the id zero.
pub proof fn law_id_is_read(d: Seq<u8>, ps: Seq<Part>, i: int, t: Seq<u8>)
    requires
        is_document(ps),
        are_apart(document_facts(ps)),
        spelled(d, 0, document_tokens(ps)),
        0 <= i < ps.len(),
        ps[i].body == Body::Text(t),
        part_name(ps[i]) == "id".spec_bytes(),
    ensures
        transaction(d) is Some,
        transaction(d).unwrap().id == id_suffix(string_at(t, 0), 0),
{
    law_part_names();
    assert(is_part(ps[i]));
    lemma_fact_holds(d, ps, i, 0);
}

/// There is a last transaction where a document describes one, and none where it
/// says so.
pub proof fn law_last_transaction_is_read(d: Seq<u8>, ps: Seq<Part>, i: int)
    requires
        is_document(ps),
        are_apart(document_facts(ps)),
        spelled(d, 0, document_tokens(ps)),
        0 <= i < ps.len(),
        part_name(ps[i]) == "last_transaction".spec_bytes(),
    ensures
        transaction(d) is Some,
        transaction(d).unwrap().has_last_tx <==> ps[i].body is Members,
        ps[i].body is Null ==> transaction(d).unwrap().last_tx_minutes == 0,
{
    law_part_names();
    assert(is_part(ps[i]));
    lemma_fact_holds(d, ps, i, 0);
    reveal(noted);
}

/// The draft of a document that says a fact has the fact's moments.
proof fn lemma_draft_holds(ps: Seq<Part>, i: int, k: int)
    requires
        are_apart(document_facts(ps)),
        0 <= i < ps.len(),
        0 <= k < part_facts(ps[i]).len(),
    ensures
        ({
            let draft = applied(document_facts(ps), blank_draft());
            let f = part_facts(ps[i])[k];
            &&& f matches Fact::RequestedAt(_, _, moment) ==> draft.requested_at == moment
            &&& f matches Fact::LastAt(moment) ==> draft.last_at == moment
            &&& f matches Fact::HasLast(b) ==> draft.tx.has_last_tx == b
        }),
{
    let x = lemma_fact_listed(ps, i, k);
    let before = lemma_applied_last(document_facts(ps), x, blank_draft());
    reveal(noted);
}

/// The minutes since the last transaction are those between its timestamp and
/// that of the request, wherever the two stand.
pub proof fn law_minutes_are_read(
    d: Seq<u8>,
    ps: Seq<Part>,
    i: int,
    ms: Seq<Member>,
    j: int,
    t: Seq<u8>,
    a: int,
    ns: Seq<Member>,
    b: int,
    u: Seq<u8>,
)
    requires
        is_document(ps),
        are_apart(document_facts(ps)),
        spelled(d, 0, document_tokens(ps)),
        0 <= i < ps.len(),
        part_name(ps[i]) == "transaction".spec_bytes(),
        ps[i].body == Body::Members(ms),
        0 <= j < ms.len(),
        member_name(ms[j]) == "requested_at".spec_bytes(),
        ms[j].value == Value::Token(t),
        is_timestamp(t),
        0 <= a < ps.len(),
        part_name(ps[a]) == "last_transaction".spec_bytes(),
        ps[a].body == Body::Members(ns),
        0 <= b < ns.len(),
        member_name(ns[b]) == "timestamp".spec_bytes(),
        ns[b].value == Value::Token(u),
        is_timestamp(u),
    ensures
        transaction(d) is Some,
        transaction(d).unwrap().last_tx_minutes == minutes_between(
            moment_at(u, 0),
            moment_at(t, 0),
        ),
{
    law_part_names();
    law_document_is_read(d, ps);
    assert(is_part(ps[i]) && is_part(ps[a]));
    let k = lemma_member_listed(ps[i], ms, j);
    lemma_transaction_facts(ms[j], t);
    lemma_draft_holds(ps, i, k);
    let l = lemma_member_listed(ps[a], ns, b);
    lemma_last_facts(ns[b], u);
    lemma_draft_holds(ps, a, l);
    assert(part_facts(ps[a])[0] == Fact::HasLast(true));
    lemma_draft_holds(ps, a, 0);
}

/// Whether facts of a part are about the thing with the given number.
spec fn speaks_of(section: Section, s: int) -> bool {
    match section {
        Section::Id => s == 0,
        Section::Transaction => 1 <= s <= 3,
        Section::Customer => 4 <= s <= 6,
        Section::Merchant => 7 <= s <= 9,
        Section::Terminal => 10 <= s <= 12,
        Section::LastTransaction => 13 <= s <= 15,
        Section::Unknown => false,
    }
}

proof fn lemma_part_speaks(pt: Part, k: int)
    requires
        is_part(pt),
        0 <= k < part_facts(pt).len(),
    ensures
        speaks_of(part_section(pt), subject(part_facts(pt)[k])),
{
    if let Body::Members(ms) = pt.body {
        let section = part_section(pt);
        assert(are_members(section, ms));
        let j = if section is LastTransaction {
            k - 1
        } else {
            k
        };
        if j >= 0 {
            assert(members_facts(section, ms)[j] == part_facts(pt)[k]);
            assert(member_fact(section, ms[j]) is Some);
        }
    }
}

proof fn lemma_document_silent(ps: Seq<Part>, s: int, k: int)
    requires
        is_document(ps),
        forall|i: int| 0 <= i < ps.len() ==> !speaks_of(part_section(#[trigger] ps[i]), s),
        0 <= k < document_facts(ps).len(),
    ensures
        subject(document_facts(ps)[k]) != s,
    decreases ps.len(),
{
    if ps.len() > 0 {
        let first = part_facts(ps[0]);
        assert(is_part(ps[0]));
        if k < first.len() {
            lemma_part_speaks(ps[0], k);
        } else {
            let rest = ps.skip(1);
            assert forall|i: int| 0 <= i < rest.len() implies is_part(#[trigger] rest[i])
                && !speaks_of(part_section(rest[i]), s) by {
                assert(rest[i] == ps[i + 1]);
            }
            lemma_document_silent(rest, s, k - first.len());
        }
    }
}

/// What no fact is about stays as it is.
proof fn lemma_untouched(facts: Seq<Fact>, s: int, r: DraftView)
    requires
        forall|k: int| 0 <= k < facts.len() ==> subject(#[trigger] facts[k]) != s,
    ensures
        ({
            let tx = applied(facts, r).tx;
            &&& s == 0 ==> tx.id == r.tx.id
            &&& s == 1 ==> tx.amount == r.tx.amount
            &&& s == 2 ==> tx.installments == r.tx.installments
            &&& s == 3 ==> tx.hour == r.tx.hour && tx.weekday == r.tx.weekday
            &&& s == 4 ==> tx.customer_avg_amount == r.tx.customer_avg_amount
            &&& s == 5 ==> tx.tx_count_24h == r.tx.tx_count_24h
            &&& s == 6 ==> tx.known_merchants == r.tx.known_merchants && tx.known_merchant_count
                == r.tx.known_merchant_count
            &&& s == 7 ==> tx.merchant_id_hash == r.tx.merchant_id_hash
            &&& s == 8 ==> tx.mcc == r.tx.mcc
            &&& s == 9 ==> tx.merchant_avg_amount == r.tx.merchant_avg_amount
            &&& s == 10 ==> tx.is_online == r.tx.is_online
            &&& s == 11 ==> tx.card_present == r.tx.card_present
            &&& s == 12 ==> tx.km_from_home == r.tx.km_from_home
            &&& s == 13 ==> tx.has_last_tx == r.tx.has_last_tx
            &&& s == 15 ==> tx.km_from_last_tx == r.tx.km_from_last_tx
        }),
    decreases facts.len(),
{
    if facts.len() > 0 {
        lemma_noted(facts[0], r.tx, r.tx);
        assert(subject(facts[0]) != s);
        assert forall|k: int| 0 <= k < facts.skip(1).len() implies subject(
            #[trigger] facts.skip(1)[k],
        ) != s by {
            assert(facts.skip(1)[k] == facts[k + 1]);
        }
        lemma_untouched(facts.skip(1), s, apply(facts[0], r));
    }
}

proof fn lemma_silent(d: Seq<u8>, ps: Seq<Part>, s: int)
    requires
        is_document(ps),
        spelled(d, 0, document_tokens(ps)),
        forall|i: int| 0 <= i < ps.len() ==> !speaks_of(part_section(#[trigger] ps[i]), s),
    ensures
        forall|k: int|
            0 <= k < document_facts(ps).len() ==> subject(#[trigger] document_facts(ps)[k]) != s,
{
    assert forall|k: int| 0 <= k < document_facts(ps).len() implies subject(
        #[trigger] document_facts(ps)[k],
    ) != s by {
        lemma_document_silent(ps, s, k);
    }
}

/// Whether no part of a document has the given name.
pub open spec fn lacks(ps: Seq<Part>, name: Seq<u8>) -> bool {
    forall|i: int| 0 <= i < ps.len() ==> part_name(#[trigger] ps[i]) != name
}

/// What a document does not speak of is zero: without a part, its amounts,
/// counts, hashes and flags are, and there is no last transaction.
pub proof fn law_missing_parts(d: Seq<u8>, ps: Seq<Part>)
    requires
        is_document(ps),
        spelled(d, 0, document_tokens(ps)),
    ensures
        transaction(d) is Some,
        ({
            let tx = transaction(d).unwrap();
            &&& lacks(ps, "id".spec_bytes()) ==> tx.id == 0
            &&& lacks(ps, "transaction".spec_bytes()) ==> tx.amount == whole(0) && tx.installments
                == 0 && tx.hour == 0 && tx.weekday == 0
            &&& lacks(ps, "customer".spec_bytes()) ==> tx.customer_avg_amount == whole(0)
                && tx.tx_count_24h == 0 && tx.known_merchant_count == 0
            &&& lacks(ps, "merchant".spec_bytes()) ==> tx.merchant_id_hash == 0 && tx.mcc == 0
                && tx.merchant_avg_amount == whole(0)
            &&& lacks(ps, "terminal".spec_bytes()) ==> !tx.is_online && !tx.card_present
                && tx.km_from_home == whole(0)
            &&& lacks(ps, "last_transaction".spec_bytes()) ==> !tx.has_last_tx
                && tx.last_tx_minutes == 0 && tx.km_from_last_tx == whole(0)
        }),
{
    law_part_names();
    law_document_is_read(d, ps);
    let facts = document_facts(ps);
    let r = blank_draft();
    if lacks(ps, "id".spec_bytes()) {
        lemma_silent(d, ps, 0);
        lemma_untouched(facts, 0, r);
    }
    if lacks(ps, "transaction".spec_bytes()) {
        lemma_silent(d, ps, 1);
        lemma_untouched(facts, 1, r);
        lemma_silent(d, ps, 2);
        lemma_untouched(facts, 2, r);
        lemma_silent(d, ps, 3);
        lemma_untouched(facts, 3, r);
    }
    if lacks(ps, "customer".spec_bytes()) {
        lemma_silent(d, ps, 4);
        lemma_untouched(facts, 4, r);
        lemma_silent(d, ps, 5);
        lemma_untouched(facts, 5, r);
        lemma_silent(d, ps, 6);
        lemma_untouched(facts, 6, r);
    }
    if lacks(ps, "merchant".spec_bytes()) {
        lemma_silent(d, ps, 7);
        lemma_untouched(facts, 7, r);
        lemma_silent(d, ps, 8);
        lemma_untouched(facts, 8, r);
        lemma_silent(d, ps, 9);
        lemma_untouched(facts, 9, r);
    }
    if lacks(ps, "terminal".spec_bytes()) {
        lemma_silent(d, ps, 10);
        lemma_untouched(facts, 10, r);
        lemma_silent(d, ps, 11);
        lemma_untouched(facts, 11, r);
        lemma_silent(d, ps, 12);
        lemma_untouched(facts, 12, r);
    }
    if lacks(ps, "last_transaction".spec_bytes()) {
        lemma_silent(d, ps, 13);
        lemma_untouched(facts, 13, r);
        lemma_silent(d, ps, 15);
        lemma_untouched(facts, 15, r);
    }
}

} // verus!
