//! What the rules, the features and the answers of the service amount to.

use crate::engine::{fraud_count, signed16, warm_component, AppState, WARM_QUERIES};
use crate::fastpath::{fast_class, less, PERCENT_10, PERCENT_15, PERCENT_20, PERCENT_25,
    PERCENT_3, PERCENT_30, PERCENT_40, PERCENT_5, PERCENT_50, PERCENT_60, PERCENT_70, PERCENT_80,
    PERCENT_90};
use crate::http::{fraud_response, law_approved_below_three, lemma_body_len, FraudResult,
    HTTP_BAD_REQUEST, HTTP_NOT_FOUND, HTTP_OK_PREFIX, HTTP_OK_SUFFIX, HTTP_READY,
    RESPONSE_BODIES};
use crate::json_parser::TransactionView;
use crate::mcc_risk::MccRiskTable;
use crate::scan::{stands_at, CLOSE_BRACE, DOT, ZERO};
use crate::server::{direct_response, law_score_response, response_to, Route, READ_BUF_SIZE,
    SCORE_RESPONSES, SERVICE_UNAVAILABLE, SPARE_SIZE};
use crate::vectorize::{features, FeatureView};
use vstd::arithmetic::power2::{lemma2_to64, lemma_pow2_pos,
    lemma_pow2_strictly_increases, lemma_pow2_unfold, pow2};
use vstd::prelude::*;
use vstd::string::*;

verus! {

/// The magnitude of a finite single-precision number, in units of the smallest
/// one: the fraction, with the leading one of a normal number, times the power
/// of two that the exponent gives.
pub open spec fn magnitude(bits: u32) -> int {
    let exponent = bits % 0x8000_0000 / 0x80_0000;
    let fraction = bits % 0x80_0000;
    if exponent == 0 {
        fraction as int
    } else {
        (0x80_0000 + fraction) * pow2((exponent - 1) as nat)
    }
}

/// The value of a finite single-precision number, in units of the smallest one.
pub open spec fn value(bits: u32) -> int {
    if bits >= 0x8000_0000 {
        -magnitude(bits)
    } else {
        magnitude(bits)
    }
}

/// Whether a bit pattern stands for a finite number.
pub open spec fn is_finite(bits: u32) -> bool {
    bits % 0x8000_0000 < 0x7f80_0000
}

/// Whether a bit pattern stands for no number.
pub open spec fn is_nan(bits: u32) -> bool {
    bits % 0x8000_0000 > 0x7f80_0000
}

proof fn lemma_magnitude_ascends(a: u32, b: u32)
    requires
        is_finite(a),
        is_finite(b),
        a % 0x8000_0000 < b % 0x8000_0000,
    ensures
        magnitude(a) < magnitude(b),
{
    let ea = (a % 0x8000_0000 / 0x80_0000) as int;
    let eb = (b % 0x8000_0000 / 0x80_0000) as int;
    let fa = (a % 0x80_0000) as int;
    let fb = (b % 0x80_0000) as int;
    assert(a % 0x8000_0000 == 0x80_0000 * ea + fa);
    assert(b % 0x8000_0000 == 0x80_0000 * eb + fb);
    if eb > 0 {
        let pb = pow2((eb - 1) as nat) as int;
        lemma_pow2_pos((eb - 1) as nat);
        assert((0x80_0000 + fb) * pb >= 0x80_0000 * pb) by (nonlinear_arith)
            requires
                fb >= 0,
                pb > 0,
        ;
        if ea == 0 {
            assert(0x80_0000 * pb >= 0x80_0000) by (nonlinear_arith)
                requires
                    pb > 0,
            ;
        } else {
            let pa = pow2((ea - 1) as nat) as int;
            lemma_pow2_pos((ea - 1) as nat);
            if ea == eb {
                assert((0x80_0000 + fa) * pa < (0x80_0000 + fb) * pa) by (nonlinear_arith)
                    requires
                        fa < fb,
                        pa > 0,
                ;
            } else {
                lemma_pow2_unfold(ea as nat);
                if ea < eb - 1 {
                    lemma_pow2_strictly_increases(ea as nat, (eb - 1) as nat);
                }
                assert((0x80_0000 + fa) * pa < 0x80_0000 * pb) by (nonlinear_arith)
                    requires
                        fa < 0x80_0000,
                        pa > 0,
                        pb >= 2 * pa,
                ;
            }
        }
    }
}

/// Bit patterns are compared as the numbers that they stand for: finite numbers
/// by their values, the infinities outside them, and what is no number with
/// nothing.
pub proof fn law_numbers_are_ordered_by_value(a: u32, b: u32)
    ensures
        is_finite(a) && is_finite(b) ==> (less(a, b) <==> value(a) < value(b)),
        is_finite(a) ==> less(a, 0x7f80_0000) && less(0xff80_0000, a),
        less(0xff80_0000, 0x7f80_0000),
        less(a, b) ==> a != 0x7f80_0000 && b != 0xff80_0000,
        is_nan(a) || is_nan(b) ==> !less(a, b),
{
    let ma = a % 0x8000_0000;
    let mb = b % 0x8000_0000;
    if is_finite(a) && is_finite(b) {
        lemma_magnitude_positive(a);
        lemma_magnitude_positive(b);
        if ma < mb {
            lemma_magnitude_ascends(a, b);
        } else if mb < ma {
            lemma_magnitude_ascends(b, a);
        }
    }
}

proof fn lemma_magnitude_positive(a: u32)
    ensures
        magnitude(a) >= 0,
        magnitude(a) == 0 <==> a % 0x8000_0000 == 0,
{
    let e = (a % 0x8000_0000 / 0x80_0000) as int;
    let f = (a % 0x80_0000) as int;
    assert(a % 0x8000_0000 == 0x80_0000 * e + f);
    if e > 0 {
        let p = pow2((e - 1) as nat) as int;
        lemma_pow2_pos((e - 1) as nat);
        assert((0x80_0000 + f) * p > 0) by (nonlinear_arith)
            requires
                f >= 0,
                p > 0,
        ;
    }
}

/// Whether a bit pattern stands for the single-precision number nearest to `n`
/// hundredths: they are at most half a unit of its last place apart.
pub open spec fn is_percent(bits: u32, n: int) -> bool {
    let exponent = (bits / 0x80_0000) as int;
    let significand = 0x80_0000 + bits % 0x80_0000;
    &&& 1 <= exponent <= 150
    &&& -50 <= 100 * significand - n * pow2((150 - exponent) as nat) <= 50
}

/// The thresholds of the rules are the hundredths that they are named after.
pub proof fn law_thresholds_are_hundredths()
    ensures
        is_percent(PERCENT_3, 3),
        is_percent(PERCENT_5, 5),
        is_percent(PERCENT_10, 10),
        is_percent(PERCENT_15, 15),
        is_percent(PERCENT_20, 20),
        is_percent(PERCENT_25, 25),
        is_percent(PERCENT_30, 30),
        is_percent(PERCENT_40, 40),
        is_percent(PERCENT_50, 50),
        is_percent(PERCENT_60, 60),
        is_percent(PERCENT_70, 70),
        is_percent(PERCENT_80, 80),
        is_percent(PERCENT_90, 90),
{
    lemma2_to64();
}

/// The rules look at eight features and at nothing else.
pub proof fn law_rules_look_at_eight_features(v: Seq<u32>, w: Seq<u32>)
    requires
        v[0] == w[0],
        v[2] == w[2],
        forall|d: int| 7 <= d <= 12 ==> v[d] == w[d],
    ensures
        fast_class(v) == fast_class(w),
{
    assert(v[7] == w[7] && v[8] == w[8] && v[9] == w[9] && v[10] == w[10] && v[11] == w[11]
        && v[12] == w[12]);
}

/// A transaction is legit at once exactly where one of three things speaks for
/// it: a known merchant together with a moderate amount and a further sign, a
/// present card together with an amount far below the customer's average, or a
/// small amount at a merchant of low risk.
pub proof fn law_legit_is_earned(v: Seq<u32>)
    ensures
        fast_class(v) is Legit <==> {
            let known = less(v[11], PERCENT_50);
            let card = less(PERCENT_50, v[10]);
            ||| known && less(v[0], PERCENT_25) && {
                ||| less(v[12], PERCENT_15)
                ||| less(v[0], PERCENT_15) && less(v[7], PERCENT_20) && less(v[9], PERCENT_50)
                ||| less(v[0], PERCENT_5) && less(v[8], PERCENT_10)
                ||| less(v[0], PERCENT_3) && less(v[7], PERCENT_5) && less(v[12], PERCENT_20)
            }
            ||| card && less(v[2], PERCENT_10) && {
                ||| less(v[2], PERCENT_5) && less(v[8], PERCENT_30)
                ||| less(v[8], PERCENT_20) && less(v[7], PERCENT_15)
            }
            ||| less(v[0], PERCENT_10) && less(v[12], PERCENT_20) && less(v[2], PERCENT_30)
        },
{
}

/// No transaction at an unknown merchant is legit at once unless the card is
/// present and the amount is below a tenth of its scale over the customer's
/// average, or the amount is small and the merchant of low risk. In particular
/// no large online purchase at an unknown merchant of high risk without a card.
pub proof fn law_unknown_merchant_is_hardly_legit(v: Seq<u32>)
    requires
        !less(v[11], PERCENT_50),
        !less(PERCENT_50, v[10]) || !less(v[2], PERCENT_10),
        !less(v[0], PERCENT_10) || !less(v[12], PERCENT_20) || !less(v[2], PERCENT_30),
    ensures
        !(fast_class(v) is Legit),
        less(PERCENT_50, v[0]) && less(PERCENT_50, v[9]) && less(PERCENT_50, v[11]) && less(
            PERCENT_60,
            v[12],
        ) ==> fast_class(v) is Fraud,
{
}

/// A transaction that nothing speaks for is a fraud at once exactly where a
/// large amount or many transactions meet an unknown merchant and a further
/// sign, or distance without a card, or distance and a merchant of high risk.
pub proof fn law_fraud_is_earned(v: Seq<u32>)
    ensures
        fast_class(v) is Fraud <==> !(fast_class(v) is Legit) && {
            let unknown = less(PERCENT_50, v[11]);
            let online = less(PERCENT_50, v[9]);
            let no_card = less(v[10], PERCENT_50);
            ||| unknown && online && {
                ||| less(PERCENT_90, v[0])
                ||| less(PERCENT_50, v[0]) && less(PERCENT_60, v[12])
                ||| less(PERCENT_20, v[0]) && less(PERCENT_70, v[12])
            }
            ||| unknown && less(PERCENT_50, v[7]) && {
                ||| no_card && less(PERCENT_40, v[0])
                ||| less(PERCENT_80, v[8])
                ||| less(PERCENT_70, v[7]) && less(PERCENT_80, v[0]) && less(PERCENT_60, v[12])
            }
            ||| unknown && less(PERCENT_90, v[2]) && less(PERCENT_80, v[8])
            ||| no_card && less(PERCENT_80, v[7]) && less(PERCENT_60, v[0])
            ||| less(PERCENT_40, v[7]) && less(PERCENT_90, v[8]) && less(PERCENT_50, v[12])
        },
        fast_class(v) is Borderline <==> !(fast_class(v) is Legit) && !(fast_class(v) is Fraud),
{
}

/// Each feature says of the transaction what its number stands for: amounts in
/// ten thousands, installments in dozens, the amount over ten times the
/// customer's average, hours of a day, days of a week, minutes of a day,
/// thousands of kilometres, transactions in twenties, and so on.
pub proof fn law_features(tx: TransactionView, table: &MccRiskTable)
    ensures
        features(tx, table).len() == 14,
        features(tx, table)[0] == FeatureView::Share(tx.amount, 10_000),
        features(tx, table)[1] == FeatureView::CountShare(tx.installments as int, 12),
        features(tx, table)[2] == FeatureView::RelativeShare(
            tx.amount,
            tx.customer_avg_amount,
            10,
        ),
        features(tx, table)[3] == FeatureView::Fraction(tx.hour as int, 23),
        features(tx, table)[4] == FeatureView::Fraction(tx.weekday as int, 6),
        tx.has_last_tx ==> features(tx, table)[5] == FeatureView::CountShare(
            tx.last_tx_minutes as int,
            1440,
        ) && features(tx, table)[6] == FeatureView::Share(tx.km_from_last_tx, 1000),
        features(tx, table)[7] == FeatureView::Share(tx.km_from_home, 1000),
        features(tx, table)[8] == FeatureView::CountShare(tx.tx_count_24h as int, 20),
        features(tx, table)[13] == FeatureView::Share(tx.merchant_avg_amount, 10_000),
{
}

/// The flags of a transaction are features of their own: each is set exactly
/// where the transaction says so, whatever else it says.
pub proof fn law_flags_stand_alone(tx: TransactionView, table: &MccRiskTable)
    ensures
        features(tx, table)[9] == FeatureView::Flag(true) <==> tx.is_online,
        features(tx, table)[9] == FeatureView::Flag(false) <==> !tx.is_online,
        features(tx, table)[10] == FeatureView::Flag(true) <==> tx.card_present,
        features(tx, table)[10] == FeatureView::Flag(false) <==> !tx.card_present,
{
}

/// Without a last transaction the two features on it have no value; with one
/// they have.
pub proof fn law_last_transaction_may_be_missing(tx: TransactionView, table: &MccRiskTable)
    ensures
        features(tx, table)[5] is Missing <==> !tx.has_last_tx,
        features(tx, table)[6] is Missing <==> !tx.has_last_tx,
        forall|d: int|
            0 <= d < 14 && d != 5 && d != 6 ==> !(#[trigger] features(tx, table)[d] is Missing),
{
}

/// A merchant is unknown exactly where none of the customer's merchants has its
/// hash; what stands in the list behind them does not count.
pub proof fn law_unknown_merchant(tx: TransactionView, table: &MccRiskTable)
    requires
        tx.known_merchant_count <= tx.known_merchants.len(),
    ensures
        features(tx, table)[11] == FeatureView::Flag(false) <==> exists|i: int|
            0 <= i < tx.known_merchant_count && #[trigger] tx.known_merchants[i]
                == tx.merchant_id_hash,
        features(tx, table)[11] == FeatureView::Flag(true) <==> forall|i: int|
            0 <= i < tx.known_merchant_count ==> #[trigger] tx.known_merchants[i]
                != tx.merchant_id_hash,
{
    let known = tx.known_merchants.take(tx.known_merchant_count as int);
    if known.contains(tx.merchant_id_hash) {
        let i = choose|i: int| 0 <= i < known.len() && known[i] == tx.merchant_id_hash;
        assert(tx.known_merchants[i] == tx.merchant_id_hash);
    } else {
        assert forall|i: int| 0 <= i < tx.known_merchant_count implies #[trigger] tx.known_merchants[i]
            != tx.merchant_id_hash by {
            assert(known[i] == tx.known_merchants[i]);
        }
    }
}

/// A category code of four digits has the risk of the table, any other one a
/// risk of one half.
pub proof fn law_category_risk(tx: TransactionView, table: &MccRiskTable)
    ensures
        tx.mcc < 10_000 ==> features(tx, table)[12] == FeatureView::Level(
            table.levels@[tx.mcc as int],
        ),
        tx.mcc >= 10_000 ==> features(tx, table)[12] is Half,
{
}

/// A feature depends on the fields that it is about and on nothing else.
pub proof fn law_features_are_local(a: TransactionView, b: TransactionView, table: &MccRiskTable)
    ensures
        ({
            let f = features(a, table);
            let g = features(b, table);
            &&& a.amount == b.amount ==> f[0] == g[0]
            &&& a.installments == b.installments ==> f[1] == g[1]
            &&& a.amount == b.amount && a.customer_avg_amount == b.customer_avg_amount ==> f[2]
                == g[2]
            &&& a.hour == b.hour ==> f[3] == g[3]
            &&& a.weekday == b.weekday ==> f[4] == g[4]
            &&& a.has_last_tx == b.has_last_tx && a.last_tx_minutes == b.last_tx_minutes ==> f[5]
                == g[5]
            &&& a.has_last_tx == b.has_last_tx && a.km_from_last_tx == b.km_from_last_tx ==> f[6]
                == g[6]
            &&& a.km_from_home == b.km_from_home ==> f[7] == g[7]
            &&& a.tx_count_24h == b.tx_count_24h ==> f[8] == g[8]
            &&& a.is_online == b.is_online <==> f[9] == g[9]
            &&& a.card_present == b.card_present <==> f[10] == g[10]
            &&& a.merchant_id_hash == b.merchant_id_hash && a.known_merchants == b.known_merchants
                && a.known_merchant_count == b.known_merchant_count ==> f[11] == g[11]
            &&& a.mcc == b.mcc ==> f[12] == g[12]
            &&& a.merchant_avg_amount == b.merchant_avg_amount ==> f[13] == g[13]
        }),
{
}

/// Whether a response is a success whose body, behind a head of length `head`,
/// gives the verdict on `n` frauds among five neighbours: approval below three,
/// and the share of frauds as score.
pub open spec fn gives_verdict(response: Seq<u8>, head: int, n: int) -> bool {
    let end = response.len() as int;
    &&& stands_at(response, 0, "HTTP/1.1 200 OK\r\n".spec_bytes())
    &&& stands_at(response, head - 4, "\r\n\r\n".spec_bytes())
    &&& stands_at(response, head, "{\"approved\":true,".spec_bytes()) <==> n < 3
    &&& stands_at(response, head, "{\"approved\":false,".spec_bytes()) <==> n >= 3
    &&& stands_at(response, end - 18, "\"fraud_score\":".spec_bytes())
    &&& end - 18 == head + if n < 3 {
        17int
    } else {
        18int
    }
    &&& response[end - 4] == ZERO + 2 * n / 10
    &&& response[end - 3] == DOT
    &&& response[end - 2] == ZERO + 2 * n % 10
    &&& response[end - 1] == CLOSE_BRACE
}

/// A word stands in the rest of a sequence where it stands in the sequence.
proof fn lemma_stands_in_rest(d: Seq<u8>, h: int, p: int, word: Seq<u8>)
    requires
        0 <= h <= d.len(),
        0 <= p,
    ensures
        stands_at(d.skip(h), p, word) <==> stands_at(d, h + p, word),
{
    if h + p + word.len() <= d.len() {
        assert(d.skip(h).subrange(p, p + word.len()) =~= d.subrange(h + p, h + p + word.len()));
    }
}

proof fn lemma_body_gives_verdict(response: Seq<u8>, head: int, n: int)
    requires
        0 <= n <= 5,
        4 <= head <= response.len(),
        response.skip(head) == RESPONSE_BODIES@[n].spec_bytes(),
        stands_at(response, 0, "HTTP/1.1 200 OK\r\n".spec_bytes()),
        stands_at(response, head - 4, "\r\n\r\n".spec_bytes()),
    ensures
        gives_verdict(response, head, n),
{
    law_approved_below_three(n);
    lemma_body_len(n);
    let body = response.skip(head);
    let end = body.len() as int;
    lemma_stands_in_rest(response, head, 0, "{\"approved\":true,".spec_bytes());
    lemma_stands_in_rest(response, head, 0, "{\"approved\":false,".spec_bytes());
    lemma_stands_in_rest(response, head, end - 18, "\"fraud_score\":".spec_bytes());
    let last = body.subrange(end - 4, end);
    assert(last[0] == response[head + end - 4]);
    assert(last[1] == response[head + end - 3]);
    assert(last[2] == response[head + end - 2]);
    assert(last[3] == response[head + end - 1]);
}

/// A request for a score is answered with the verdict on the number of frauds
/// found, and on five where more are reported.
pub proof fn law_score_is_answered(n: usize)
    ensures
        gives_verdict(
            response_to(Route::FraudScore, Some(FraudResult::Score(n))).spec_bytes(),
            63,
            if n < 5 {
                n as int
            } else {
                5
            },
        ),
{
    let m = if n < 5 {
        n as int
    } else {
        5
    };
    let d = response_to(Route::FraudScore, Some(FraudResult::Score(n))).spec_bytes();
    lemma_score_head(m);
    law_score_response(m);
    assert(d == SCORE_RESPONSES@[m].spec_bytes());
    lemma_body_gives_verdict(d, 63, m);
}

proof fn lemma_score_head(n: int)
    requires
        0 <= n <= 5,
    ensures
        SCORE_RESPONSES@[n].spec_bytes().len() >= 63,
        stands_at(SCORE_RESPONSES@[n].spec_bytes(), 0, "HTTP/1.1 200 OK\r\n".spec_bytes()),
        stands_at(SCORE_RESPONSES@[n].spec_bytes(), 59, "\r\n\r\n".spec_bytes()),
{
    reveal_strlit("HTTP/1.1 200 OK\r\n");
    reveal_strlit("\r\n\r\n");
    assert(is_ascii("HTTP/1.1 200 OK\r\n"));
    assert(is_ascii("\r\n\r\n"));
    if n == 0 {
        reveal_strlit("HTTP/1.1 200 OK\r\nContent-Length: 35\r\nConnection: keep-alive\r\n\r\n{\"approved\":true,\"fraud_score\":0.0}");
    } else if n == 1 {
        reveal_strlit("HTTP/1.1 200 OK\r\nContent-Length: 35\r\nConnection: keep-alive\r\n\r\n{\"approved\":true,\"fraud_score\":0.2}");
    } else if n == 2 {
        reveal_strlit("HTTP/1.1 200 OK\r\nContent-Length: 35\r\nConnection: keep-alive\r\n\r\n{\"approved\":true,\"fraud_score\":0.4}");
    } else if n == 3 {
        reveal_strlit("HTTP/1.1 200 OK\r\nContent-Length: 36\r\nConnection: keep-alive\r\n\r\n{\"approved\":false,\"fraud_score\":0.6}");
    } else if n == 4 {
        reveal_strlit("HTTP/1.1 200 OK\r\nContent-Length: 36\r\nConnection: keep-alive\r\n\r\n{\"approved\":false,\"fraud_score\":0.8}");
    } else {
        reveal_strlit("HTTP/1.1 200 OK\r\nContent-Length: 36\r\nConnection: keep-alive\r\n\r\n{\"approved\":false,\"fraud_score\":1.0}");
    }
    assert(is_ascii(SCORE_RESPONSES@[n]));
    let d = SCORE_RESPONSES@[n].spec_bytes();
    assert(d.subrange(0, 17) =~= "HTTP/1.1 200 OK\r\n".spec_bytes());
    assert(d.subrange(59, 63) =~= "\r\n\r\n".spec_bytes());
}

/// A blocking connection answers with the same verdict, behind a head that also
/// names the type of the body.
pub proof fn law_direct_score_is_answered(n: usize)
    requires
        n <= 5,
    ensures
        gives_verdict(
            direct_response(Route::FraudScore, FraudResult::Score(n)),
            95,
            n as int,
        ),
        stands_at(
            direct_response(Route::FraudScore, FraudResult::Score(n)),
            17,
            "Content-Type: application/json\r\n".spec_bytes(),
        ),
{
    reveal_strlit("HTTP/1.1 200 OK\r\n");
    reveal_strlit("\r\n\r\n");
    reveal_strlit("Content-Type: application/json\r\n");
    reveal_strlit(
        "HTTP/1.1 200 OK\r\nContent-Type: application/json\r\nContent-Length: ",
    );
    reveal_strlit("\r\nConnection: keep-alive\r\n\r\n");
    assert(is_ascii("HTTP/1.1 200 OK\r\n"));
    assert(is_ascii("\r\n\r\n"));
    assert(is_ascii("Content-Type: application/json\r\n"));
    assert(is_ascii(HTTP_OK_PREFIX));
    assert(is_ascii(HTTP_OK_SUFFIX));
    let d = direct_response(Route::FraudScore, FraudResult::Score(n));
    lemma_body_len(n as int);
    assert(d == fraud_response(n as int));
    assert(d.skip(95) =~= RESPONSE_BODIES@[n as int].spec_bytes());
    assert(d.subrange(0, 17) =~= "HTTP/1.1 200 OK\r\n".spec_bytes());
    assert(d.subrange(17, 49) =~= "Content-Type: application/json\r\n".spec_bytes());
    assert(d.subrange(91, 95) =~= "\r\n\r\n".spec_bytes());
    lemma_body_gives_verdict(d, 95, n as int);
}

/// What is not a score is answered by status alone: a path that is not known is
/// not found, a request that cannot be scored is bad, and before the dataset is
/// loaded the service is unavailable; once it is, the service is ready.
pub proof fn law_other_answers(outcome: Option<FraudResult>, result: FraudResult)
    ensures
        stands_at(
            response_to(Route::Unknown, outcome).spec_bytes(),
            0,
            "HTTP/1.1 404 Not Found\r\n".spec_bytes(),
        ),
        stands_at(
            response_to(Route::FraudScore, Some(FraudResult::Error)).spec_bytes(),
            0,
            "HTTP/1.1 400 Bad Request\r\n".spec_bytes(),
        ),
        stands_at(
            response_to(Route::Ready, None).spec_bytes(),
            0,
            "HTTP/1.1 503 Service Unavailable\r\n".spec_bytes(),
        ),
        stands_at(
            response_to(Route::FraudScore, None).spec_bytes(),
            0,
            "HTTP/1.1 503 Service Unavailable\r\n".spec_bytes(),
        ),
        stands_at(
            response_to(Route::Ready, Some(result)).spec_bytes(),
            0,
            "HTTP/1.1 200 OK\r\n".spec_bytes(),
        ),
        direct_response(Route::Unknown, result) == response_to(
            Route::Unknown,
            outcome,
        ).spec_bytes(),
        direct_response(Route::FraudScore, FraudResult::Error) == response_to(
            Route::FraudScore,
            Some(FraudResult::Error),
        ).spec_bytes(),
        direct_response(Route::Ready, result) == response_to(
            Route::Ready,
            Some(result),
        ).spec_bytes(),
{
    reveal_strlit("HTTP/1.1 404 Not Found\r\n");
    reveal_strlit("HTTP/1.1 400 Bad Request\r\n");
    reveal_strlit("HTTP/1.1 503 Service Unavailable\r\n");
    reveal_strlit("HTTP/1.1 200 OK\r\n");
    assert(is_ascii("HTTP/1.1 404 Not Found\r\n"));
    assert(is_ascii("HTTP/1.1 400 Bad Request\r\n"));
    assert(is_ascii("HTTP/1.1 503 Service Unavailable\r\n"));
    assert(is_ascii("HTTP/1.1 200 OK\r\n"));
    reveal_strlit(
        "HTTP/1.1 200 OK\r\nContent-Length: 0\r\nConnection: keep-alive\r\n\r\n",
    );
    reveal_strlit(
        "HTTP/1.1 404 Not Found\r\nContent-Length: 0\r\nConnection: keep-alive\r\n\r\n",
    );
    reveal_strlit(
        "HTTP/1.1 400 Bad Request\r\nContent-Length: 0\r\nConnection: keep-alive\r\n\r\n",
    );
    reveal_strlit("HTTP/1.1 503 Service Unavailable\r\nContent-Length: 33\r\nConnection: keep-alive\r\n\r\n{\"error\":\"not ready, still loading\"}");
    assert(is_ascii(HTTP_READY));
    assert(is_ascii(HTTP_NOT_FOUND));
    assert(is_ascii(HTTP_BAD_REQUEST));
    assert(is_ascii(SERVICE_UNAVAILABLE));
    assert(HTTP_NOT_FOUND.spec_bytes().subrange(0, 24) =~= "HTTP/1.1 404 Not Found\r\n".spec_bytes());
    assert(HTTP_BAD_REQUEST.spec_bytes().subrange(0, 26)
        =~= "HTTP/1.1 400 Bad Request\r\n".spec_bytes());
    assert(SERVICE_UNAVAILABLE.spec_bytes().subrange(0, 34)
        =~= "HTTP/1.1 503 Service Unavailable\r\n".spec_bytes());
    assert(HTTP_READY.spec_bytes().subrange(0, 17) =~= "HTTP/1.1 200 OK\r\n".spec_bytes());
}

/// Clear cases need no index: a legit transaction is scored with no fraud and
/// approved, a fraudulent one with five and refused, whatever the state. Only a
/// borderline one is put to the vote of its five nearest neighbours, found in
/// the nearest cell.
pub proof fn law_clear_cases_are_settled(v: Seq<u32>, query: Seq<i16>, state: &AppState)
    ensures
        fast_class(v) is Legit ==> gives_verdict(
            response_to(
                Route::FraudScore,
                Some(FraudResult::Score(fraud_count(v, query, state) as usize)),
            ).spec_bytes(),
            63,
            0,
        ),
        fast_class(v) is Fraud ==> gives_verdict(
            response_to(
                Route::FraudScore,
                Some(FraudResult::Score(fraud_count(v, query, state) as usize)),
            ).spec_bytes(),
            63,
            5,
        ),
        fast_class(v) is Borderline ==> fraud_count(v, query, state) == state.ivf.vote(
            &*state.dataset,
            query,
            5,
            1,
        ),
{
    law_score_is_answered(fraud_count(v, query, state) as usize);
}

proof fn lemma_signed16(x: int)
    ensures
        -32_768 <= signed16(x) <= 32_767,
        (signed16(x) - x) % 65_536 == 0,
{
    let q = x / 65_536;
    assert(x == 65_536 * q + x % 65_536);
    if signed16(x) == x % 65_536 {
        assert(signed16(x) - x == 65_536 * (-q));
    } else {
        assert(signed16(x) - x == 65_536 * (-q - 1));
    }
}

/// The components of the warm-up queries run through the 16-bit numbers in
/// steps that depend on the query and on the dimension.
pub proof fn law_warm_queries(i: int, d: int)
    ensures
        -32_768 <= warm_component(i, d) <= 32_767,
        (warm_component(i, d) - 13 * (i * 2_654_435_761 + 37 * d)) % 65_536 == 0,
        WARM_QUERIES == 1024,
{
    lemma_signed16(13 * (i * 2_654_435_761 + 37 * d));
}

/// A connection of the server has room for 8192 bytes; a blocking one keeps 1024
/// of its bytes free.
pub proof fn law_buffer_sizes()
    ensures
        READ_BUF_SIZE == 8192,
        SPARE_SIZE == 1024,
{
}

} // verus!
