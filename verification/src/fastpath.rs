//! Threshold rules that settle clear cases without a search.
//!
//! The features are single-precision numbers, given by their bit patterns.

use crate::distance::DIMS;
use vstd::prelude::*;

verus! {

/// 0.03 in single precision.
pub const PERCENT_3: u32 = 0x3cf5c28f;

/// 0.05 in single precision.
pub const PERCENT_5: u32 = 0x3d4ccccd;

/// 0.1 in single precision.
pub const PERCENT_10: u32 = 0x3dcccccd;

/// 0.15 in single precision.
pub const PERCENT_15: u32 = 0x3e19999a;

/// 0.2 in single precision.
pub const PERCENT_20: u32 = 0x3e4ccccd;

/// 0.25 in single precision.
pub const PERCENT_25: u32 = 0x3e800000;

/// 0.3 in single precision.
pub const PERCENT_30: u32 = 0x3e99999a;

/// 0.4 in single precision.
pub const PERCENT_40: u32 = 0x3ecccccd;

/// 0.5 in single precision.
pub const PERCENT_50: u32 = 0x3f000000;

/// 0.6 in single precision.
pub const PERCENT_60: u32 = 0x3f19999a;

/// 0.7 in single precision.
pub const PERCENT_70: u32 = 0x3f333333;

/// 0.8 in single precision.
pub const PERCENT_80: u32 = 0x3f4ccccd;

/// 0.9 in single precision.
pub const PERCENT_90: u32 = 0x3f666666;

/// The bits of plus infinity; larger magnitudes are no numbers.
pub const INFINITY: u32 = 0x7f80_0000;

/// The sign bit.
pub const SIGN: u32 = 0x8000_0000;

/// Feature number of the amount.
pub const AMOUNT: usize = 0;

/// Feature number of the amount over the customer's average.
pub const AMOUNT_VS_AVG: usize = 2;

/// Feature number of the distance from home.
pub const KM_HOME: usize = 7;

/// Feature number of the transactions in a day.
pub const TX_COUNT: usize = 8;

/// Feature number of the online flag.
pub const IS_ONLINE: usize = 9;

/// Feature number of the card-present flag.
pub const CARD_PRESENT: usize = 10;

/// Feature number of the unknown-merchant flag.
pub const UNKNOWN_MERCHANT: usize = 11;

/// Feature number of the merchant category's risk.
pub const MCC_RISK: usize = 12;

/// Result of fast path classification.
#[derive(Debug, Clone, Copy, PartialEq, Eq, Structural)]
pub enum FastResult {
    /// Definitely legit.
    Legit,
    /// Definitely fraud.
    Fraud,
    /// Cannot decide, need full search.
    Borderline,
}

/// The place of a single-precision number in the order of its kind; `None` for
/// what is no number. Both zeros have one place.
pub open spec fn rank(bits: u32) -> Option<int> {
    let magnitude = if bits >= SIGN {
        bits - SIGN
    } else {
        bits as int
    };
    if magnitude > INFINITY {
        None
    } else if bits >= SIGN {
        Some(-magnitude)
    } else {
        Some(magnitude)
    }
}

/// Whether one number is less than another.
pub open spec fn less(a: u32, b: u32) -> bool {
    match (rank(a), rank(b)) {
        (Some(x), Some(y)) => x < y,
        _ => false,
    }
}

/// Compares two single-precision numbers by their bit patterns.
pub fn is_less(a: u32, b: u32) -> (r: bool)
    ensures
        r == less(a, b),
{
    let x: i64 = if a >= SIGN {
        -((a - SIGN) as i64)
    } else {
        a as i64
    };
    let y: i64 = if b >= SIGN {
        -((b - SIGN) as i64)
    } else {
        b as i64
    };
    let limit: i64 = INFINITY as i64;
    -limit <= x && x <= limit && -limit <= y && y <= limit && x < y
}

/// Whether a transaction shows signs of low risk.
pub open spec fn looks_legit(v: Seq<u32>) -> bool {
    ||| less(v[AMOUNT as int], PERCENT_3) && less(v[KM_HOME as int], PERCENT_5) && less(
        v[UNKNOWN_MERCHANT as int],
        PERCENT_50,
    ) && less(v[MCC_RISK as int], PERCENT_20)
    ||| less(v[AMOUNT as int], PERCENT_15) && less(v[UNKNOWN_MERCHANT as int], PERCENT_50) && less(
        v[KM_HOME as int],
        PERCENT_20,
    ) && less(v[IS_ONLINE as int], PERCENT_50)
    ||| less(v[AMOUNT as int], PERCENT_25) && less(v[MCC_RISK as int], PERCENT_15) && less(
        v[UNKNOWN_MERCHANT as int],
        PERCENT_50,
    )
    ||| less(v[AMOUNT_VS_AVG as int], PERCENT_10) && less(v[TX_COUNT as int], PERCENT_20) && less(
        v[KM_HOME as int],
        PERCENT_15,
    ) && less(PERCENT_50, v[CARD_PRESENT as int])
    ||| less(v[AMOUNT as int], PERCENT_5) && less(v[UNKNOWN_MERCHANT as int], PERCENT_50) && less(
        v[TX_COUNT as int],
        PERCENT_10,
    )
    ||| less(v[AMOUNT as int], PERCENT_10) && less(v[MCC_RISK as int], PERCENT_20) && less(
        v[AMOUNT_VS_AVG as int],
        PERCENT_30,
    )
    ||| less(v[AMOUNT_VS_AVG as int], PERCENT_5) && less(v[TX_COUNT as int], PERCENT_30) && less(
        PERCENT_50,
        v[CARD_PRESENT as int],
    )
}

/// Whether a transaction shows signs of high risk.
pub open spec fn looks_fraudulent(v: Seq<u32>) -> bool {
    ||| less(PERCENT_80, v[AMOUNT as int]) && less(PERCENT_70, v[KM_HOME as int]) && less(
        PERCENT_50,
        v[UNKNOWN_MERCHANT as int],
    ) && less(PERCENT_60, v[MCC_RISK as int])
    ||| less(PERCENT_50, v[AMOUNT as int]) && less(PERCENT_50, v[IS_ONLINE as int]) && less(
        PERCENT_50,
        v[UNKNOWN_MERCHANT as int],
    ) && less(PERCENT_60, v[MCC_RISK as int])
    ||| less(PERCENT_40, v[AMOUNT as int]) && less(v[CARD_PRESENT as int], PERCENT_50) && less(
        PERCENT_50,
        v[KM_HOME as int],
    ) && less(PERCENT_50, v[UNKNOWN_MERCHANT as int])
    ||| less(PERCENT_90, v[AMOUNT_VS_AVG as int]) && less(PERCENT_80, v[TX_COUNT as int]) && less(
        PERCENT_50,
        v[UNKNOWN_MERCHANT as int],
    )
    ||| less(PERCENT_80, v[TX_COUNT as int]) && less(PERCENT_50, v[KM_HOME as int]) && less(
        PERCENT_50,
        v[UNKNOWN_MERCHANT as int],
    )
    ||| less(PERCENT_90, v[AMOUNT as int]) && less(PERCENT_50, v[IS_ONLINE as int]) && less(
        PERCENT_50,
        v[UNKNOWN_MERCHANT as int],
    )
    ||| less(PERCENT_60, v[AMOUNT as int]) && less(PERCENT_80, v[KM_HOME as int]) && less(
        v[CARD_PRESENT as int],
        PERCENT_50,
    )
    ||| less(PERCENT_90, v[TX_COUNT as int]) && less(PERCENT_40, v[KM_HOME as int]) && less(
        PERCENT_50,
        v[MCC_RISK as int],
    )
    ||| less(PERCENT_70, v[MCC_RISK as int]) && less(PERCENT_50, v[IS_ONLINE as int]) && less(
        PERCENT_50,
        v[UNKNOWN_MERCHANT as int],
    ) && less(PERCENT_20, v[AMOUNT as int])
}

/// How the rules classify a transaction; the signs of low risk come first.
pub open spec fn fast_class(v: Seq<u32>) -> FastResult {
    if looks_legit(v) {
        FastResult::Legit
    } else if looks_fraudulent(v) {
        FastResult::Fraud
    } else {
        FastResult::Borderline
    }
}

/// Heuristic fast path classification of a feature vector.
pub fn fast_path(v: &[u32; DIMS]) -> (r: FastResult)
    ensures
        r == fast_class(v@),
{
    let amount: u32 = v[AMOUNT];
    let amount_vs_avg: u32 = v[AMOUNT_VS_AVG];
    let km_home: u32 = v[KM_HOME];
    let tx_count: u32 = v[TX_COUNT];
    let is_online: u32 = v[IS_ONLINE];
    let card_present: u32 = v[CARD_PRESENT];
    let unknown_merchant: u32 = v[UNKNOWN_MERCHANT];
    let mcc_risk: u32 = v[MCC_RISK];

    // Very low amount, close, known merchant, low MCC
    if is_less(amount, PERCENT_3) && is_less(km_home, PERCENT_5) && is_less(
        unknown_merchant,
        PERCENT_50,
    ) && is_less(mcc_risk, PERCENT_20) {
        return FastResult::Legit;
    }
    // Known merchant, low amount, close, not online
    if is_less(amount, PERCENT_15) && is_less(unknown_merchant, PERCENT_50) && is_less(
        km_home,
        PERCENT_20,
    ) && is_less(is_online, PERCENT_50) {
        return FastResult::Legit;
    }
    // Very low MCC risk, known merchant
    if is_less(amount, PERCENT_25) && is_less(mcc_risk, PERCENT_15) && is_less(
        unknown_merchant,
        PERCENT_50,
    ) {
        return FastResult::Legit;
    }
    // Low amount vs avg, few tx, close, card present
    if is_less(amount_vs_avg, PERCENT_10) && is_less(tx_count, PERCENT_20) && is_less(
        km_home,
        PERCENT_15,
    ) && is_less(PERCENT_50, card_present) {
        return FastResult::Legit;
    }
    // Very small amount, known merchant, very few tx
    if is_less(amount, PERCENT_5) && is_less(unknown_merchant, PERCENT_50) && is_less(
        tx_count,
        PERCENT_10,
    ) {
        return FastResult::Legit;
    }
    // Low amount, very low MCC risk, low amount vs avg
    if is_less(amount, PERCENT_10) && is_less(mcc_risk, PERCENT_20) && is_less(
        amount_vs_avg,
        PERCENT_30,
    ) {
        return FastResult::Legit;
    }
    // Zero amount vs avg, few tx, card present
    if is_less(amount_vs_avg, PERCENT_5) && is_less(tx_count, PERCENT_30) && is_less(
        PERCENT_50,
        card_present,
    ) {
        return FastResult::Legit;
    }
    // Very high amount, far, unknown, high MCC
    if is_less(PERCENT_80, amount) && is_less(PERCENT_70, km_home) && is_less(
        PERCENT_50,
        unknown_merchant,
    ) && is_less(PERCENT_60, mcc_risk) {
        return FastResult::Fraud;
    }
    // Online, unknown, high risk, significant amount
    if is_less(PERCENT_50, amount) && is_less(PERCENT_50, is_online) && is_less(
        PERCENT_50,
        unknown_merchant,
    ) && is_less(PERCENT_60, mcc_risk) {
        return FastResult::Fraud;
    }
    // Card not present, far from home, unknown, high amount
    if is_less(PERCENT_40, amount) && is_less(card_present, PERCENT_50) && is_less(
        PERCENT_50,
        km_home,
    ) && is_less(PERCENT_50, unknown_merchant) {
        return FastResult::Fraud;
    }
    // Extreme amount vs avg, many tx, unknown merchant
    if is_less(PERCENT_90, amount_vs_avg) && is_less(PERCENT_80, tx_count) && is_less(
        PERCENT_50,
        unknown_merchant,
    ) {
        return FastResult::Fraud;
    }
    // Many tx, far, unknown
    if is_less(PERCENT_80, tx_count) && is_less(PERCENT_50, km_home) && is_less(
        PERCENT_50,
        unknown_merchant,
    ) {
        return FastResult::Fraud;
    }
    // Extreme amount, online, unknown
    if is_less(PERCENT_90, amount) && is_less(PERCENT_50, is_online) && is_less(
        PERCENT_50,
        unknown_merchant,
    ) {
        return FastResult::Fraud;
    }
    // High amount, very far, no card
    if is_less(PERCENT_60, amount) && is_less(PERCENT_80, km_home) && is_less(
        card_present,
        PERCENT_50,
    ) {
        return FastResult::Fraud;
    }
    // Maxed tx count, far, high MCC
    if is_less(PERCENT_90, tx_count) && is_less(PERCENT_40, km_home) && is_less(
        PERCENT_50,
        mcc_risk,
    ) {
        return FastResult::Fraud;
    }
    // Very high MCC risk, online, unknown
    if is_less(PERCENT_70, mcc_risk) && is_less(PERCENT_50, is_online) && is_less(
        PERCENT_50,
        unknown_merchant,
    ) && is_less(PERCENT_20, amount) {
        return FastResult::Fraud;
    }
    FastResult::Borderline
}

/// Whether one number is at most another.
pub open spec fn at_most(a: u32, b: u32) -> bool {
    match (rank(a), rank(b)) {
        (Some(x), Some(y)) => x <= y,
        _ => false,
    }
}

/// Whether no signal of `v` is more alarming than that of `w`. A present card is
/// the only one that reassures.
pub open spec fn no_riskier(v: Seq<u32>, w: Seq<u32>) -> bool {
    &&& at_most(v[AMOUNT as int], w[AMOUNT as int])
    &&& at_most(v[AMOUNT_VS_AVG as int], w[AMOUNT_VS_AVG as int])
    &&& at_most(v[KM_HOME as int], w[KM_HOME as int])
    &&& at_most(v[TX_COUNT as int], w[TX_COUNT as int])
    &&& at_most(v[IS_ONLINE as int], w[IS_ONLINE as int])
    &&& at_most(w[CARD_PRESENT as int], v[CARD_PRESENT as int])
    &&& at_most(v[UNKNOWN_MERCHANT as int], w[UNKNOWN_MERCHANT as int])
    &&& at_most(v[MCC_RISK as int], w[MCC_RISK as int])
}

/// The rules are monotone: what is no riskier than a legit transaction is
/// legit, and what is no less risky than a fraud is a fraud.
pub proof fn law_fast_path_is_monotone(v: Seq<u32>, w: Seq<u32>)
    requires
        no_riskier(v, w),
    ensures
        fast_class(w) is Legit ==> fast_class(v) is Legit,
        fast_class(v) is Fraud ==> fast_class(w) is Fraud,
{
}

} // verus!
