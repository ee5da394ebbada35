//! The features of a transaction, one per dimension of the reference vectors.
//!
//! A feature says how its value comes about; whoever needs it as a number
//! rounds it in its own arithmetic.

use crate::distance::DIMS;
use crate::json_parser::{TransactionData, TransactionView};
use crate::json_values::MAX_MERCHANTS;
use crate::mcc_risk::{get_mcc_risk, MccRiskTable, MCC_COUNT};
use crate::number::{Number, NumberView};
use vstd::prelude::*;

verus! {

/// The amount that counts as one.
pub const MAX_AMOUNT: u32 = 10_000;

/// The number of installments that counts as one.
pub const MAX_INSTALLMENTS: u32 = 12;

/// The multiple of the customer's average that counts as one.
pub const AMOUNT_VS_AVG_RATIO: u32 = 10;

/// The last hour of a day.
pub const LAST_HOUR: u32 = 23;

/// The last day of a week.
pub const LAST_WEEKDAY: u32 = 6;

/// The number of minutes that counts as one.
pub const MAX_MINUTES: u32 = 1440;

/// The distance that counts as one.
pub const MAX_KM: u32 = 1000;

/// The number of transactions in a day that counts as one.
pub const MAX_TX_COUNT_24H: u32 = 20;

/// The merchant's average that counts as one.
pub const MAX_MERCHANT_AVG_AMOUNT: u32 = 10_000;

/// How the value of a feature comes about.
#[derive(Debug, Clone, Copy)]
pub enum Feature<'a> {
    /// A numeral over a scale, cut off at zero and one.
    Share(&'a Number, u32),
    /// The quotient of two numerals over a scale, cut off at zero and one.
    RelativeShare(&'a Number, &'a Number, u32),
    /// A count over a scale, cut off at zero and one.
    CountShare(u32, u32),
    /// A count over a scale.
    Fraction(u32, u32),
    /// One or zero.
    Flag(bool),
    /// A risk level in steps of 1/255.
    Level(u8),
    /// One half.
    Half,
    /// Minus one: there is no value.
    Missing,
}

/// What a feature says.
pub enum FeatureView {
    Share(NumberView, int),
    RelativeShare(NumberView, NumberView, int),
    CountShare(int, int),
    Fraction(int, int),
    Flag(bool),
    Level(u8),
    Half,
    Missing,
}

impl<'a> View for Feature<'a> {
    type V = FeatureView;

    open spec fn view(&self) -> FeatureView {
        match *self {
            Feature::Share(n, of) => FeatureView::Share(n@, of as int),
            Feature::RelativeShare(n, by, of) => FeatureView::RelativeShare(n@, by@, of as int),
            Feature::CountShare(n, of) => FeatureView::CountShare(n as int, of as int),
            Feature::Fraction(n, of) => FeatureView::Fraction(n as int, of as int),
            Feature::Flag(b) => FeatureView::Flag(b),
            Feature::Level(l) => FeatureView::Level(l),
            Feature::Half => FeatureView::Half,
            Feature::Missing => FeatureView::Missing,
        }
    }
}

/// Whether the merchant is none of those that the customer uses.
pub open spec fn unknown_merchant(tx: TransactionView) -> bool {
    !tx.known_merchants.take(tx.known_merchant_count as int).contains(tx.merchant_id_hash)
}

/// Check if merchant is unknown (not in known_merchants list).
pub fn is_unknown_merchant(tx: &TransactionData) -> (r: bool)
    requires
        tx.known_merchant_count <= MAX_MERCHANTS,
    ensures
        r == unknown_merchant(tx@),
{
    let count: usize = tx.known_merchant_count as usize;
    let ghost known = tx.known_merchants@.take(count as int);
    let mut i: usize = 0;
    while i < count
        invariant
            i <= count <= MAX_MERCHANTS,
            count == tx.known_merchant_count,
            known == tx.known_merchants@.take(count as int),
            forall|j: int| 0 <= j < i ==> #[trigger] known[j] != tx.merchant_id_hash,
        decreases count - i,
    {
        if tx.known_merchants[i] == tx.merchant_id_hash {
            assert(known[i as int] == tx.merchant_id_hash);
            return false;
        }
        i = i + 1;
    }
    true
}

/// The risk of a merchant category code.
pub open spec fn risk_of(table: &MccRiskTable, mcc: u16) -> FeatureView {
    if mcc < MCC_COUNT {
        FeatureView::Level(table.levels@[mcc as int])
    } else {
        FeatureView::Half
    }
}

/// The features of a transaction, in the order of the dimensions.
pub open spec fn features(tx: TransactionView, table: &MccRiskTable) -> Seq<FeatureView> {
    seq![
        FeatureView::Share(tx.amount, MAX_AMOUNT as int),
        FeatureView::CountShare(tx.installments as int, MAX_INSTALLMENTS as int),
        FeatureView::RelativeShare(
            tx.amount,
            tx.customer_avg_amount,
            AMOUNT_VS_AVG_RATIO as int,
        ),
        FeatureView::Fraction(tx.hour as int, LAST_HOUR as int),
        FeatureView::Fraction(tx.weekday as int, LAST_WEEKDAY as int),
        if tx.has_last_tx {
            FeatureView::CountShare(tx.last_tx_minutes as int, MAX_MINUTES as int)
        } else {
            FeatureView::Missing
        },
        if tx.has_last_tx {
            FeatureView::Share(tx.km_from_last_tx, MAX_KM as int)
        } else {
            FeatureView::Missing
        },
        FeatureView::Share(tx.km_from_home, MAX_KM as int),
        FeatureView::CountShare(tx.tx_count_24h as int, MAX_TX_COUNT_24H as int),
        FeatureView::Flag(tx.is_online),
        FeatureView::Flag(tx.card_present),
        FeatureView::Flag(unknown_merchant(tx)),
        risk_of(table, tx.mcc),
        FeatureView::Share(tx.merchant_avg_amount, MAX_MERCHANT_AVG_AMOUNT as int),
    ]
}

/// Vectorize a transaction: one feature per dimension.
pub fn vectorize<'a>(tx: &'a TransactionData, table: &MccRiskTable) -> (out: Vec<Feature<'a>>)
    requires
        tx.known_merchant_count <= MAX_MERCHANTS,
        table.wf(),
    ensures
        out@.len() == DIMS,
        forall|d: int| 0 <= d < DIMS ==> (#[trigger] out@[d])@ == features(tx@, table)[d],
{
    let mut out: Vec<Feature<'a>> = Vec::new();
    out.push(Feature::Share(&tx.amount, MAX_AMOUNT));
    out.push(Feature::CountShare(tx.installments as u32, MAX_INSTALLMENTS));
    out.push(
        Feature::RelativeShare(&tx.amount, &tx.customer_avg_amount, AMOUNT_VS_AVG_RATIO),
    );
    out.push(Feature::Fraction(tx.hour as u32, LAST_HOUR));
    out.push(Feature::Fraction(tx.weekday as u32, LAST_WEEKDAY));
    if tx.has_last_tx {
        out.push(Feature::CountShare(tx.last_tx_minutes as u32, MAX_MINUTES));
        out.push(Feature::Share(&tx.km_from_last_tx, MAX_KM));
    } else {
        out.push(Feature::Missing);
        out.push(Feature::Missing);
    }
    out.push(Feature::Share(&tx.km_from_home, MAX_KM));
    out.push(Feature::CountShare(tx.tx_count_24h as u32, MAX_TX_COUNT_24H));
    out.push(Feature::Flag(tx.is_online));
    out.push(Feature::Flag(tx.card_present));
    out.push(Feature::Flag(is_unknown_merchant(tx)));
    match get_mcc_risk(table, tx.mcc) {
        Some(level) => out.push(Feature::Level(level)),
        None => out.push(Feature::Half),
    }
    out.push(Feature::Share(&tx.merchant_avg_amount, MAX_MERCHANT_AVG_AMOUNT));
    out
}

} // verus!
