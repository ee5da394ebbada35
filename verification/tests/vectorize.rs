use fraud_index::json_parser::TransactionData;
use fraud_index::json_values::MAX_MERCHANTS;
use fraud_index::mcc_risk::{get_mcc_risk, init_mcc_risk_table, parse_mcc_risks};
use fraud_index::number::Number;
use fraud_index::vectorize::{is_unknown_merchant, vectorize, Feature};

const NO_LAST_TX: f32 = -1.0;

fn clamp(x: f32) -> f32 {
    if x < 0.0 {
        0.0
    } else if x > 1.0 {
        1.0
    } else {
        x
    }
}

/// The single-precision value of a numeral.
fn value_of(n: &Number) -> f32 {
    let mut frac: f32 = 0.0;
    let mut div: f32 = 1.0;
    for &digit in &n.fraction {
        frac = frac * 10.0 + digit as f32;
        div *= 10.0;
    }
    let val = n.int_part as f32 + frac / div;
    if n.negative {
        -val
    } else {
        val
    }
}

/// The single-precision value of a feature.
fn evaluate(feature: &Feature) -> f32 {
    match *feature {
        Feature::Share(n, of) => clamp(value_of(n) / of as f32),
        Feature::RelativeShare(n, by, of) => clamp((value_of(n) / value_of(by)) / of as f32),
        Feature::CountShare(n, of) => clamp(n as f32 / of as f32),
        Feature::Fraction(n, of) => n as f32 / of as f32,
        Feature::Flag(b) => {
            if b {
                1.0
            } else {
                0.0
            }
        }
        Feature::Level(l) => l as f32 / 255.0,
        Feature::Half => 0.5,
        Feature::Missing => NO_LAST_TX,
    }
}

fn evaluate_all(features: &[Feature]) -> Vec<f32> {
    features.iter().map(evaluate).collect()
}

/// A numeral with two digits behind the point.
fn hundredths(int_part: i64, fraction: u8) -> Number {
    Number { negative: false, int_part, fraction: vec![fraction / 10, fraction % 10], exponent: None }
}

#[test]
fn test_vectorize_null_last_tx() {
    let tx = TransactionData {
        id: 1,
        amount: hundredths(41, 12),
        installments: 2,
        hour: 18,
        weekday: 2, // Tue
        customer_avg_amount: hundredths(82, 24),
        tx_count_24h: 3,
        merchant_id_hash: 123,
        known_merchants: [0; 32],
        known_merchant_count: 0,
        mcc: 5411,
        merchant_avg_amount: hundredths(60, 25),
        is_online: false,
        card_present: true,
        km_from_home: hundredths(29, 23),
        has_last_tx: false,
        last_tx_minutes: 0,
        km_from_last_tx: Number::zero(),
    };
    let table = init_mcc_risk_table(&[]);
    let v = evaluate_all(&vectorize(&tx, &table));
    assert!((v[0] - 0.004112).abs() < 0.0001);
    assert_eq!(v[1], 2.0 / 12.0);
    assert!((v[2] - 0.05).abs() < 0.0001);
    assert!((v[3] - 18.0 / 23.0).abs() < 0.0001);
    assert_eq!(v[5], NO_LAST_TX);
    assert_eq!(v[6], NO_LAST_TX);
    assert_eq!(v[11], 1.0); // unknown merchant
}

#[test]
fn test_vectorize_fraud() {
    let tx = TransactionData {
        id: 2,
        amount: hundredths(9505, 97),
        installments: 10,
        hour: 5,
        weekday: 5, // Fri
        customer_avg_amount: hundredths(81, 28),
        tx_count_24h: 20,
        merchant_id_hash: 456,
        known_merchants: {
            let mut arr = [0u32; 32];
            arr[0] = 789;
            arr[1] = 101112;
            arr[2] = 131415;
            arr
        },
        known_merchant_count: 3,
        mcc: 7802,
        merchant_avg_amount: hundredths(54, 86),
        is_online: false,
        card_present: true,
        km_from_home: hundredths(952, 27),
        has_last_tx: false,
        last_tx_minutes: 0,
        km_from_last_tx: Number::zero(),
    };
    let table = init_mcc_risk_table(&[]);
    let v = evaluate_all(&vectorize(&tx, &table));
    assert!((v[0] - 0.9506).abs() < 0.001);
    assert!((v[1] - 0.8333).abs() < 0.001);
    assert_eq!(v[2], 1.0); // clamped
    assert!((v[7] - 0.9523).abs() < 0.001);
    assert_eq!(v[8], 1.0); // clamped
    assert_eq!(v[11], 1.0); // unknown merchant
}

#[test]
fn a_known_merchant_is_recognised() {
    let mut tx = TransactionData::new();
    tx.merchant_id_hash = 5;
    tx.known_merchants[2] = 5;
    tx.known_merchant_count = 2;
    assert!(is_unknown_merchant(&tx));
    tx.known_merchant_count = 3;
    assert!(!is_unknown_merchant(&tx));
    tx.known_merchant_count = MAX_MERCHANTS as u8;
    assert!(!is_unknown_merchant(&tx));
}

#[test]
fn features_stand_in_the_order_of_the_dimensions() {
    let mut tx = TransactionData::new();
    tx.weekday = 6;
    tx.has_last_tx = true;
    tx.last_tx_minutes = 720;
    tx.km_from_last_tx = hundredths(250, 0);
    tx.is_online = true;
    tx.mcc = 12;
    tx.merchant_avg_amount = hundredths(5000, 0);
    let table = init_mcc_risk_table(&[(12, 51)]);
    let v = evaluate_all(&vectorize(&tx, &table));
    assert_eq!(v.len(), 14);
    assert_eq!(v[4], 1.0);
    assert_eq!(v[5], 0.5);
    assert_eq!(v[6], 0.25);
    assert_eq!(v[9], 1.0);
    assert_eq!(v[10], 0.0);
    assert_eq!(v[12], 51.0 / 255.0);
    assert_eq!(v[13], 0.5);
}

#[test]
fn risk_levels_fall_back() {
    let table = init_mcc_risk_table(&[(5411, 38), (5812, 76), (5411, 40), (10_000, 1)]);
    assert_eq!(get_mcc_risk(&table, 5411), Some(40));
    assert_eq!(get_mcc_risk(&table, 5812), Some(76));
    assert_eq!(get_mcc_risk(&table, 9_999), Some(128));
    assert_eq!(get_mcc_risk(&table, 10_000), None);
    let mut tx = TransactionData::new();
    tx.mcc = 10_000;
    assert_eq!(evaluate_all(&vectorize(&tx, &table))[12], 0.5);
}

#[test]
fn risk_documents_are_read() {
    let list = parse_mcc_risks(b"{\"5411\":0.15, \"5812\" : 0.30}").unwrap();
    assert_eq!(list.len(), 2);
    assert_eq!(list[0].0, 5411);
    assert_eq!(value_of(&list[0].1), 0.15);
    assert_eq!(list[1].0, 5812);
    assert_eq!(value_of(&list[1].1), 0.30);
    assert!(parse_mcc_risks(b"{}").unwrap().is_empty());
    assert!(parse_mcc_risks(b" ").is_none());
    assert!(parse_mcc_risks(b"{\"1\":").is_none());
}
