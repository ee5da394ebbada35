use fraud_index::json_parser::{parse_transaction, try_parse_transaction, TransactionData};
use fraud_index::json_values::{count_minutes, hash_str, match_str, parse_bool, parse_category,
    parse_moment, parse_str_array, parse_str_hash, parse_timestamp, parse_u16, parse_u64, parse_u8,
    read_moment, MAX_MERCHANTS};
use fraud_index::number::{parse_number, read_plain_number, Number};

/// The single-precision value of a numeral.
fn value_of(n: &Number) -> f32 {
    let mut frac: f32 = 0.0;
    let mut div: f32 = 1.0;
    for &digit in &n.fraction {
        frac = frac * 10.0 + digit as f32;
        div *= 10.0;
    }
    let mut val = n.int_part as f32 + frac / div;
    if n.negative {
        val = -val;
    }
    if let Some(exp) = n.exponent {
        val *= 10f32.powi(exp);
    }
    val
}

#[test]
fn test_parse_simple() {
    let data = br#"{"id":"tx-3576980410","transaction":{"amount":384.88,"installments":3,"requested_at":"2026-03-11T20:23:35Z"},"customer":{"avg_amount":769.76,"tx_count_24h":3,"known_merchants":["MERC-009","MERC-001"]},"merchant":{"id":"MERC-001","mcc":"5912","avg_amount":298.95},"terminal":{"is_online":false,"card_present":true,"km_from_home":13.7},"last_transaction":{"timestamp":"2026-03-11T14:58:35Z","km_from_current":18.8}}"#;
    let tx = parse_transaction(data);
    assert_eq!(value_of(&tx.amount), 384.88);
    assert_eq!(tx.installments, 3);
    assert_eq!(tx.hour, 20);
    assert_eq!(value_of(&tx.customer_avg_amount), 769.76);
    assert_eq!(tx.tx_count_24h, 3);
    assert_eq!(tx.known_merchant_count, 2);
    assert!(tx.has_last_tx || tx.last_tx_minutes == 0);
    assert_eq!(tx.id, 3576980410);
    assert_eq!(tx.merchant_id_hash, hash_str(b"MERC-001"));
    assert_eq!(tx.mcc, 5912);
    assert_eq!(value_of(&tx.merchant_avg_amount), 298.95);
    assert!(!tx.is_online);
    assert!(tx.card_present);
    assert_eq!(value_of(&tx.km_from_home), 13.7);
    assert!(tx.has_last_tx);
    assert_eq!(tx.last_tx_minutes, 325);
    assert_eq!(value_of(&tx.km_from_last_tx), 18.8);
}

#[test]
fn test_parse_null_last_tx() {
    let data = br#"{"id":"tx-123","transaction":{"amount":41.12,"installments":2,"requested_at":"2026-03-11T18:45:53Z"},"customer":{"avg_amount":82.24,"tx_count_24h":3,"known_merchants":["MERC-003","MERC-016"]},"merchant":{"id":"MERC-016","mcc":"5411","avg_amount":60.25},"terminal":{"is_online":false,"card_present":true,"km_from_home":29.23},"last_transaction":null}"#;
    let tx = parse_transaction(data);
    assert_eq!(value_of(&tx.amount), 41.12);
    assert!(!tx.has_last_tx);
    assert_eq!(tx.mcc, 5411);
    assert_eq!(value_of(&tx.merchant_avg_amount), 60.25);
    assert!(!tx.is_online);
    assert!(tx.card_present);
    assert_eq!(value_of(&tx.km_from_home), 29.23);
    assert_eq!(tx.last_tx_minutes, 0);
}

/// The parts of a document whose numbers are all unquoted.
fn parts() -> Vec<&'static str> {
    vec![
        r#""id":"tx-77""#,
        r#""transaction":{"amount":1.5,"installments":4,"requested_at":"2024-02-29T07:00:00Z"}"#,
        r#""customer":{"avg_amount":2.25,"tx_count_24h":9,"known_merchants":["A","B"]}"#,
        r#""merchant":{"id":"B","mcc":5411,"avg_amount":60}"#,
        r#""terminal":{"is_online":true,"card_present":true,"km_from_home":-3.5e1}"#,
        r#""last_transaction":{"timestamp":"2024-02-28T07:00:00Z","km_from_current":18.75}"#,
    ]
}

fn check_parts(tx: &TransactionData) {
    assert_eq!(tx.id, 77);
    assert_eq!(value_of(&tx.amount), 1.5);
    assert_eq!(tx.installments, 4);
    assert_eq!(tx.hour, 7);
    assert_eq!(tx.weekday, 3);
    assert_eq!(value_of(&tx.customer_avg_amount), 2.25);
    assert_eq!(tx.tx_count_24h, 9);
    assert_eq!(tx.known_merchant_count, 2);
    assert_eq!(tx.known_merchants[0], hash_str(b"A"));
    assert_eq!(tx.known_merchants[1], hash_str(b"B"));
    assert_eq!(tx.merchant_id_hash, hash_str(b"B"));
    assert_eq!(tx.mcc, 5411);
    assert_eq!(value_of(&tx.merchant_avg_amount), 60.0);
    assert!(tx.is_online);
    assert!(tx.card_present);
    assert_eq!(value_of(&tx.km_from_home), -35.0);
    assert!(tx.has_last_tx);
    assert_eq!(tx.last_tx_minutes, 1440);
    assert_eq!(value_of(&tx.km_from_last_tx), 18.75);
}

#[test]
fn every_field_is_read() {
    let text = format!("{{{}}}", parts().join(","));
    check_parts(&parse_transaction(text.as_bytes()));
}

#[test]
fn parts_come_in_any_order() {
    let mut list = parts();
    list.reverse();
    let text = format!(" {{ {} }}", list.join(" , "));
    check_parts(&parse_transaction(text.as_bytes()));
    list.swap(0, 3);
    let text = format!("{{{}}}", list.join(","));
    check_parts(&parse_transaction(text.as_bytes()));
}

#[test]
fn members_come_in_any_order_and_spacing() {
    let text = b"\n{ \"terminal\" :\t{ \"km_from_home\" : -3.5e1 , \"card_present\":true\n,\
        \"is_online\" : true } , \"last_transaction\" : { \"km_from_current\":18.75 ,\
        \"timestamp\" : \"2024-02-28T07:00:00Z\" } ,\r\n\"merchant\":{\"avg_amount\":60 ,\
        \"mcc\" : \"5411\" , \"id\" : \"B\"},\"id\" : \"tx-77\" , \"customer\":{\
        \"known_merchants\" : [ \"A\" ,\t\"B\" ] , \"tx_count_24h\" :9,\"avg_amount\":2.25 },\
        \"transaction\" : { \"requested_at\" : \"2024-02-29T07:00:00Z\" , \"installments\":4 ,\
        \"amount\" : 1.5 } } and more";
    check_parts(&parse_transaction(text));
}

#[test]
fn blank_document_is_a_blank_transaction() {
    let tx = parse_transaction(b"{}");
    let blank = TransactionData::new();
    assert_eq!(tx.id, blank.id);
    assert_eq!(value_of(&tx.amount), 0.0);
    assert_eq!(tx.known_merchants, [0u32; MAX_MERCHANTS]);
    assert_eq!(tx.known_merchant_count, 0);
    assert!(!tx.has_last_tx);
}

#[test]
fn text_that_ends_inside_a_value_is_refused() {
    assert!(try_parse_transaction(b"").is_none());
    assert!(try_parse_transaction(b"  ").is_none());
    assert!(try_parse_transaction(b"{\"transaction\":{\"amount\":").is_none());
    assert!(try_parse_transaction(b"{\"transaction\":{\"amount\":1e").is_none());
    assert!(try_parse_transaction(b"{\"transaction\":{\"requested_at\":\"2026-03").is_none());
    assert!(try_parse_transaction(b"{\"id\":").is_none());
    assert!(try_parse_transaction(b"{\"customer\":{\"known_merchants\":").is_none());
}

#[test]
fn merchants_beyond_the_list_are_dropped() {
    let names: Vec<String> = (0..40).map(|i| format!("\"M{}\"", i)).collect();
    let text = format!("{{\"customer\":{{\"known_merchants\":[{}]}}}}", names.join(","));
    let tx = parse_transaction(text.as_bytes());
    assert_eq!(tx.known_merchant_count as usize, MAX_MERCHANTS);
    assert_eq!(tx.known_merchants[31], hash_str(b"M31"));
}

#[test]
fn integers_wrap_at_their_size() {
    assert_eq!(parse_u8(b" 300,", 0), (44, 4));
    assert_eq!(parse_u16(b"65541", 0), (5, 5));
    assert_eq!(parse_u64(b"18446744073709551617", 0), (1, 20));
    assert_eq!(parse_u64(b"x", 0), (0, 0));
}

#[test]
fn literals_are_matched_in_place() {
    assert_eq!(match_str(b"xnull", 1, b"null"), (true, 5));
    assert_eq!(match_str(b"xnul", 1, b"null"), (false, 1));
}

#[test]
fn booleans_default_to_false() {
    assert_eq!(parse_bool(b" true,", 0), (true, 5));
    assert_eq!(parse_bool(b"false,", 0), (false, 5));
    assert_eq!(parse_bool(b"maybe", 0).0, false);
}

#[test]
fn timestamps_give_hour_and_weekday() {
    let (hour, weekday, end) = parse_timestamp(b"\"2026-03-11T20:23:35Z\",", 0).unwrap();
    assert_eq!((hour, weekday), (20, 2));
    assert_eq!(end, 22);
    assert!(parse_timestamp(b"\"2026-03-11T2", 0).is_none());
}

#[test]
fn hashes_distinguish_texts() {
    assert_eq!(hash_str(b""), 5381);
    assert_eq!(hash_str(b"a"), 5381 * 33 + 97);
    assert_eq!(parse_str_hash(b" \"a\" ", 0), Some((5381 * 33 + 97, 4)));
    assert_eq!(parse_str_hash(b"  ", 0), None);
}

#[test]
fn arrays_overwrite_the_beginning() {
    let mut out = [9u32; MAX_MERCHANTS];
    let (count, end) = parse_str_array(b"[\"x\" , \"y\"] ", 0, &mut out).unwrap();
    assert_eq!((count, end), (2, 11));
    assert_eq!(out[0], hash_str(b"x"));
    assert_eq!(out[1], hash_str(b"y"));
    assert_eq!(out[2], 9);
}

#[test]
fn numerals_keep_their_parts() {
    let (n, end) = parse_number(b" -12.034E-2,", 0).unwrap();
    assert!(n.negative);
    assert_eq!(n.int_part, 12);
    assert_eq!(n.fraction, vec![0, 3, 4]);
    assert_eq!(n.exponent, Some(-2));
    assert_eq!(end, 11);
    let (n, _) = parse_number(b"4294967297", 0).unwrap();
    assert_eq!(n.int_part, 1);
    let (n, end) = read_plain_number(b"2147483648e5", 0);
    assert_eq!(n.int_part, -2147483648);
    assert_eq!(n.exponent, None);
    assert_eq!(end, 10);
    assert!(parse_number(b"   ", 0).is_none());
}

#[test]
fn categories_are_bare_or_quoted() {
    assert_eq!(parse_category(b" 5912,", 0), (5912, 5));
    assert_eq!(parse_category(b" \"5912\",", 0), (5912, 7));
    assert_eq!(parse_category(b"\"59x\",", 0), (59, 5));
    assert_eq!(parse_category(b"\"\"", 0), (0, 2));
    assert_eq!(parse_category(b"65541", 0), (5, 5));
    assert_eq!(parse_category(b"\"12", 0), (12, 3));
}

#[test]
fn short_lists_keep_the_first_hashes() {
    let mut out = [0u32; 1];
    assert_eq!(parse_str_array(b"[\"a\",\"b\"]", 0, &mut out), Some((1, 9)));
    assert_eq!(out, [177670]);
    assert_eq!(parse_str_array(b"[\"a\",\"b\"]", 0, &mut []), Some((0, 9)));
}

#[test]
fn moments_need_a_date_and_a_time() {
    let day = 86_400;
    assert_eq!(read_moment(b"0001-01-01T00:00:00Z"), Some(0));
    assert_eq!(read_moment(b"0001-01-02T01:02:03Z"), Some(day + 3723));
    assert_eq!(read_moment(b"1970-01-01T00:00:00Z"), Some(719_162 * day));
    assert_eq!(read_moment(b"2024-02-29T00:00:00"), Some((719_162 + 19_782) * day));
    assert_eq!(read_moment(b"2023-02-29T00:00:00Z"), None);
    assert_eq!(read_moment(b"2023-13-01T00:00:00Z"), None);
    assert_eq!(read_moment(b"2023-12-01T24:00:00Z"), None);
    assert_eq!(read_moment(b"2023-12-01T00:60:00Z"), None);
    assert_eq!(read_moment(b"2023-12-01T00:00"), None);
    assert_eq!(read_moment(b"2023-1x-01T00:00:00Z"), None);
    assert_eq!(read_moment(b"0000-01-01T00:00:00Z"), None);
    assert_eq!(parse_moment(b" \"0001-01-01T00:00:59Z\",", 0), Some(59));
}

#[test]
fn minutes_are_whole_and_capped() {
    assert_eq!(count_minutes(Some(0), Some(119)), 1);
    assert_eq!(count_minutes(Some(120), Some(0)), 0);
    assert_eq!(count_minutes(Some(0), Some(i64::MAX)), 65535);
    assert_eq!(count_minutes(Some(i64::MIN), Some(i64::MAX)), 65535);
    assert_eq!(count_minutes(None, Some(120)), 0);
    assert_eq!(count_minutes(Some(0), None), 0);
}

#[test]
fn minutes_do_not_depend_on_the_order_of_the_parts() {
    let last = r#""last_transaction":{"timestamp":"2026-03-11T14:58:35Z","km_from_current":18.8}"#;
    let now = r#""transaction":{"amount":384.88,"installments":3,"requested_at":"2026-03-11T20:23:35Z"}"#;
    for text in [format!("{{{},{}}}", now, last), format!("{{{},{}}}", last, now)] {
        let tx = parse_transaction(text.as_bytes());
        assert!(tx.has_last_tx);
        assert_eq!(tx.last_tx_minutes, 325);
    }
    let text = format!("{{{},\"last_transaction\":null}}", now);
    assert_eq!(parse_transaction(text.as_bytes()).last_tx_minutes, 0);
}
