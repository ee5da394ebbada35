use fraud_index::calendar::{count_days, is_date, zeller_weekday};
use fraud_index::ranking::offer;
use fraud_index::scan::{find_word, read_digits, same_bytes, scan, skip_byte, skip_ws, word_at,
    ByteClass, COMMA};
use fraud_index::words::{push_i16, push_str, push_u32, read_i16, read_u16, read_u32};

#[test]
fn weekdays_of_known_dates() {
    assert_eq!(zeller_weekday(2026, 3, 11), 2);
    assert_eq!(zeller_weekday(2000, 1, 1), 5);
    assert_eq!(zeller_weekday(2024, 2, 29), 3);
    assert_eq!(zeller_weekday(1970, 1, 1), 3);
}

#[test]
fn weekdays_advance_by_one() {
    let dates = [(2023, 12, 31), (2024, 1, 1), (2024, 1, 2)];
    let days: Vec<i32> = dates.iter().map(|d| zeller_weekday(d.0, d.1, d.2)).collect();
    assert_eq!(days, vec![6, 0, 1]);
    assert_eq!(
        (zeller_weekday(1900, 2, 28) + 1) % 7,
        zeller_weekday(1900, 3, 1),
    );
}

#[test]
fn weekdays_count_the_days() {
    // Four centuries have a whole number of weeks.
    assert_eq!(zeller_weekday(2000, 2, 29), zeller_weekday(2400, 2, 29));
    // A common year has one day more than 52 weeks, a leap year two.
    assert_eq!((zeller_weekday(2021, 5, 9) + 1) % 7, zeller_weekday(2022, 5, 9));
    assert_eq!((zeller_weekday(2023, 5, 9) + 2) % 7, zeller_weekday(2024, 5, 9));
    for day in 1..32 {
        let weekday = zeller_weekday(2025, 10, day);
        assert!(0 <= weekday && weekday < 7);
    }
}

#[test]
fn offers_keep_the_nearest() {
    let mut best = Vec::new();
    for (i, d) in [9i64, 3, 7, 3, 1, 8].into_iter().enumerate() {
        offer(&mut best, 3, d, i);
    }
    assert_eq!(best, vec![(1, 4), (3, 1), (3, 3)]);
}

#[test]
fn scanning_stops_at_the_first_other_byte() {
    assert_eq!(scan(b"  \t,x", 0, ByteClass::Separator), 4);
    assert_eq!(skip_ws(b"a \r\n b", 1), 5);
    assert_eq!(skip_byte(b"a,", 1, COMMA), 2);
    assert_eq!(skip_byte(b"a,", 0, COMMA), 0);
    assert_eq!(skip_byte(b"a,", 2, COMMA), 2);
}

#[test]
fn words_are_found_where_they_stand_first() {
    assert_eq!(find_word(b"abcabc", 0, b"bc"), Some(1));
    assert_eq!(find_word(b"abcabc", 2, b"bc"), Some(4));
    assert_eq!(find_word(b"abcabc", 5, b"bc"), None);
    assert_eq!(find_word(b"abc", 3, b""), Some(3));
    assert!(word_at(b"xabc", 1, b"abc"));
    assert!(!word_at(b"xab", 1, b"abc"));
    assert!(same_bytes(b"ab", b"ab"));
    assert!(!same_bytes(b"ab", b"abc"));
    assert_eq!(read_digits(b"x0420", 1, 5), 420);
}

#[test]
fn numbers_are_little_endian() {
    let mut out = Vec::new();
    push_i16(&mut out, -2);
    push_u32(&mut out, 0x1_0403_0201);
    push_str(&mut out, "ab");
    assert_eq!(out, vec![0xfe, 0xff, 1, 2, 3, 4, b'a', b'b']);
    assert_eq!(read_i16(&out, 0), -2);
    assert_eq!(read_u16(&out, 0), 0xfffe);
    assert_eq!(read_u32(&out, 2), 0x0403_0201);
}

#[test]
fn days_are_counted_from_year_one() {
    assert_eq!(count_days(1, 1, 1), 0);
    assert_eq!(count_days(1970, 1, 1), 719_162);
    assert_eq!(count_days(2024, 3, 1), count_days(2024, 2, 29) + 1);
    assert_eq!(count_days(2024, 1, 1), count_days(2023, 12, 31) + 1);
    assert!(is_date(2000, 2, 29) && !is_date(1900, 2, 29) && !is_date(2024, 4, 31));
}
