use ledger_replay::digits::{append_decimal, append_padded, digits_to_number, scan_digits};
use ledger_replay::io::Amount;
use ledger_replay::money::{append_units, parse_units};
use ledger_replay::text::{equals_word, field_range, find_byte, trim_range};

#[test]
fn append_decimal_writes_the_numeral() {
    for n in [0u128, 1, 9, 10, 11, 99, 100, 101, 4096, 65535, 1_000_000, u64::MAX as u128, u128::MAX] {
        let mut s = String::from("n=");
        append_decimal(&mut s, n);
        assert_eq!(s, format!("n={}", n));
    }
}

#[test]
fn find_byte_finds_the_first_from_the_start_given() {
    let s = b"ab,cd,,e";
    assert_eq!(find_byte(s, 0, b','), 2);
    assert_eq!(find_byte(s, 2, b','), 2);
    assert_eq!(find_byte(s, 3, b','), 5);
    assert_eq!(find_byte(s, 6, b','), 6);
    assert_eq!(find_byte(s, 7, b','), 8);
    assert_eq!(find_byte(s, 8, b','), 8);
    assert_eq!(find_byte(b"", 0, b','), 0);
}

#[test]
fn field_range_counts_fields_from_zero() {
    let s = b"ab,cd,,e";
    assert_eq!(field_range(s, 0), Some((0, 2)));
    assert_eq!(field_range(s, 1), Some((3, 5)));
    assert_eq!(field_range(s, 2), Some((6, 6)));
    assert_eq!(field_range(s, 3), Some((7, 8)));
    assert_eq!(field_range(s, 4), None);
    assert_eq!(field_range(b"", 0), Some((0, 0)));
    assert_eq!(field_range(b"", 1), None);
    assert_eq!(field_range(b",", 1), Some((1, 1)));
}

#[test]
fn trim_range_drops_white_space_at_both_ends() {
    let s = b"x \t a b \r\n y";
    assert_eq!(trim_range(s, 1, 11), (4, 7));
    assert_eq!(trim_range(s, 4, 7), (4, 7));
    assert_eq!(trim_range(s, 1, 4), (4, 4));
    assert_eq!(trim_range(s, 0, 12), (0, 12));
    assert_eq!(trim_range(b"\x0b\x0c", 0, 2), (2, 2));
    // No-break space is no white space here: it is two bytes, neither of them one.
    assert_eq!(trim_range("\u{a0}a".as_bytes(), 0, 3), (0, 3));
}

#[test]
fn equals_word_compares_letter_for_letter() {
    assert!(equals_word(b"deposit", "deposit"));
    assert!(!equals_word(b"Deposit", "deposit"));
    assert!(!equals_word(b"deposi", "deposit"));
    assert!(!equals_word(b"deposits", "deposit"));
    assert!(equals_word(b"", ""));
}

#[test]
fn scan_digits_stops_at_the_first_byte_that_is_no_digit() {
    assert_eq!(scan_digits(b"123a45", 0), 3);
    assert_eq!(scan_digits(b"123a45", 3), 3);
    assert_eq!(scan_digits(b"123a45", 4), 6);
    assert_eq!(scan_digits(b"/:", 0), 0);
    assert_eq!(scan_digits(b"09", 0), 2);
}

#[test]
fn digits_to_number_reads_up_to_the_limit() {
    let s = b"x0123456789y";
    assert_eq!(digits_to_number(s, 1, 11, 1_000_000_000), Some(123_456_789));
    assert_eq!(digits_to_number(s, 1, 11, 123_456_789), Some(123_456_789));
    assert_eq!(digits_to_number(s, 1, 11, 123_456_788), None);
    assert_eq!(digits_to_number(s, 3, 5, 23), Some(23));
    assert_eq!(digits_to_number(s, 3, 5, 22), None);
    assert_eq!(digits_to_number(s, 4, 4, 0), Some(0));
    assert_eq!(digits_to_number(b"000000000000000000000000000007", 0, 30, 7), Some(7));
    assert_eq!(digits_to_number(b"9999999999999999999999", 0, 22, 1_000_000_000_000_000_000), None);
}

#[test]
fn append_padded_fills_with_zeros_in_front() {
    for (n, width, text) in
        [(7u64, 3u8, "007"), (0, 4, "0000"), (1234, 4, "1234"), (5, 1, "5"), (5, 0, ""), (1234, 2, "34")]
    {
        let mut s = String::from(">");
        append_padded(&mut s, n, width);
        assert_eq!(s, format!(">{}", text));
    }
}

#[test]
fn parse_units_reads_four_places() {
    assert_eq!(parse_units(b"5.7"), Some(57_000));
    assert_eq!(parse_units(b"9"), Some(90_000));
    assert_eq!(parse_units(b"3.4"), Some(34_000));
    assert_eq!(parse_units(b"0.0001"), Some(1));
    assert_eq!(parse_units(b"1.2345"), Some(12_345));
    assert_eq!(parse_units(b"1.23450000"), Some(12_345));
    assert_eq!(parse_units(b"1.23456"), None);
    assert_eq!(parse_units(b"-2"), Some(-20_000));
    assert_eq!(parse_units(b"+2"), Some(20_000));
    assert_eq!(parse_units(b"-0"), Some(0));
    assert_eq!(parse_units(b".5"), Some(5_000));
    assert_eq!(parse_units(b"5."), Some(50_000));
    assert_eq!(parse_units(b"007.050"), Some(70_500));
    assert_eq!(parse_units(b""), None);
    assert_eq!(parse_units(b"."), None);
    assert_eq!(parse_units(b"-"), None);
    assert_eq!(parse_units(b"+."), None);
    assert_eq!(parse_units(b"eheh"), None);
    assert_eq!(parse_units(b"1e3"), None);
    assert_eq!(parse_units(b"1.5.2"), None);
    assert_eq!(parse_units(b"1 "), None);
    assert_eq!(parse_units(b"--1"), None);
    assert_eq!(parse_units(b"1,5"), None);
}

#[test]
fn parse_units_keeps_to_the_range() {
    assert_eq!(parse_units(b"922337203685477.5807"), Some(i64::MAX));
    assert_eq!(parse_units(b"922337203685477.5808"), None);
    assert_eq!(parse_units(b"-922337203685477.5808"), Some(i64::MIN));
    assert_eq!(parse_units(b"-922337203685477.5809"), None);
    assert_eq!(parse_units(b"922337203685478"), None);
    assert_eq!(parse_units(b"1000000000000000"), None);
    assert_eq!(parse_units(b"1000000000000001"), None);
    assert_eq!(parse_units(b"99999999999999999999999999999999999999999999"), None);
    assert_eq!(parse_units(b"0000000000000000000000000000000000000000001"), Some(10_000));
}

#[test]
fn append_units_writes_totals_beyond_an_amount() {
    for (units, text) in [
        (2 * (i64::MAX as i128), "1844674407370955.1614"),
        (2 * (i64::MIN as i128), "-1844674407370955.1616"),
        (i128::MAX, "17014118346046923173168730371588410.5727"),
        (i128::MIN, "-17014118346046923173168730371588410.5728"),
    ] {
        let mut s = String::new();
        append_units(&mut s, units);
        assert_eq!(s, text);
    }
}

#[test]
fn append_units_writes_the_places_needed() {
    for (units, text) in [
        (0i64, "0"),
        (34_000, "3.4"),
        (340_000, "34"),
        (1, "0.0001"),
        (10, "0.001"),
        (100, "0.01"),
        (1_000, "0.1"),
        (500, "0.05"),
        (12_345, "1.2345"),
        (12_340, "1.234"),
        (10_001, "1.0001"),
        (-20_000, "-2"),
        (-5, "-0.0005"),
        (i64::MAX, "922337203685477.5807"),
        (i64::MIN, "-922337203685477.5808"),
    ] {
        let mut s = String::new();
        append_units(&mut s, units as i128);
        assert_eq!(s, text);
        assert_eq!(Amount(units).to_text(), text);
        assert_eq!(Amount::parse(text), Some(Amount(units)));
        assert_eq!(parse_units(text.as_bytes()), Some(units));
    }
}
