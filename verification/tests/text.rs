//! Numbers as text, and text as numbers.
use bedrockformation::text::{
    area_label_from_l, fmt_coord_count, format_duration, parse_i32, parse_i64, parse_usize,
    push_decimal, push_signed, push_two_digits,
};

#[test]
fn decimals() {
    for n in [0, 7, 10, 99, 100, 12345, u64::MAX] {
        let mut s = String::from("n=");
        push_decimal(&mut s, n);
        assert_eq!(s, format!("n={}", n));
    }
    for n in [0, -1, 42, i64::MIN, i64::MAX] {
        let mut s = String::new();
        push_signed(&mut s, n);
        assert_eq!(s, format!("{}", n));
    }
    for n in [0, 9, 10, 100] {
        let mut s = String::new();
        push_two_digits(&mut s, n);
        assert_eq!(s, format!("{:02}", n));
    }
}

#[test]
fn area_labels() {
    assert_eq!(area_label_from_l(0), "1 x 1");
    assert_eq!(area_label_from_l(1), "3 x 3");
    assert_eq!(area_label_from_l(499), "999 x 999");
    assert_eq!(area_label_from_l(500), "1k x 1k");
    assert_eq!(area_label_from_l(749), "1k x 1k");
    assert_eq!(area_label_from_l(750), "2k x 2k");
    assert_eq!(area_label_from_l(5000), "10k x 10k");
    assert_eq!(area_label_from_l(499_999), "1000k x 1000k");
    assert_eq!(area_label_from_l(500_000), "1M x 1M");
    assert_eq!(area_label_from_l(750_000), "2M x 2M");
}

#[test]
fn durations() {
    assert_eq!(format_duration(0), "00:00");
    assert_eq!(format_duration(499), "00:00");
    assert_eq!(format_duration(500), "00:01");
    assert_eq!(format_duration(59_499), "00:59");
    assert_eq!(format_duration(59_500), "01:00");
    assert_eq!(format_duration(3_599_000), "59:59");
    assert_eq!(format_duration(3_600_000), "01:00:00");
    assert_eq!(format_duration(360_000_000 + 61_000), "100:01:01");
    assert_eq!(format_duration(u64::MAX), "5124095576030:25:52");
}

#[test]
fn coordinate_counts() {
    assert_eq!(fmt_coord_count(0), "0 coordinates");
    assert_eq!(fmt_coord_count(1), "1 coordinate");
    assert_eq!(fmt_coord_count(25), "25 coordinates");
}

#[test]
fn parsing_agrees_with_std() {
    let texts = [
        "", "+", "-", "0", "-0", "+5", "-5", "007", " 1", "1 ", "1_000", "12a", "--1", "+-1",
        "2147483647", "2147483648", "-2147483648", "-2147483649", "9223372036854775807",
        "9223372036854775808", "-9223372036854775808", "-9223372036854775809",
        "18446744073709551615", "18446744073709551616", "99999999999999999999999999",
        "00000000000000000000000000000000000012", "\u{664}", "1\u{663}",
    ];
    for t in texts {
        assert_eq!(parse_i64(t), t.parse::<i64>().ok(), "{:?}", t);
        assert_eq!(parse_i32(t), t.parse::<i32>().ok(), "{:?}", t);
        assert_eq!(parse_usize(t), t.parse::<usize>().ok(), "{:?}", t);
    }
}
