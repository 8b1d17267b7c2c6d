use http_range::decimal::{push_decimal, read_decimal};

#[test]
fn decimal_reads_a_span() {
    assert_eq!(read_decimal("abc123def", 3, 6), Some(123));
    assert_eq!(read_decimal("123", 0, 3), Some(123));
    assert_eq!(read_decimal("123", 1, 2), Some(2));
    assert_eq!(read_decimal("0", 0, 1), Some(0));
    assert_eq!(read_decimal("0042", 0, 4), Some(42));
}

#[test]
fn decimal_empty_span_is_no_number() {
    assert_eq!(read_decimal("123", 0, 0), None);
    assert_eq!(read_decimal("123", 3, 3), None);
    assert_eq!(read_decimal("", 0, 0), None);
}

#[test]
fn decimal_refuses_anything_but_digits() {
    assert_eq!(read_decimal("+1", 0, 2), None);
    assert_eq!(read_decimal("-1", 0, 2), None);
    assert_eq!(read_decimal("1 ", 0, 2), None);
    assert_eq!(read_decimal("12a", 0, 3), None);
    assert_eq!(read_decimal("1/2", 0, 3), None);
    assert_eq!(read_decimal("1:2", 0, 3), None);
    assert_eq!(read_decimal("12a", 0, 2), Some(12));
}

#[test]
fn decimal_refuses_what_does_not_fit() {
    assert_eq!(read_decimal("18446744073709551615", 0, 20), Some(u64::MAX));
    assert_eq!(read_decimal("18446744073709551616", 0, 20), None);
    assert_eq!(read_decimal("18446744073709551620", 0, 20), None);
    assert_eq!(read_decimal("28446744073709551615", 0, 20), None);
    assert_eq!(read_decimal("184467440737095516150", 0, 21), None);
    assert_eq!(read_decimal("000018446744073709551615", 0, 24), Some(u64::MAX));
    assert_eq!(read_decimal("99999999999999999999x", 0, 21), None);
}

#[test]
fn decimal_is_written_without_leading_zeros() {
    let cases: [(u64, &str); 9] = [
        (0, "0"),
        (7, "7"),
        (9, "9"),
        (10, "10"),
        (99, "99"),
        (100, "100"),
        (1009, "1009"),
        (1234567890, "1234567890"),
        (u64::MAX, "18446744073709551615"),
    ];
    for (n, text) in cases {
        let mut out = String::new();
        push_decimal(&mut out, n);
        assert_eq!(out, text);
    }
}

#[test]
fn decimal_is_appended() {
    let mut out = String::from("n=");
    push_decimal(&mut out, 40);
    push_decimal(&mut out, 2);
    assert_eq!(out, "n=402");
}

#[test]
fn decimal_round_trip() {
    for n in [0, 1, 5, 10, 11, 255, 256, 65535, 4294967296, u64::MAX - 1, u64::MAX] {
        let mut out = String::new();
        push_decimal(&mut out, n);
        assert_eq!(read_decimal(&out, 0, out.len()), Some(n));
        assert_eq!(out, n.to_string());
    }
}
