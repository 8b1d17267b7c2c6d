use http_range::ByteRange;
use std::str::FromStr;

fn range(start: Option<u64>, end: Option<u64>) -> ByteRange {
    ByteRange { start, end }
}

#[test]
fn range_with_both_bounds() {
    assert_eq!(ByteRange::from_str("bytes=0-499"), Ok(range(Some(0), Some(499))));
}

#[test]
fn range_of_one_byte() {
    assert_eq!(ByteRange::from_str("bytes=0-0"), Ok(range(Some(0), Some(0))));
}

#[test]
fn range_open_at_the_end() {
    assert_eq!(ByteRange::from_str("bytes=99-"), Ok(range(Some(99), None)));
}

#[test]
fn range_suffix() {
    assert_eq!(ByteRange::from_str("bytes=-99"), Ok(range(None, Some(99))));
}

#[test]
fn range_without_hyphen_is_malformed() {
    assert_eq!(ByteRange::from_str("bytes="), Err(()));
    assert_eq!(ByteRange::from_str("bytes=5"), Err(()));
}

#[test]
fn range_with_other_unit_is_malformed() {
    assert_eq!(ByteRange::from_str("x=0-499"), Err(()));
    assert_eq!(ByteRange::from_str("Bytes=0-499"), Err(()));
    assert_eq!(ByteRange::from_str("bytes 0-499"), Err(()));
    assert_eq!(ByteRange::from_str(" bytes=0-499"), Err(()));
    assert_eq!(ByteRange::from_str("byte"), Err(()));
}

#[test]
fn range_empty_is_malformed() {
    assert_eq!(ByteRange::from_str(""), Err(()));
}

#[test]
fn range_ending_before_its_start_is_malformed() {
    assert_eq!(ByteRange::from_str("bytes=5-4"), Err(()));
    assert_eq!(ByteRange::from_str("bytes=18446744073709551615-0"), Err(()));
}

#[test]
fn range_list_is_malformed() {
    assert_eq!(ByteRange::from_str("bytes=0-499,510-520"), Err(()));
    assert_eq!(ByteRange::from_str("bytes=0-499,-5"), Err(()));
    assert_eq!(ByteRange::from_str("bytes=0-499,"), Err(()));
}

#[test]
fn range_with_neither_bound_is_accepted() {
    assert_eq!(ByteRange::from_str("bytes=-"), Ok(range(None, None)));
}

#[test]
fn range_with_extra_hyphens_is_malformed() {
    assert_eq!(ByteRange::from_str("bytes=--"), Err(()));
    assert_eq!(ByteRange::from_str("bytes=1--2"), Err(()));
    assert_eq!(ByteRange::from_str("bytes=1-2-"), Err(()));
    assert_eq!(ByteRange::from_str("bytes=-1-2"), Err(()));
}

#[test]
fn range_bounds_are_digits_only() {
    assert_eq!(ByteRange::from_str("bytes=+5-10"), Err(()));
    assert_eq!(ByteRange::from_str("bytes=5-+10"), Err(()));
    assert_eq!(ByteRange::from_str("bytes= 5-10"), Err(()));
    assert_eq!(ByteRange::from_str("bytes=5-10 "), Err(()));
    assert_eq!(ByteRange::from_str("bytes=5 -10"), Err(()));
    assert_eq!(ByteRange::from_str("bytes=0x10-20"), Err(()));
    assert_eq!(ByteRange::from_str("bytes=a-b"), Err(()));
    assert_eq!(ByteRange::from_str("bytes=1_0-20"), Err(()));
    assert_eq!(ByteRange::from_str("bytes=1.5-20"), Err(()));
    assert_eq!(ByteRange::from_str("bytes=/-:"), Err(()));
}

#[test]
fn range_outside_ascii_is_malformed() {
    assert_eq!(ByteRange::from_str("bytes=\u{ff11}-\u{ff12}"), Err(()));
    assert_eq!(ByteRange::from_str("bytes=0-1\u{e9}"), Err(()));
    assert_eq!(ByteRange::from_str("bytes=0\u{2010}1"), Err(()));
    assert_eq!(ByteRange::from_str("\u{e9}bytes=0-1"), Err(()));
}

#[test]
fn range_leading_zeros_are_read() {
    assert_eq!(ByteRange::from_str("bytes=007-0009"), Ok(range(Some(7), Some(9))));
    assert_eq!(ByteRange::from_str("bytes=000-"), Ok(range(Some(0), None)));
    assert_eq!(
        ByteRange::from_str("bytes=-000000000000000000000000000042"),
        Ok(range(None, Some(42)))
    );
}

#[test]
fn range_bounds_fit_in_64_bits() {
    assert_eq!(
        ByteRange::from_str("bytes=18446744073709551615-"),
        Ok(range(Some(u64::MAX), None))
    );
    assert_eq!(
        ByteRange::from_str("bytes=0-18446744073709551615"),
        Ok(range(Some(0), Some(u64::MAX)))
    );
    assert_eq!(ByteRange::from_str("bytes=18446744073709551616-"), Err(()));
    assert_eq!(ByteRange::from_str("bytes=-18446744073709551616"), Err(()));
    assert_eq!(ByteRange::from_str("bytes=-18446744073709551620"), Err(()));
    assert_eq!(ByteRange::from_str("bytes=-99999999999999999999"), Err(()));
    assert_eq!(ByteRange::from_str("bytes=1844674407370955161500000000-"), Err(()));
    assert_eq!(ByteRange::from_str("bytes=0-1844674407370955161x"), Err(()));
}

#[test]
fn range_parses_through_str_parse() {
    assert_eq!("bytes=10-20".parse::<ByteRange>(), Ok(range(Some(10), Some(20))));
    assert_eq!("bytes=20-10".parse::<ByteRange>(), Err(()));
}

#[test]
fn range_is_written_exactly() {
    assert_eq!(range(Some(0), Some(499)).to_string(), "bytes=0-499");
    assert_eq!(range(Some(99), None).to_string(), "bytes=99-");
    assert_eq!(range(None, Some(99)).to_string(), "bytes=-99");
    assert_eq!(range(None, None).to_string(), "bytes=-");
    assert_eq!(range(Some(0), Some(0)).to_string(), "bytes=0-0");
    assert_eq!(range(Some(10), Some(100)).to_string(), "bytes=10-100");
    assert_eq!(
        range(Some(1234567890), Some(u64::MAX)).to_string(),
        "bytes=1234567890-18446744073709551615"
    );
}

#[test]
fn range_is_written_without_validation() {
    assert_eq!(range(Some(5), Some(4)).to_string(), "bytes=5-4");
}

#[test]
fn range_fmt_appends() {
    let mut out = String::from("Range: ");
    range(Some(1), Some(2)).fmt(&mut out);
    assert_eq!(out, "Range: bytes=1-2");
    range(None, Some(7)).fmt(&mut out);
    assert_eq!(out, "Range: bytes=1-2bytes=-7");
}

#[test]
fn range_round_trip() {
    let bounds = [None, Some(0), Some(1), Some(9), Some(10), Some(4096), Some(u64::MAX)];
    for start in bounds {
        for end in bounds {
            let value = range(start, end);
            let parsed = ByteRange::from_str(&value.to_string());
            match (start, end) {
                (Some(a), Some(b)) if b < a => assert_eq!(parsed, Err(())),
                _ => assert_eq!(parsed, Ok(value)),
            }
        }
    }
}

#[test]
fn range_canonical_text_round_trip() {
    for text in ["bytes=0-499", "bytes=99-", "bytes=-99", "bytes=-", "bytes=7-7"] {
        assert_eq!(ByteRange::from_str(text).unwrap().to_string(), text);
    }
}
