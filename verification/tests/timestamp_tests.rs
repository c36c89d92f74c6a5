use sks_trainer::timestamp::{
    decode_timestamp, encode_timestamp, Timestamp, ENCODED_LEN, MAX_ENCODABLE_SECS,
};

fn encode_str(secs: u64) -> String {
    String::from_utf8(encode_timestamp(&Timestamp::new(secs))).unwrap()
}

fn decode_str(s: &str) -> Option<Timestamp> {
    decode_timestamp(s.as_bytes())
}

#[test]
fn encodes_the_epoch() {
    assert_eq!(encode_str(0), "1970-01-01T00:00:00Z");
}

#[test]
fn encodes_known_instants() {
    assert_eq!(encode_str(1700000000), "2023-11-14T22:13:20Z");
    assert_eq!(encode_str(86399), "1970-01-01T23:59:59Z");
    assert_eq!(encode_str(86400), "1970-01-02T00:00:00Z");
    // 2000-02-29 exists: years divisible by 400 are leap years
    assert_eq!(encode_str(951782400), "2000-02-29T00:00:00Z");
    // the last instant the encoding can hold
    assert_eq!(encode_str(MAX_ENCODABLE_SECS - 1), "9999-12-31T23:59:59Z");
}

#[test]
fn encoded_length_is_fixed() {
    assert_eq!(encode_timestamp(&Timestamp::new(0)).len(), ENCODED_LEN);
    assert_eq!(encode_timestamp(&Timestamp::new(1234567890)).len(), ENCODED_LEN);
}

#[test]
fn round_trips_exactly() {
    for secs in [
        0u64,
        1,
        59,
        86399,
        86400,
        951782400,
        1700000000,
        4102444800, // 2100-01-01, a century year that is not leap
        MAX_ENCODABLE_SECS - 1,
    ] {
        let t = Timestamp::new(secs);
        let encoded = encode_timestamp(&t);
        assert_eq!(decode_timestamp(encoded.as_slice()), Some(t));
    }
}

#[test]
fn decodes_known_instants() {
    assert_eq!(decode_str("1970-01-01T00:00:00Z"), Some(Timestamp::new(0)));
    assert_eq!(decode_str("2023-11-14T22:13:20Z"), Some(Timestamp::new(1700000000)));
}

#[test]
fn rejects_malformed_text() {
    assert_eq!(decode_str(""), None);
    assert_eq!(decode_str("2023-11-14"), None);
    assert_eq!(decode_str("2023-11-14T22:13:20"), None);
    assert_eq!(decode_str("2023-11-14 22:13:20Z"), None);
    assert_eq!(decode_str("2023-11-14T22:13:2xZ"), None);
    assert_eq!(decode_str("202X-11-14T22:13:20Z"), None);
}

#[test]
fn rejects_out_of_range_fields() {
    assert_eq!(decode_str("2023-00-14T22:13:20Z"), None);
    assert_eq!(decode_str("2023-13-14T22:13:20Z"), None);
    assert_eq!(decode_str("2023-11-00T22:13:20Z"), None);
    assert_eq!(decode_str("2023-11-31T22:13:20Z"), None);
    assert_eq!(decode_str("2023-11-14T24:13:20Z"), None);
    assert_eq!(decode_str("2023-11-14T22:60:20Z"), None);
    assert_eq!(decode_str("2023-11-14T22:13:60Z"), None);
    assert_eq!(decode_str("1969-12-31T23:59:59Z"), None);
}

#[test]
fn knows_the_leap_year_rules() {
    assert!(decode_str("2024-02-29T12:00:00Z").is_some());
    assert_eq!(decode_str("2023-02-29T12:00:00Z"), None);
    assert!(decode_str("2000-02-29T12:00:00Z").is_some());
    assert_eq!(decode_str("2100-02-29T12:00:00Z"), None);
}

#[test]
fn validity_matches_the_year_limit() {
    assert!(Timestamp::new(0).is_valid());
    assert!(Timestamp::new(MAX_ENCODABLE_SECS - 1).is_valid());
    assert!(!Timestamp::new(MAX_ENCODABLE_SECS).is_valid());
}
