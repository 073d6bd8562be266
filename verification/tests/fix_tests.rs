use alice_ledger::fix::{
    parse, serialize, split_for_verification, FixError, FixMessage, FIX_44_BEGIN_STRING,
};

fn sample_new_order_single() -> FixMessage {
    let mut m = FixMessage::new();
    m.insert(8, FIX_44_BEGIN_STRING);
    m.insert(35, "D");
    m.insert(49, "SENDER");
    m.insert(56, "TARGET");
    m.insert(11, "ORD-001");
    m.insert(55, "AAPL");
    m.insert(54, "1");
    m.insert(38, "100");
    m.insert(40, "2");
    m.insert(44, "150.25");
    m
}

#[test]
fn serialize_then_parse_roundtrip() {
    let msg = sample_new_order_single();
    let wire = serialize(&msg);
    let parsed = parse(&wire).expect("parse should succeed");
    assert_eq!(parsed.msg_type(), Some("D"));
    assert_eq!(parsed.get(11), Some("ORD-001"));
    assert_eq!(parsed.get(38), Some("100"));
}

#[test]
fn body_length_is_computed_correctly() {
    let msg = sample_new_order_single();
    let wire = serialize(&msg);
    let parsed = parse(&wire).unwrap();
    // Manually compute the count of body bytes and compare.
    let body_len: usize = parsed.get(9).unwrap().parse().unwrap();
    let (body, _) = split_for_verification(&wire).unwrap();
    assert_eq!(body.len(), body_len);
}

#[test]
fn checksum_mismatch_is_reported() {
    let msg = sample_new_order_single();
    let mut wire = serialize(&msg);
    // Corrupt one byte of the payload.
    let idx = wire.iter().position(|b| *b == b'D').unwrap();
    wire[idx] = b'F';
    let err = parse(&wire).unwrap_err();
    assert!(matches!(err, FixError::ChecksumMismatch { .. }));
}

#[test]
fn missing_begin_string_is_reported() {
    let wire = b"9=10\x0135=D\x0110=056\x01";
    let err = parse(wire).unwrap_err();
    assert!(matches!(err, FixError::MissingField(8)));
}

#[test]
fn malformed_field_is_reported() {
    let wire = b"8=FIX.4.4\x019=5\x01hello\x0110=100\x01";
    let err = parse(wire).unwrap_err();
    assert!(matches!(err, FixError::MalformedField(_)));
}

#[test]
fn execution_report_parses() {
    let mut m = FixMessage::new();
    m.insert(8, FIX_44_BEGIN_STRING);
    m.insert(35, "8");
    m.insert(37, "EXEC-001");
    m.insert(17, "FILL-001");
    m.insert(150, "F"); // Fill
    m.insert(39, "2"); // Filled
    m.insert(55, "AAPL");
    m.insert(38, "100");
    m.insert(31, "150.25");
    m.insert(32, "100");
    let wire = serialize(&m);
    let parsed = parse(&wire).unwrap();
    assert_eq!(parsed.msg_type(), Some("8"));
    assert_eq!(parsed.get(150), Some("F"));
}

#[test]
fn insert_and_get_roundtrip() {
    let mut m = FixMessage::new();
    m.insert(999, "value");
    assert_eq!(m.get(999), Some("value"));
}

#[test]
fn parse_rejects_body_length_mismatch() {
    // Craft a wire where BodyLength claims 99 but the body is short.
    let wire = b"8=FIX.4.4\x019=99\x0135=D\x0110=100\x01";
    let err = parse(wire).unwrap_err();
    assert!(matches!(
        err,
        FixError::BodyLengthMismatch { .. } | FixError::ChecksumMismatch { .. }
    ));
}

#[test]
fn serialize_writes_exact_envelope() {
    let mut m = FixMessage::new();
    m.insert(8, FIX_44_BEGIN_STRING);
    m.insert(35, "A");
    assert_eq!(serialize(&m), b"8=FIX.4.4\x019=5\x0135=A\x0110=180\x01".to_vec());
}

#[test]
fn serialize_defaults_begin_string_and_recomputes_envelope() {
    let mut m = FixMessage::new();
    m.insert(35, "A");
    m.insert(9, "77");
    m.insert(10, "1");
    assert_eq!(serialize(&m), b"8=FIX.4.4\x019=5\x0135=A\x0110=180\x01".to_vec());
}

#[test]
fn serialize_orders_body_tags_increasingly() {
    let mut m = FixMessage::new();
    m.insert(55, "X");
    m.insert(1, "Y");
    let wire = serialize(&m);
    let (body, _) = split_for_verification(&wire).unwrap();
    assert_eq!(body, b"1=Y\x0155=X\x01");
}

#[test]
fn parse_reads_back_serialized_fields_and_envelope() {
    let mut m = FixMessage::new();
    m.insert(35, "A");
    m.insert(58, "a=b");
    let parsed = parse(&serialize(&m)).unwrap();
    assert_eq!(parsed.get(8), Some("FIX.4.4"));
    assert_eq!(parsed.get(35), Some("A"));
    assert_eq!(parsed.get(58), Some("a=b"));
    assert_eq!(parsed.get(9), Some("12"));
    assert_eq!(parsed.fields.len(), 5);
}

#[test]
fn parse_reports_exact_body_length_mismatch() {
    let err = parse(b"8=FIX.4.4\x019=99\x0135=D\x0110=100\x01").unwrap_err();
    assert_eq!(err, FixError::BodyLengthMismatch { expected: 99, actual: 5 });
}

#[test]
fn parse_reports_exact_checksum_mismatch() {
    let err = parse(b"8=FIX.4.4\x019=5\x0135=D\x0110=100\x01").unwrap_err();
    assert_eq!(err, FixError::ChecksumMismatch { expected: 100, actual: 183 });
}

#[test]
fn parse_accepts_matching_checksum_with_leading_zeros() {
    let parsed = parse(b"8=FIX.4.4\x019=5\x0135=D\x0110=183\x01").unwrap();
    assert_eq!(parsed.get(10), Some("183"));
    let parsed = parse(b"8=FIX.4.4\x019=5\x0135=D\x0110=0183\x01").unwrap();
    assert_eq!(parsed.get(10), Some("0183"));
}

#[test]
fn parse_rejects_empty_begin_string() {
    let err = parse(b"8=\x019=5\x0135=D\x0110=012\x01").unwrap_err();
    assert_eq!(err, FixError::MissingField(8));
}

#[test]
fn parse_reports_missing_body_length_and_checksum() {
    assert_eq!(parse(b"8=FIX.4.4\x0135=D\x0110=100\x01").unwrap_err(), FixError::MissingField(9));
    assert_eq!(parse(b"8=FIX.4.4\x019=5\x0135=D\x01").unwrap_err(), FixError::MissingField(10));
}

#[test]
fn parse_reports_non_integer_tag() {
    let err = parse(b"8=FIX.4.4\x01x1=5\x01").unwrap_err();
    assert_eq!(err, FixError::TagNotInteger("x1".to_string()));
    let err = parse(b"-1=5\x01").unwrap_err();
    assert_eq!(err, FixError::TagNotInteger("-1".to_string()));
    let err = parse(b"4294967296=5\x01").unwrap_err();
    assert_eq!(err, FixError::TagNotInteger("4294967296".to_string()));
}

#[test]
fn parse_accepts_plus_signed_tag() {
    let err = parse(b"+35=D\x01").unwrap_err();
    assert_eq!(err, FixError::MissingField(8));
}

#[test]
fn parse_reports_invalid_utf8_lossily() {
    let err = parse(b"8=\xff\x01").unwrap_err();
    assert_eq!(err, FixError::MalformedField("8=\u{fffd}".to_string()));
}

#[test]
fn parse_reports_unreadable_body_length() {
    let err = parse(b"8=FIX.4.4\x019=five\x0110=100\x01").unwrap_err();
    assert_eq!(err, FixError::MalformedField("five".to_string()));
}

#[test]
fn split_reports_missing_envelope_fields() {
    assert_eq!(split_for_verification(b"35=D\x0110=1\x01").unwrap_err(), FixError::MissingField(9));
    assert_eq!(split_for_verification(b"9=1\x0135=D\x01").unwrap_err(), FixError::MissingField(10));
}

#[test]
fn msg_type_reads_tag_35() {
    let mut m = FixMessage::default();
    assert_eq!(m.msg_type(), None);
    m.insert(35, "8");
    m.insert(35, "D");
    assert_eq!(m.msg_type(), Some("D"));
}

#[test]
fn parse_reports_checksum_before_body_as_missing() {
    let wire = b"8=A\x0110=0\x019=0\x01";
    assert_eq!(parse(wire).unwrap_err(), FixError::MissingField(10));
    assert_eq!(split_for_verification(wire).unwrap_err(), FixError::MissingField(10));
}
