use stubborn::protocol::rr::{Labels, Qtype, RRClass, RRFormat, RRRecord, RRType};

fn make_rr_record() -> RRRecord {
    let mut name = Labels::default();
    name.add_name("www".to_string());
    name.add_name("google".to_string());
    name.add_name("com".to_string());

    RRRecord {
        name,
        rr_type: RRType::A,
        rr_class: RRClass::IN,
        ttl: 300,
        rdlen: 9,
        rdata: b"127.0.0.1".to_vec(),
    }
}

fn make_rr_format(num: u16) -> RRFormat {
    let mut fmt = RRFormat::new(num);
    for _ in 0..num {
        fmt.records.push(make_rr_record());
    }
    fmt
}

#[test]
fn test_resolve_record_encode() {
    let rr = make_rr_record();
    let buffer = rr.to_buffer();

    assert_eq!(buffer[0], 3);
    assert_eq!(&buffer[1..4], b"www");
    assert_eq!(buffer[4], 6);
    assert_eq!(&buffer[5..11], b"google");
    assert_eq!(buffer[11], 3);
    assert_eq!(&buffer[12..15], b"com");
    assert_eq!(buffer[15], 0); // null terminator
    // rr_type: A = 1
    assert_eq!(&buffer[16..18], &[0, 1]);
    // rr_class: IN = 1
    assert_eq!(&buffer[18..20], &[0, 1]);
    // ttl: 300
    assert_eq!(&buffer[20..24], &[0, 0, 1, 44]);
    // rdlen: 9
    assert_eq!(&buffer[24..26], &[0, 9]);
    // rdata
    assert_eq!(&buffer[26..], b"127.0.0.1");
}

#[test]
fn test_resolve_record_decode() {
    let original = make_rr_record();
    let buffer = original.to_buffer();

    let (decoded, _) = RRRecord::from_buffer(&buffer);

    assert_eq!(decoded, original);
}

#[test]
fn test_rr_format_multiple_records() {
    let original = make_rr_format(2);
    let buffer = original.to_buffer();

    let mut decoded = RRFormat::new(2);
    decoded.from_buffer(&buffer);

    assert_eq!(decoded.records.len(), 2);
    assert_eq!(decoded.records[0], original.records[0]);
    assert_eq!(decoded.records[1], original.records[1]);
}

#[test]
fn test_labels_pointer_compression_skipped() {
    // pointer bytes 0xC0 0x0C should consume exactly 2 bytes and stop
    let buffer: &[u8] = &[0xC0, 0x0C, 0x00, 0x01];
    let (labels, consumed) = Labels::from_buffer(buffer);
    assert_eq!(consumed, 2);
    assert_eq!(labels.get_len(), 0); // no labels parsed, just pointer
}

#[test]
fn labels_roundtrip_and_length() {
    let mut name = Labels::default();
    name.add_name("mail".to_string());
    name.add_name("exämple".to_string());
    let wire = name.out();
    // "exämple" is 8 bytes of UTF-8
    assert_eq!(wire, b"\x04mail\x08ex\xc3\xa4mple\x00".to_vec());
    let (decoded, consumed) = Labels::from_buffer(&wire);
    assert_eq!(consumed, wire.len());
    assert_eq!(decoded, name);
    assert_eq!(decoded.get_len(), 2);
}

#[test]
fn labels_stop_at_terminator_and_ignore_the_rest() {
    let buffer: &[u8] = &[1, b'a', 0, 9, 9, 9];
    let (labels, consumed) = Labels::from_buffer(buffer);
    assert_eq!(consumed, 3);
    let mut expected = Labels::default();
    expected.add_name("a".to_string());
    assert_eq!(labels, expected);
}

#[test]
fn labels_pointer_after_label() {
    let buffer: &[u8] = &[2, b'n', b's', 0xC0, 0x10];
    let (labels, consumed) = Labels::from_buffer(buffer);
    assert_eq!(consumed, 5);
    assert_eq!(labels.get_len(), 1);
}

#[test]
fn labels_parse_rejects_what_from_buffer_cannot_read() {
    // runs past the end
    assert!(Labels::parse(&[5, b'a', b'b']).is_none());
    // no terminator
    assert!(Labels::parse(&[1, b'a']).is_none());
    // not UTF-8
    assert!(Labels::parse(&[1, 0xFF, 0]).is_none());
    // empty buffer
    assert!(Labels::parse(&[]).is_none());
    // a lone pointer octet still ends the name, two octets on
    let (labels, consumed) = Labels::parse(&[0xC0]).unwrap();
    assert_eq!((labels.get_len(), consumed), (0, 2));
}

#[test]
fn empty_name_is_one_zero_octet() {
    assert_eq!(Labels::default().out(), vec![0]);
}

#[test]
fn record_parse_rejects_unknown_codes_and_short_data() {
    let rr = make_rr_record();
    let mut buffer = rr.to_buffer();
    // truncated RDATA
    assert!(RRRecord::parse(&buffer[..buffer.len() - 1]).is_none());
    // unknown type 3
    buffer[17] = 3;
    assert!(RRRecord::parse(&buffer).is_none());
    buffer[17] = 28;
    let (decoded, n) = RRRecord::parse(&buffer).unwrap();
    assert_eq!(n, buffer.len());
    assert_eq!(decoded.rr_type, RRType::AAAA);
    // unknown class 2
    buffer[19] = 2;
    assert!(RRRecord::parse(&buffer).is_none());
}

#[test]
fn record_decode_consumes_only_its_octets() {
    let rr = make_rr_record();
    let mut buffer = rr.to_buffer();
    let len = buffer.len();
    buffer.extend_from_slice(&[0xAA, 0xBB]);
    let (decoded, n) = RRRecord::from_buffer(&buffer);
    assert_eq!(n, len);
    assert_eq!(decoded, rr);
}

#[test]
fn record_ttl_is_big_endian() {
    let mut rr = make_rr_record();
    rr.ttl = 0x0102_0304;
    rr.rr_class = RRClass::ALL;
    let buffer = rr.to_buffer();
    assert_eq!(&buffer[18..24], &[0, 255, 1, 2, 3, 4]);
    let (decoded, _) = RRRecord::from_buffer(&buffer);
    assert_eq!(decoded.ttl, 0x0102_0304);
    assert_eq!(decoded.rr_class, RRClass::ALL);
}

#[test]
fn default_record_encodes_to_its_fixed_fields() {
    let rr = RRRecord::default();
    assert_eq!(rr.to_buffer(), vec![0, 0, 1, 0, 1, 0, 0, 0, 0, 0, 0]);
}

#[test]
fn rr_format_appends_and_counts() {
    let original = make_rr_format(3);
    let buffer = original.to_buffer();
    let one = make_rr_record().to_buffer();
    assert_eq!(buffer.len(), 3 * one.len());
    let mut decoded = RRFormat::new(3);
    let consumed = decoded.from_buffer(&buffer);
    assert_eq!(consumed, buffer.len());
    assert_eq!(decoded.records.len(), 3);
    let mut none = RRFormat::new(0);
    assert_eq!(none.from_buffer(&[]), 0);
    assert!(none.records.is_empty());
    assert!(RRFormat::default().to_buffer().is_empty());
}

#[test]
fn type_and_class_codes() {
    assert_eq!(RRType::try_from(28u16), Ok(RRType::AAAA));
    assert_eq!(RRType::try_from(3u16), Err(3));
    assert_eq!(RRType::CNAME.code(), 5);
    assert_eq!(RRClass::try_from(255u16), Ok(RRClass::ALL));
    assert_eq!(RRClass::try_from(2u16), Err(2));
    assert_eq!(RRClass::HS.code(), 4);
    assert_eq!(Qtype::AXFR.code(), 252);
    assert_eq!(Qtype::ALL.code(), 255);
    assert_eq!(Qtype::Other(RRType::TXT).code(), 16);
}
