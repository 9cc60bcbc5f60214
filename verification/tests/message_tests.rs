use stubborn::protocol::message::header::{MessageHeader, MessageHeaderType};
use stubborn::protocol::message::question::Question;
use stubborn::protocol::message::DNSpacket;
use stubborn::protocol::rr::{Labels, RRClass, RRRecord, RRType};

fn record(name: &[&str], rdata: &[u8]) -> RRRecord {
    let mut labels = Labels::default();
    for l in name {
        labels.add_name(l.to_string());
    }
    RRRecord {
        name: labels,
        rr_type: RRType::A,
        rr_class: RRClass::IN,
        ttl: 60,
        rdlen: rdata.len() as u16,
        rdata: rdata.to_vec(),
    }
}

fn response_bytes() -> Vec<u8> {
    let mut header = MessageHeader::default();
    header
        .add(MessageHeaderType::Id(69))
        .add(MessageHeaderType::Qr(true))
        .add(MessageHeaderType::RD(true))
        .add(MessageHeaderType::RA(true))
        .add(MessageHeaderType::QdCount(1))
        .add(MessageHeaderType::AnCount(2))
        .add(MessageHeaderType::NsCount(0))
        .add(MessageHeaderType::ArCount(1));
    let mut question = Question::default();
    question.add_name("www".to_string());
    question.add_name("yahoo".to_string());
    question.add_name("com".to_string());
    let mut out = header.to_buffer().to_vec();
    out.extend_from_slice(&question.to_buffer());
    out.extend_from_slice(&record(&["www", "yahoo", "com"], &[1, 2, 3, 4]).to_buffer());
    out.extend_from_slice(&record(&["yahoo", "com"], &[5, 6, 7, 8]).to_buffer());
    out.extend_from_slice(&record(&["ns", "yahoo", "com"], &[9, 9, 9, 9]).to_buffer());
    out
}

#[test]
fn packet_reads_back_what_was_written() {
    let bytes = response_bytes();
    let packet = DNSpacket::from_buffer(&bytes);
    assert_eq!(packet.answer().records.len(), 2);
    assert_eq!(packet.authority().records.len(), 0);
    assert_eq!(packet.additional().records.len(), 1);
    assert_eq!(packet.answer().records[1], record(&["yahoo", "com"], &[5, 6, 7, 8]));
    assert_eq!(packet.question().to_buffer(), bytes[12..12 + 19].to_vec());
    assert_eq!(packet.to_buffer(), bytes);
}

#[test]
fn packet_ignores_trailing_octets() {
    let mut bytes = response_bytes();
    let len = bytes.len();
    bytes.extend_from_slice(&[0; 20]);
    let packet = DNSpacket::from_buffer(&bytes);
    assert_eq!(packet.to_buffer(), bytes[..len].to_vec());
}

#[test]
fn packet_header_counts_are_read() {
    let bytes = response_bytes();
    let packet = DNSpacket::from_buffer(&bytes);
    let mut an = MessageHeaderType::AnCount(0);
    packet.header().get_message_header_value(&mut an);
    assert_eq!(an.get_count(), 2);
    let mut id = MessageHeaderType::Id(0);
    packet.header().get_message_header_value(&mut id);
    assert!(matches!(id, MessageHeaderType::Id(69)));
}

#[test]
fn packet_parse_rejects_short_or_broken_messages() {
    let bytes = response_bytes();
    assert!(DNSpacket::parse(&bytes[..11]).is_none());
    assert!(DNSpacket::parse(&bytes[..bytes.len() - 1]).is_none());
    assert!(DNSpacket::parse(&bytes).is_some());
}

#[test]
fn default_packet_is_header_and_empty_question() {
    let packet = DNSpacket::default();
    let mut expected = vec![0u8; 12];
    expected.extend_from_slice(&[0, 0, 1, 0, 1]);
    assert_eq!(packet.to_buffer(), expected);
}
