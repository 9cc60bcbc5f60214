use stubborn::protocol::message::header::{MessageHeader, MessageHeaderType, Opcode, ResponseCode};

/// this is random test because i always forget the be and le
#[test]
fn test_protocol_u16_be_bytes_test() {
    let value: u16 = 0x1234;
    let be_bytes = value.to_be_bytes();

    assert_eq!(be_bytes[0], 0x12);
    assert_eq!(be_bytes[1], 0x34);
}

#[test]
fn test_protocol_header_generation() {
    let mut header = MessageHeader::default();
    header
        .add(MessageHeaderType::Id(0x1234))
        .add(MessageHeaderType::Qr(true))
        .add(MessageHeaderType::OpCode(Opcode::Query))
        .add(MessageHeaderType::QdCount(1));

    let result = header.to_buffer();

    assert_eq!(result[0], 0x12);
    assert_eq!(result[1], 0x34);
    assert_eq!(result[2], 0x80);
    assert_eq!(result[4], 0x00);
    assert_eq!(result[5], 0x01);
}

#[test]
fn test_protocol_header_id_retrieval() {
    let mut header = MessageHeader::default();
    header
        .add(MessageHeaderType::Id(0x1234))
        .add(MessageHeaderType::Qr(true))
        .add(MessageHeaderType::OpCode(Opcode::Query))
        .add(MessageHeaderType::QdCount(1));

    let mut id = MessageHeaderType::Id(0);
    header.get_message_header_value(&mut id);

    match id {
        MessageHeaderType::Id(v) => {
            assert_eq!(v, 0x1234);
        }
        _ => {}
    }
}

#[test]
fn test_protocol_header_qr_retrieval() {
    let mut header = MessageHeader::default();
    header.add(MessageHeaderType::Qr(true));
    let mut qr = MessageHeaderType::Qr(false);
    header.get_message_header_value(&mut qr);
    match qr {
        MessageHeaderType::Qr(v) => assert_eq!(v, true),
        _ => {}
    }
}

#[test]
fn test_protocol_header_aa_retrieval() {
    let mut header = MessageHeader::default();
    header.add(MessageHeaderType::AA(true));
    let mut aa = MessageHeaderType::AA(false);
    header.get_message_header_value(&mut aa);
    match aa {
        MessageHeaderType::AA(v) => assert_eq!(v, true),
        _ => {}
    }
}

#[test]
fn test_protocol_header_tc_retrieval() {
    let mut header = MessageHeader::default();
    header.add(MessageHeaderType::TC(true));
    let mut tc = MessageHeaderType::TC(false);
    header.get_message_header_value(&mut tc);
    match tc {
        MessageHeaderType::TC(v) => assert_eq!(v, true),
        _ => {}
    }
}

#[test]
fn test_protocol_header_opcode_retrieval() {
    let mut header = MessageHeader::default();
    header.add(MessageHeaderType::OpCode(Opcode::Status));
    let mut opcode = MessageHeaderType::OpCode(Opcode::Query);
    header.get_message_header_value(&mut opcode);
    match opcode {
        MessageHeaderType::OpCode(v) => assert_eq!(v as u8, Opcode::Status as u8),
        _ => {}
    }
}

#[test]
fn header_flags_land_on_their_bits() {
    let mut header = MessageHeader::default();
    header
        .add(MessageHeaderType::AA(true))
        .add(MessageHeaderType::TC(true))
        .add(MessageHeaderType::RD(true))
        .add(MessageHeaderType::RA(true))
        .add(MessageHeaderType::Z(5))
        .add(MessageHeaderType::Rcode(ResponseCode::Refused));
    let b = header.to_buffer();
    assert_eq!(b[2], 0x07);
    assert_eq!(b[3], 0x80 | 0x50 | 0x05);
}

#[test]
fn header_flag_can_be_cleared() {
    let mut header = MessageHeader::default();
    header.add(MessageHeaderType::RD(true)).add(MessageHeaderType::Qr(true));
    header.add(MessageHeaderType::RD(false));
    assert_eq!(header.to_buffer()[2], 0x80);
    let mut rd = MessageHeaderType::RD(true);
    header.get_message_header_value(&mut rd);
    assert!(matches!(rd, MessageHeaderType::RD(false)));
}

#[test]
fn header_counters_read_back_and_stay_apart() {
    let mut header = MessageHeader::default();
    header
        .add(MessageHeaderType::Id(0xBEEF))
        .add(MessageHeaderType::QdCount(1))
        .add(MessageHeaderType::AnCount(0x0203))
        .add(MessageHeaderType::NsCount(4))
        .add(MessageHeaderType::ArCount(0xFFFF));
    assert_eq!(
        header.to_buffer(),
        &[0xBE, 0xEF, 0, 0, 0, 1, 2, 3, 0, 4, 0xFF, 0xFF][..]
    );
    let mut an = MessageHeaderType::AnCount(0);
    header.get_message_header_value(&mut an);
    assert_eq!(an.get_count(), 0x0203);
    let mut ar = MessageHeaderType::ArCount(0);
    header.get_message_header_value(&mut ar);
    assert_eq!(ar.get_count(), 0xFFFF);
    let mut id = MessageHeaderType::Id(0);
    header.get_message_header_value(&mut id);
    // the identifier is not a section counter
    assert_eq!(id.get_count(), 0);
    assert!(matches!(id, MessageHeaderType::Id(0xBEEF)));
}

#[test]
fn header_z_and_rcode_read_back() {
    let mut header = MessageHeader::default();
    header.add(MessageHeaderType::Z(0x0F)).add(MessageHeaderType::Rcode(ResponseCode::NameError));
    let mut z = MessageHeaderType::Z(0);
    header.get_message_header_value(&mut z);
    // only the three low bits of Z are kept
    assert!(matches!(z, MessageHeaderType::Z(7)));
    let mut rcode = MessageHeaderType::Rcode(ResponseCode::NoErr);
    header.get_message_header_value(&mut rcode);
    assert!(matches!(rcode, MessageHeaderType::Rcode(ResponseCode::NameError)));
}

#[test]
fn header_from_replaces_all_octets() {
    let mut header = MessageHeader::default();
    header.add(MessageHeaderType::Id(7));
    header.from([1, 2, 0x84, 0x83, 0, 1, 0, 2, 0, 0, 0, 0]);
    assert_eq!(header.to_buffer(), &[1, 2, 0x84, 0x83, 0, 1, 0, 2, 0, 0, 0, 0][..]);
    let mut qr = MessageHeaderType::Qr(false);
    header.get_message_header_value(&mut qr);
    assert!(matches!(qr, MessageHeaderType::Qr(true)));
    let mut aa = MessageHeaderType::AA(false);
    header.get_message_header_value(&mut aa);
    assert!(matches!(aa, MessageHeaderType::AA(true)));
    let mut rcode = MessageHeaderType::Rcode(ResponseCode::NoErr);
    header.get_message_header_value(&mut rcode);
    assert!(matches!(rcode, MessageHeaderType::Rcode(ResponseCode::NameError)));
}

#[test]
fn header_bit_offsets() {
    assert_eq!(usize::from(MessageHeaderType::Id(5)), 0);
    assert_eq!(usize::from(MessageHeaderType::Qr(true)), 16);
    assert_eq!(usize::from(MessageHeaderType::OpCode(Opcode::Query)), 17);
    let rcode: usize = MessageHeaderType::Rcode(ResponseCode::NoErr).into();
    assert_eq!(rcode, 28);
    assert_eq!(usize::from(MessageHeaderType::ArCount(0)), 80);
}

#[test]
fn opcode_and_rcode_values() {
    assert_eq!(Opcode::InverseQuery.value(), 1);
    assert_eq!(Opcode::from_value(2), Some(Opcode::Status));
    assert_eq!(Opcode::from_value(3), None);
    assert_eq!(ResponseCode::Refused.value(), 5);
    assert_eq!(ResponseCode::from_value(6), None);
}
