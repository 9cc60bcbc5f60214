use stubborn::protocol::message::question::Question;
use stubborn::protocol::rr::{RRClass, RRType};

#[test]
fn test_question_encode_with_counter() {
    // setup
    let strings = ["www"];
    let mut question = Question::default();
    for item in strings {
        question.add_name(String::from(item));
    }
    // excercise
    let result = question.to_buffer();
    // validation
    assert_eq!(result[0], 3);
    assert_eq!(result[6], 1);
    assert_eq!(result[8], 1);
}

#[test]
fn test_question_decode_from_buffer() {
    // setup
    let strings = ["www", "google", "com"];
    let mut question = Question::default();
    for item in strings {
        question.add_name(String::from(item));
    }
    // excercise
    let result = question.to_buffer();
    // verification
    let mut decoded = Question::default();
    let _ = decoded.from_buffer(&result);
    assert_eq!(question, decoded);
}

#[test]
fn question_type_and_class_roundtrip() {
    let mut question = Question::new(1);
    question.add_name("example".to_string());
    question.add_name("org".to_string());
    question.set_type(RRType::AAAA);
    question.set_class(RRClass::CH);
    let wire = question.to_buffer();
    assert_eq!(wire, b"\x07example\x03org\x00\x00\x1c\x00\x03".to_vec());
    let mut decoded = Question::default();
    let next = decoded.from_buffer(&wire);
    assert_eq!(next, wire.len());
    assert_eq!(decoded, question);
}

#[test]
fn question_from_buffer_returns_offset_of_next_item() {
    let mut question = Question::default();
    question.add_name("a".to_string());
    let mut wire = question.to_buffer();
    let len = wire.len();
    wire.extend_from_slice(&[1, 2, 3]);
    let mut decoded = Question::new(0);
    assert_eq!(decoded.from_buffer(&wire), len);
    assert_eq!(decoded, question);
}

#[test]
fn question_parse_rejects_bad_input() {
    // unknown QTYPE 3
    assert!(Question::parse(&[0, 0, 3, 0, 1]).is_none());
    // unknown QCLASS 2
    assert!(Question::parse(&[0, 0, 1, 0, 2]).is_none());
    // too short
    assert!(Question::parse(&[0, 0, 1, 0]).is_none());
    let (q, n) = Question::parse(&[0, 0, 1, 0, 1]).unwrap();
    assert_eq!(n, 5);
    assert_eq!(q, Question::default());
}
