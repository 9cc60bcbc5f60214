use crate::protocol::octets::{
    be_u16, lemma_be_u16_octets, lemma_u16_be_roundtrip, push_u16_be, u16_be,
};
use crate::protocol::rr::{
    encode_labels, labels_fit, lemma_encode_parsed_labels, lemma_parse_encoded_labels,
    lemma_parse_labels_bounds, lemma_parse_labels_len_ge, lemma_rr_class_code_roundtrip,
    lemma_rr_class_decode_inverts_encode, lemma_rr_codes_from_wire,
    lemma_rr_type_code_roundtrip, lemma_rr_type_decode_inverts_encode, parse_labels, rr_class_code,
    rr_class_from_code, rr_type_code, rr_type_from_code, Labels, RRClass, RRType,
};
use vstd::prelude::*;

verus! {

/// The mathematical content of a question.
#[verifier::ext_equal]
pub struct QuestionModel {
    pub qname: Seq<Seq<char>>,
    pub q_type: RRType,
    pub class: RRClass,
}

/// Wire form of a question: QNAME, then QTYPE and QCLASS as 16-bit codes.
pub open spec fn encode_question(q: QuestionModel) -> Seq<u8> {
    encode_labels(q.qname) + u16_be(rr_type_code(q.q_type)) + u16_be(rr_class_code(q.class))
}

/// Decoding the question at the start of `buf`: the question and the number of
/// octets it takes.  QTYPE and QCLASS follow the name and must be known codes.
#[verifier::opaque]
pub open spec fn parse_question(buf: Seq<u8>) -> Option<(QuestionModel, int)> {
    match parse_labels(buf) {
        None => None,
        Some((qname, p)) => {
            if p + 4 > buf.len() {
                None
            } else {
                match rr_type_from_code(be_u16(buf[p], buf[p + 1])) {
                    None => None,
                    Some(q_type) => match rr_class_from_code(be_u16(buf[p + 2], buf[p + 3])) {
                        None => None,
                        Some(class) => Some((QuestionModel { qname, q_type, class }, p + 4)),
                    },
                }
            }
        },
    }
}

/// The question a fresh `Question` holds: the empty name, type A, class IN.
pub open spec fn empty_question() -> QuestionModel {
    QuestionModel { qname: Seq::empty(), q_type: RRType::A, class: RRClass::IN }
}

/// Carries the "question" of a query: the name asked about, the type of record
/// wanted and its class.
#[derive(Debug, PartialEq)]
pub struct Question {
    // a domain name represented as a sequence of labels
    qname: Labels,
    q_type: RRType,
    class: RRClass,
}

impl View for Question {
    type V = QuestionModel;

    closed spec fn view(&self) -> QuestionModel {
        QuestionModel { qname: self.qname@, q_type: self.q_type, class: self.class }
    }
}

impl Default for Question {
    fn default() -> (q: Self)
        ensures
            q@ == empty_question(),
    {
        Question { qname: Labels::default(), q_type: RRType::A, class: RRClass::IN }
    }
}

impl Question {
    /// A question for the empty name, type A, class IN; the argument is unused.
    pub fn new(_num: u16) -> (q: Self)
        ensures
            q@ == empty_question(),
    {
        Self::default()
    }

    /// Appends a label to the name asked about.
    pub fn add_name(&mut self, name: String)
        ensures
            final(self)@ == (QuestionModel { qname: old(self)@.qname.push(name@), ..old(self)@ }),
    {
        self.qname.add_name(name);
    }

    /// Sets the type of record asked for.
    pub fn set_type(&mut self, q_type: RRType)
        ensures
            final(self)@ == (QuestionModel { q_type, ..old(self)@ }),
    {
        self.q_type = q_type;
    }

    /// Sets the class asked for.
    pub fn set_class(&mut self, q_class: RRClass)
        ensures
            final(self)@ == (QuestionModel { class: q_class, ..old(self)@ }),
    {
        self.class = q_class;
    }

    /// The wire form of the question.
    pub fn to_buffer(&self) -> (out: Vec<u8>)
        ensures
            out@ == encode_question(self@),
    {
        let mut buffer = self.qname.out();
        push_u16_be(&mut buffer, self.q_type.code());
        push_u16_be(&mut buffer, self.class.code());
        buffer
    }

    /// Reads the question at the start of `buffer`, or `None` where the original
    /// reader would fail (a field past the end, an unknown type or class, a label
    /// that is not UTF-8).
    pub fn parse(buffer: &[u8]) -> (res: Option<(Question, usize)>)
        ensures
            res is Some <==> parse_question(buffer@) is Some,
            res matches Some((q, n)) ==> parse_question(buffer@) == Some((q@, n as int)),
    {
        proof {
            reveal(parse_question);
        }
        let (qname, start) = match Labels::parse(buffer) {
            Some(x) => x,
            None => {
                assert(buffer@.len() == buffer.len());
                return None;
            },
        };
        if start > buffer.len() || buffer.len() - start < 4 {
            return None;
        }
        let rr_type: u16 = (buffer[start] as u16) * 256 + (buffer[start + 1] as u16);
        let class: u16 = (buffer[start + 2] as u16) * 256 + (buffer[start + 3] as u16);
        let q_type = match RRType::try_from(rr_type) {
            Ok(v) => v,
            Err(_) => {
                return None;
            },
        };
        let class = match RRClass::try_from(class) {
            Ok(v) => v,
            Err(_) => {
                return None;
            },
        };
        Some((Question { qname, q_type, class }, start + 4))
    }

    /// Replaces this question with the one at the start of `buffer`; returns the
    /// offset just past it, where the next item starts.
    pub fn from_buffer(&mut self, buffer: &[u8]) -> (next: usize)
        requires
            parse_question(buffer@) is Some,
        ensures
            parse_question(buffer@) == Some((final(self)@, next as int)),
    {
        let (q, next) = Self::parse(buffer).unwrap();
        *self = q;
        next
    }
}

/// Reading back a question that was written gives the same question and ends
/// just past it, whatever follows.
pub proof fn lemma_parse_encoded_question(q: QuestionModel, rest: Seq<u8>)
    requires
        labels_fit(q.qname),
    ensures
        parse_question(encode_question(q) + rest) == Some((q, encode_question(q).len() as int)),
{
    reveal(parse_question);
    let enc = encode_question(q);
    let buf = enc + rest;
    let names = encode_labels(q.qname);
    let p = names.len() as int;
    assert(buf.subrange(0, p) =~= names);
    lemma_parse_encoded_labels(q.qname, buf, 0);
    let t = rr_type_code(q.q_type);
    let c = rr_class_code(q.class);
    assert(buf[p] == u16_be(t)[0] && buf[p + 1] == u16_be(t)[1]);
    assert(buf[p + 2] == u16_be(c)[0] && buf[p + 3] == u16_be(c)[1]);
    lemma_u16_be_roundtrip(t);
    lemma_u16_be_roundtrip(c);
    lemma_rr_type_code_roundtrip(q.q_type);
    lemma_rr_class_code_roundtrip(q.class);
}

/// A question read from a buffer without name compression (it takes exactly as
/// many octets as its wire form) is written back as the very octets it was read
/// from, and its labels survive the wire.
pub proof fn lemma_encode_parsed_question(buf: Seq<u8>)
    requires
        parse_question(buf) matches Some((q, n)) && n == encode_question(q).len(),
    ensures
        parse_question(buf) matches Some((q, n)) && labels_fit(q.qname) && buf.subrange(0, n)
            == encode_question(q),
{
    reveal(parse_question);
    let (q, n) = parse_question(buf).unwrap();
    let (qname, p) = parse_labels(buf).unwrap();
    lemma_parse_labels_bounds(buf, 0);
    assert(p == encode_labels(qname).len());
    lemma_encode_parsed_labels(buf, 0);
    let t = be_u16(buf[p], buf[p + 1]);
    let c = be_u16(buf[p + 2], buf[p + 3]);
    lemma_rr_codes_from_wire(t);
    lemma_rr_codes_from_wire(c);
    lemma_be_u16_octets(buf[p], buf[p + 1]);
    lemma_be_u16_octets(buf[p + 2], buf[p + 3]);
    assert(buf.subrange(0, n) =~= buf.subrange(0, p) + seq![buf[p], buf[p + 1]] + seq![
        buf[p + 2],
        buf[p + 3],
    ]);
    assert(buf.subrange(0, n) =~= encode_question(q));
}

/// A question read from a buffer lies inside it and takes at least as many
/// octets as its wire form.
pub proof fn lemma_parse_question_len(buf: Seq<u8>)
    ensures
        parse_question(buf) matches Some((q, n)) ==> encode_question(q).len() <= n <= buf.len(),
{
    reveal(parse_question);
    if let Some((q, n)) = parse_question(buf) {
        lemma_parse_labels_len_ge(buf, 0);
    }
}

/// QTYPE and QCLASS are read big-endian right after the name, whatever form the
/// name takes, and the question ends after them.  A question is read exactly when
/// the name is, both codes lie inside the buffer and both are known codes.
pub proof fn lemma_parse_question_fields(buf: Seq<u8>)
    ensures
        parse_question(buf) matches Some((q, n)) ==> (parse_labels(buf) matches Some((name, p))
            && q.qname == name && 0 < p && n == p + 4 && n <= buf.len() && rr_type_code(q.q_type)
            == buf[p] * 256 + buf[p + 1] && rr_class_code(q.class) == buf[p + 2] * 256 + buf[p
            + 3]),
        (parse_question(buf) is Some) <==> (parse_labels(buf) matches Some((name, p)) && p + 4
            <= buf.len() && (exists|t: RRType| rr_type_code(t) == buf[p] * 256 + buf[p + 1]) && (
        exists|c: RRClass| rr_class_code(c) == buf[p + 2] * 256 + buf[p + 3])),
{
    reveal(parse_question);
    lemma_parse_labels_bounds(buf, 0);
    if let Some((name, p)) = parse_labels(buf) {
        if p + 4 <= buf.len() {
            let tv = be_u16(buf[p], buf[p + 1]);
            let cv = be_u16(buf[p + 2], buf[p + 3]);
            assert(tv == buf[p] * 256 + buf[p + 1]);
            assert(cv == buf[p + 2] * 256 + buf[p + 3]);
            if let Some(t) = rr_type_from_code(tv) {
                lemma_rr_type_decode_inverts_encode(tv, t);
            } else {
                lemma_rr_type_decode_inverts_encode(tv, RRType::A);
            }
            if let Some(c) = rr_class_from_code(cv) {
                lemma_rr_class_decode_inverts_encode(cv, c);
            } else {
                lemma_rr_class_decode_inverts_encode(cv, RRClass::IN);
            }
        }
    }
}

} // verus!
