/*
   +---------------------+
   |        Header       |
   +---------------------+
   |       Question      | the question for the name server
   +---------------------+
   |        Answer       | RRs answering the question
   +---------------------+
   |      Authority      | RRs pointing toward an authority
   +---------------------+
   |      Additional     | RRs holding additional information
   +---------------------+
*/

pub mod header;
pub mod question;

use crate::protocol::message::header::{MessageHeader, MessageHeaderType};
use crate::protocol::message::question::{
    empty_question, encode_question, lemma_encode_parsed_question, lemma_parse_encoded_question,
    lemma_parse_question_len, parse_question, Question, QuestionModel,
};
use crate::protocol::octets::{append_bytes, be_u16};
use crate::protocol::rr::{
    encode_records, labels_fit, lemma_encode_parsed_records, lemma_parse_encoded_records,
    lemma_parse_records_count, lemma_parse_records_len, lemma_parse_records_len_ge, parse_records, records_fit, RRFormat,
    RecordModel,
};
use vstd::prelude::*;

verus! {

/// The mathematical content of a message.
#[verifier::ext_equal]
pub struct PacketModel {
    pub header: Seq<u8>,
    pub question: QuestionModel,
    pub answer: Seq<RecordModel>,
    pub authority: Seq<RecordModel>,
    pub additional: Seq<RecordModel>,
}

/// ANCOUNT of a header.
pub open spec fn an_count(h: Seq<u8>) -> u16 {
    be_u16(h[6], h[7])
}

/// NSCOUNT of a header.
pub open spec fn ns_count(h: Seq<u8>) -> u16 {
    be_u16(h[8], h[9])
}

/// ARCOUNT of a header.
pub open spec fn ar_count(h: Seq<u8>) -> u16 {
    be_u16(h[10], h[11])
}

/// Wire form of a message: the header octets, the question, then the records of
/// the answer, authority and additional sections.
pub open spec fn encode_packet(p: PacketModel) -> Seq<u8> {
    p.header + encode_question(p.question) + encode_records(p.answer) + encode_records(
        p.authority,
    ) + encode_records(p.additional)
}

/// Decoding the message at the start of `buf`: the twelve header octets, one
/// question, then as many records in each section as the header's ANCOUNT,
/// NSCOUNT and ARCOUNT say; with the number of octets all of it takes.
pub open spec fn parse_packet(buf: Seq<u8>) -> Option<(PacketModel, int)> {
    if buf.len() < 12 {
        None
    } else {
        let h = buf.subrange(0, 12);
        match parse_question(buf.skip(12)) {
            None => None,
            Some((question, q)) => {
                let s1 = 12 + q;
                match parse_records(buf.skip(s1), an_count(h) as nat) {
                    None => None,
                    Some((answer, n1)) => {
                        let s2 = s1 + n1;
                        match parse_records(buf.skip(s2), ns_count(h) as nat) {
                            None => None,
                            Some((authority, n2)) => {
                                let s3 = s2 + n2;
                                match parse_records(buf.skip(s3), ar_count(h) as nat) {
                                    None => None,
                                    Some((additional, n3)) => Some(
                                        (
                                            PacketModel {
                                                header: h,
                                                question,
                                                answer,
                                                authority,
                                                additional,
                                            },
                                            s3 + n3,
                                        ),
                                    ),
                                }
                            },
                        }
                    },
                }
            },
        }
    }
}

/// A DNS message: header, question, and the answer, authority and additional
/// sections.
#[derive(Debug)]
pub struct DNSpacket {
    header: MessageHeader,
    question: Question,
    answer: RRFormat,
    authority: RRFormat,
    additional: RRFormat,
}

impl View for DNSpacket {
    type V = PacketModel;

    closed spec fn view(&self) -> PacketModel {
        PacketModel {
            header: self.header@,
            question: self.question@,
            answer: self.answer@,
            authority: self.authority@,
            additional: self.additional@,
        }
    }
}

impl Default for DNSpacket {
    fn default() -> (p: Self)
        ensures
            p@ == (PacketModel {
                header: Seq::new(12, |i: int| 0u8),
                question: empty_question(),
                answer: Seq::empty(),
                authority: Seq::empty(),
                additional: Seq::empty(),
            }),
    {
        DNSpacket {
            header: MessageHeader::default(),
            question: Question::default(),
            answer: RRFormat::new(0),
            authority: RRFormat::new(0),
            additional: RRFormat::new(0),
        }
    }
}

impl DNSpacket {
    /// Reads the message at the start of `buffer`, or `None` where the original
    /// reader would fail (fewer than twelve octets, a question or a record that
    /// cannot be read).
    pub fn parse(buffer: &[u8]) -> (res: Option<Self>)
        ensures
            res is Some <==> parse_packet(buffer@) is Some,
            res matches Some(p) ==> parse_packet(buffer@) matches Some((m, _)) && p@ == m,
    {
        if buffer.len() < 12 {
            return None;
        }
        let mut header_buffer = [0u8; 12];
        let mut i: usize = 0;
        while i < 12
            invariant
                i <= 12,
                buffer@.len() >= 12,
                forall|j: int| 0 <= j < i ==> header_buffer@[j] == buffer@[j],
            decreases 12 - i,
        {
            header_buffer[i] = buffer[i];
            i = i + 1;
        }
        let mut header = MessageHeader::default();
        header.from(header_buffer);
        assert(header@ =~= buffer@.subrange(0, 12));
        proof {
            header.lemma_len();
        }
        let mut an = MessageHeaderType::AnCount(0);
        let mut ns = MessageHeaderType::NsCount(0);
        let mut ar = MessageHeaderType::ArCount(0);
        header.get_message_header_value(&mut an);
        header.get_message_header_value(&mut ns);
        header.get_message_header_value(&mut ar);
        let an = an.get_count();
        let ns = ns.get_count();
        let ar = ar.get_count();

        let rest: &[u8] = &buffer[12..buffer.len()];
        assert(rest@ =~= buffer@.skip(12));
        let (question, q) = match Question::parse(rest) {
            Some(x) => x,
            None => {
                return None;
            },
        };
        proof {
            lemma_parse_question_len(rest@);
        }
        let start = 12 + q;
        let rest: &[u8] = &buffer[start..buffer.len()];
        assert(rest@ =~= buffer@.skip(start as int));
        let (answer, n1) = match RRFormat::parse_section(an, rest) {
            Some(x) => x,
            None => {
                return None;
            },
        };
        proof {
            lemma_parse_records_len(rest@, an as nat);
        }
        let start = start + n1;
        let rest: &[u8] = &buffer[start..buffer.len()];
        assert(rest@ =~= buffer@.skip(start as int));
        let (authority, n2) = match RRFormat::parse_section(ns, rest) {
            Some(x) => x,
            None => {
                return None;
            },
        };
        proof {
            lemma_parse_records_len(rest@, ns as nat);
        }
        let start = start + n2;
        let rest: &[u8] = &buffer[start..buffer.len()];
        assert(rest@ =~= buffer@.skip(start as int));
        let (additional, _) = match RRFormat::parse_section(ar, rest) {
            Some(x) => x,
            None => {
                return None;
            },
        };
        Some(DNSpacket { header, question, answer, authority, additional })
    }

    /// Reads the message at the start of `buffer`.
    pub fn from_buffer(buffer: &[u8]) -> (p: Self)
        requires
            parse_packet(buffer@) is Some,
        ensures
            parse_packet(buffer@) matches Some((m, _)) && p@ == m,
    {
        Self::parse(buffer).unwrap()
    }

    /// The header of the message.
    pub fn header(&self) -> (h: &MessageHeader)
        ensures
            h@ == self@.header,
    {
        &self.header
    }

    /// The question of the message.
    pub fn question(&self) -> (q: &Question)
        ensures
            q@ == self@.question,
    {
        &self.question
    }

    /// The answer section.
    pub fn answer(&self) -> (s: &RRFormat)
        ensures
            s@ == self@.answer,
    {
        &self.answer
    }

    /// The authority section.
    pub fn authority(&self) -> (s: &RRFormat)
        ensures
            s@ == self@.authority,
    {
        &self.authority
    }

    /// The additional section.
    pub fn additional(&self) -> (s: &RRFormat)
        ensures
            s@ == self@.additional,
    {
        &self.additional
    }

    /// The wire form of the message.
    pub fn to_buffer(&self) -> (out: Vec<u8>)
        ensures
            out@ == encode_packet(self@),
    {
        let mut out: Vec<u8> = Vec::new();
        append_bytes(&mut out, self.header.to_buffer());
        append_bytes(&mut out, self.question.to_buffer().as_slice());
        append_bytes(&mut out, self.answer.to_buffer().as_slice());
        append_bytes(&mut out, self.authority.to_buffer().as_slice());
        append_bytes(&mut out, self.additional.to_buffer().as_slice());
        out
    }
}

/// A header whose section counters give the number of records in each section.
pub open spec fn counts_match(p: PacketModel) -> bool {
    &&& p.header.len() == 12
    &&& an_count(p.header) == p.answer.len()
    &&& ns_count(p.header) == p.authority.len()
    &&& ar_count(p.header) == p.additional.len()
}

/// Reading back a message that was written gives the same message, when its
/// counters match its sections and its question and records survive the wire.
pub proof fn lemma_parse_encoded_packet(p: PacketModel, rest: Seq<u8>)
    requires
        counts_match(p),
        labels_fit(p.question.qname),
        records_fit(p.answer),
        records_fit(p.authority),
        records_fit(p.additional),
    ensures
        parse_packet(encode_packet(p) + rest) == Some((p, encode_packet(p).len() as int)),
{
    let buf = encode_packet(p) + rest;
    let eq = encode_question(p.question);
    let ea = encode_records(p.answer);
    let en = encode_records(p.authority);
    let ed = encode_records(p.additional);
    let h = buf.subrange(0, 12);
    assert(h =~= p.header);
    let s1: int = 12 + eq.len() as int;
    let s2: int = s1 + ea.len();
    let s3: int = s2 + en.len();
    assert(buf.skip(12) =~= eq + (ea + en + ed + rest));
    lemma_parse_encoded_question(p.question, ea + en + ed + rest);
    assert(parse_question(buf.skip(12)) == Some((p.question, eq.len() as int)));
    assert(buf.skip(s1) =~= ea + (en + ed + rest));
    lemma_parse_encoded_records(p.answer, en + ed + rest);
    assert(parse_records(buf.skip(s1), an_count(h) as nat) == Some((p.answer, ea.len() as int)));
    assert(buf.skip(s2) =~= en + (ed + rest));
    lemma_parse_encoded_records(p.authority, ed + rest);
    assert(parse_records(buf.skip(s2), ns_count(h) as nat) == Some((p.authority, en.len() as int)));
    assert(buf.skip(s3) =~= ed + rest);
    lemma_parse_encoded_records(p.additional, rest);
    assert(parse_records(buf.skip(s3), ar_count(h) as nat) == Some((p.additional, ed.len() as int)));
    assert(encode_packet(p).len() == s3 + ed.len());
}

/// A message read from a buffer without name compression (it takes exactly as
/// many octets as its wire form) is written back as the very octets it was read
/// from.
pub proof fn lemma_encode_parsed_packet(buf: Seq<u8>)
    requires
        parse_packet(buf) matches Some((p, n)) && n == encode_packet(p).len(),
    ensures
        parse_packet(buf) matches Some((p, n)) && buf.subrange(0, n) == encode_packet(p),
{
    let (p, n) = parse_packet(buf).unwrap();
    let h = buf.subrange(0, 12);
    let (question, q) = parse_question(buf.skip(12)).unwrap();
    let s1 = 12 + q;
    let (answer, n1) = parse_records(buf.skip(s1), an_count(h) as nat).unwrap();
    let s2 = s1 + n1;
    let (authority, n2) = parse_records(buf.skip(s2), ns_count(h) as nat).unwrap();
    let s3 = s2 + n2;
    let (additional, n3) = parse_records(buf.skip(s3), ar_count(h) as nat).unwrap();
    lemma_parse_question_len(buf.skip(12));
    lemma_parse_records_len(buf.skip(s1), an_count(h) as nat);
    lemma_parse_records_len(buf.skip(s2), ns_count(h) as nat);
    lemma_parse_records_len(buf.skip(s3), ar_count(h) as nat);
    lemma_parse_records_len_ge(buf.skip(s1), an_count(h) as nat);
    lemma_parse_records_len_ge(buf.skip(s2), ns_count(h) as nat);
    lemma_parse_records_len_ge(buf.skip(s3), ar_count(h) as nat);
    assert(q == encode_question(question).len());
    assert(n1 == encode_records(answer).len());
    assert(n2 == encode_records(authority).len());
    assert(n3 == encode_records(additional).len());
    lemma_encode_parsed_question(buf.skip(12));
    lemma_encode_parsed_records(buf.skip(s1), an_count(h) as nat);
    lemma_encode_parsed_records(buf.skip(s2), ns_count(h) as nat);
    lemma_encode_parsed_records(buf.skip(s3), ar_count(h) as nat);
    assert(buf.subrange(0, n) =~= h + buf.skip(12).subrange(0, q) + buf.skip(s1).subrange(0, n1)
        + buf.skip(s2).subrange(0, n2) + buf.skip(s3).subrange(0, n3));
}

/// A message read from a buffer is its first twelve octets as header, the
/// question read right after them, and then, one after the other, sections of
/// exactly ANCOUNT, NSCOUNT and ARCOUNT records, each read where the previous
/// part ended; it ends after the additional section.  A message is read exactly
/// when the buffer holds a header and each of these parts can be read.
pub proof fn lemma_parse_packet_parts(buf: Seq<u8>)
    ensures
        parse_packet(buf) matches Some((m, n)) ==> (m.header == buf.subrange(0, 12) && (
        parse_question(buf.skip(12)) matches Some((q, qn)) && (m.question == q && (parse_records(
            buf.skip(12 + qn),
            an_count(m.header) as nat,
        ) matches Some((an, n1)) && (m.answer == an && (parse_records(
            buf.skip(12 + qn + n1),
            ns_count(m.header) as nat,
        ) matches Some((ns, n2)) && (m.authority == ns && (parse_records(
            buf.skip(12 + qn + n1 + n2),
            ar_count(m.header) as nat,
        ) matches Some((ar, n3)) && m.additional == ar && n == 12 + qn + n1 + n2 + n3)))))))),
        parse_packet(buf) matches Some((m, n)) ==> m.header.len() == 12 && m.answer.len()
            == an_count(m.header) && m.authority.len() == ns_count(m.header) && m.additional.len()
            == ar_count(m.header) && n <= buf.len(),
        (parse_packet(buf) is Some) <==> (buf.len() >= 12 && (parse_question(buf.skip(12)) matches Some(
            (q, qn),
        ) && (parse_records(buf.skip(12 + qn), an_count(buf.subrange(0, 12)) as nat) matches Some(
            (an, n1),
        ) && (parse_records(buf.skip(12 + qn + n1), ns_count(buf.subrange(0, 12)) as nat) matches Some(
            (ns, n2),
        ) && parse_records(buf.skip(12 + qn + n1 + n2), ar_count(buf.subrange(0, 12)) as nat) is Some)))),
{
    if buf.len() >= 12 {
        let h = buf.subrange(0, 12);
        if let Some((q, qn)) = parse_question(buf.skip(12)) {
            lemma_parse_question_len(buf.skip(12));
            let s1 = 12 + qn;
            lemma_parse_records_count(buf.skip(s1), an_count(h) as nat);
            lemma_parse_records_len(buf.skip(s1), an_count(h) as nat);
            if let Some((an, n1)) = parse_records(buf.skip(s1), an_count(h) as nat) {
                let s2 = s1 + n1;
                lemma_parse_records_count(buf.skip(s2), ns_count(h) as nat);
                lemma_parse_records_len(buf.skip(s2), ns_count(h) as nat);
                if let Some((ns, n2)) = parse_records(buf.skip(s2), ns_count(h) as nat) {
                    let s3 = s2 + n2;
                    lemma_parse_records_count(buf.skip(s3), ar_count(h) as nat);
                    lemma_parse_records_len(buf.skip(s3), ar_count(h) as nat);
                }
            }
        }
    }
}

} // verus!
