use crate::protocol::octets::{
    append_bytes, be_u16, be_u32, lemma_be_u16_octets, lemma_be_u32_octets,
    lemma_u16_be_roundtrip, lemma_u32_be_roundtrip, push_u16_be, push_u32_be, u16_be, u32_be,
};
use vstd::prelude::*;
use vstd::utf8::{
    decode_utf8, decode_utf8_encode_utf8, encode_utf8, encode_utf8_decode_utf8,
    encode_utf8_valid_utf8, valid_utf8,
};

verus! {

/// QTYPE fields appear in the question part of a query.  They are a superset of
/// the record types: every `RRType` is a valid QTYPE.
#[derive(Clone, Copy)]
pub enum Qtype {
    /// one of the record types
    Other(RRType),
    /// a request for a transfer of an entire zone
    AXFR,
    /// a request for all records
    ALL,
}

/// The 16-bit wire code of a QTYPE.
pub open spec fn qtype_code(q: Qtype) -> u16 {
    match q {
        Qtype::Other(t) => rr_type_code(t),
        Qtype::AXFR => 252,
        Qtype::ALL => 255,
    }
}

impl Qtype {
    /// The 16-bit wire code of this QTYPE.
    pub fn code(&self) -> (c: u16)
        ensures
            c == qtype_code(*self),
    {
        match self {
            Qtype::Other(t) => t.code(),
            Qtype::AXFR => 252,
            Qtype::ALL => 255,
        }
    }
}

/// TYPE fields used in resource records; they are a subset of the QTYPE codes.
#[derive(Debug, Clone, Copy, PartialEq, Eq, Structural)]
pub enum RRType {
    /// a host address
    A,
    /// an authoritative name server
    NS,
    /// the canonical name for an alias
    CNAME,
    /// marks the start of a zone of authority
    SOA,
    /// a domain name pointer
    PTR,
    /// text strings
    TXT,
    /// an IPv6 host address
    AAAA,
}

/// The 16-bit wire code of a record type.
pub open spec fn rr_type_code(t: RRType) -> u16 {
    match t {
        RRType::A => 1,
        RRType::NS => 2,
        RRType::CNAME => 5,
        RRType::SOA => 6,
        RRType::PTR => 12,
        RRType::TXT => 16,
        RRType::AAAA => 28,
    }
}

/// The record type whose wire code is `v`, if there is one.
pub open spec fn rr_type_from_code(v: u16) -> Option<RRType> {
    if v == 1 {
        Some(RRType::A)
    } else if v == 2 {
        Some(RRType::NS)
    } else if v == 5 {
        Some(RRType::CNAME)
    } else if v == 6 {
        Some(RRType::SOA)
    } else if v == 12 {
        Some(RRType::PTR)
    } else if v == 16 {
        Some(RRType::TXT)
    } else if v == 28 {
        Some(RRType::AAAA)
    } else {
        None
    }
}

impl RRType {
    /// The 16-bit wire code of this type.
    pub fn code(&self) -> (c: u16)
        ensures
            c == rr_type_code(*self),
            *self == RRType::A ==> c == 1,
            *self == RRType::NS ==> c == 2,
            *self == RRType::CNAME ==> c == 5,
            *self == RRType::SOA ==> c == 6,
            *self == RRType::PTR ==> c == 12,
            *self == RRType::TXT ==> c == 16,
            *self == RRType::AAAA ==> c == 28,
    {
        match self {
            RRType::A => 1,
            RRType::NS => 2,
            RRType::CNAME => 5,
            RRType::SOA => 6,
            RRType::PTR => 12,
            RRType::TXT => 16,
            RRType::AAAA => 28,
        }
    }
}

impl TryFrom<u16> for RRType {
    type Error = u16;

    fn try_from(v: u16) -> (r: Result<Self, Self::Error>)
        ensures
            r matches Ok(t) ==> rr_type_code(t) == v,
            r is Err ==> r == Err::<RRType, u16>(v) && forall|t: RRType| rr_type_code(t) != v,
    {
        match v {
            1 => Ok(RRType::A),
            2 => Ok(RRType::NS),
            5 => Ok(RRType::CNAME),
            6 => Ok(RRType::SOA),
            12 => Ok(RRType::PTR),
            16 => Ok(RRType::TXT),
            28 => Ok(RRType::AAAA),
            _ => Err(v),
        }
    }
}

impl vstd::std_specs::convert::TryFromSpecImpl<u16> for RRType {
    open spec fn obeys_try_from_spec() -> bool {
        true
    }

    open spec fn try_from_spec(v: u16) -> Result<Self, u16> {
        match rr_type_from_code(v) {
            Some(t) => Ok(t),
            None => Err(v),
        }
    }
}

/// The record type codes are those of RFC 1035 (and RFC 3596 for AAAA).
pub proof fn lemma_rr_type_codes_rfc()
    ensures
        rr_type_code(RRType::A) == 1,
        rr_type_code(RRType::NS) == 2,
        rr_type_code(RRType::CNAME) == 5,
        rr_type_code(RRType::SOA) == 6,
        rr_type_code(RRType::PTR) == 12,
        rr_type_code(RRType::TXT) == 16,
        rr_type_code(RRType::AAAA) == 28,
{
}

/// Decoding a type code is the inverse of encoding: a code decodes to a type
/// exactly when that type is written with that code.
pub proof fn lemma_rr_type_decode_inverts_encode(v: u16, t: RRType)
    ensures
        rr_type_from_code(v) == Some(t) <==> rr_type_code(t) == v,
        rr_type_from_code(v) is None <==> forall|u: RRType| rr_type_code(u) != v,
{
    if rr_type_from_code(v) is None {
        assert forall|u: RRType| rr_type_code(u) != v by {
            lemma_rr_type_code_roundtrip(u);
        }
    } else {
        lemma_rr_type_code_roundtrip(rr_type_from_code(v).unwrap());
    }
    lemma_rr_type_code_roundtrip(t);
}

/// Decoding a wire code gives back the type that was encoded.
pub proof fn lemma_rr_type_code_roundtrip(t: RRType)
    ensures
        rr_type_from_code(rr_type_code(t)) == Some(t),
{
}


/// CLASS fields appear in resource records.
#[derive(Debug, Clone, Copy, PartialEq, Eq, Structural)]
pub enum RRClass {
    /// The internet (mostly used)
    IN,
    /// The CHAOS class
    CH,
    /// Hesiod
    HS,
    /// any class; QCLASS fields appear in the question section of a query.
    ALL,
}

/// The 16-bit wire code of a record class.
pub open spec fn rr_class_code(c: RRClass) -> u16 {
    match c {
        RRClass::IN => 1,
        RRClass::CH => 3,
        RRClass::HS => 4,
        RRClass::ALL => 255,
    }
}

/// The record class whose wire code is `v`, if there is one.
pub open spec fn rr_class_from_code(v: u16) -> Option<RRClass> {
    if v == 1 {
        Some(RRClass::IN)
    } else if v == 3 {
        Some(RRClass::CH)
    } else if v == 4 {
        Some(RRClass::HS)
    } else if v == 255 {
        Some(RRClass::ALL)
    } else {
        None
    }
}

impl RRClass {
    /// The 16-bit wire code of this class.
    pub fn code(&self) -> (c: u16)
        ensures
            c == rr_class_code(*self),
            *self == RRClass::IN ==> c == 1,
            *self == RRClass::CH ==> c == 3,
            *self == RRClass::HS ==> c == 4,
            *self == RRClass::ALL ==> c == 255,
    {
        match self {
            RRClass::IN => 1,
            RRClass::CH => 3,
            RRClass::HS => 4,
            RRClass::ALL => 255,
        }
    }
}

impl TryFrom<u16> for RRClass {
    type Error = u16;

    fn try_from(v: u16) -> (r: Result<Self, Self::Error>)
        ensures
            r matches Ok(c) ==> rr_class_code(c) == v,
            r is Err ==> r == Err::<RRClass, u16>(v) && forall|c: RRClass| rr_class_code(c) != v,
    {
        match v {
            1 => Ok(RRClass::IN),
            3 => Ok(RRClass::CH),
            4 => Ok(RRClass::HS),
            255 => Ok(RRClass::ALL),
            _ => Err(v),
        }
    }
}

impl vstd::std_specs::convert::TryFromSpecImpl<u16> for RRClass {
    open spec fn obeys_try_from_spec() -> bool {
        true
    }

    open spec fn try_from_spec(v: u16) -> Result<Self, u16> {
        match rr_class_from_code(v) {
            Some(c) => Ok(c),
            None => Err(v),
        }
    }
}

/// The class codes are those of RFC 1035.
pub proof fn lemma_rr_class_codes_rfc()
    ensures
        rr_class_code(RRClass::IN) == 1,
        rr_class_code(RRClass::CH) == 3,
        rr_class_code(RRClass::HS) == 4,
        rr_class_code(RRClass::ALL) == 255,
{
}

/// Decoding a class code is the inverse of encoding.
pub proof fn lemma_rr_class_decode_inverts_encode(v: u16, c: RRClass)
    ensures
        rr_class_from_code(v) == Some(c) <==> rr_class_code(c) == v,
        rr_class_from_code(v) is None <==> forall|u: RRClass| rr_class_code(u) != v,
{
    if rr_class_from_code(v) is None {
        assert forall|u: RRClass| rr_class_code(u) != v by {
            lemma_rr_class_code_roundtrip(u);
        }
    } else {
        lemma_rr_class_code_roundtrip(rr_class_from_code(v).unwrap());
    }
    lemma_rr_class_code_roundtrip(c);
}

/// Decoding a class code gives back the class that was encoded.
pub proof fn lemma_rr_class_code_roundtrip(c: RRClass)
    ensures
        rr_class_from_code(rr_class_code(c)) == Some(c),
{
}

/// Decoding a 16-bit code and encoding the result again gives back the code.
pub proof fn lemma_rr_codes_from_wire(v: u16)
    ensures
        rr_type_from_code(v) matches Some(t) ==> rr_type_code(t) == v,
        rr_class_from_code(v) matches Some(c) ==> rr_class_code(c) == v,
{
}

// ---------------------------------------------------------------------------
// Domain names as sequences of labels
// ---------------------------------------------------------------------------

/// Wire form of one label: a length octet followed by the label's UTF-8 bytes.
/// The length octet keeps the low eight bits of the byte count.
pub open spec fn encode_label(l: Seq<char>) -> Seq<u8> {
    seq![(encode_utf8(l).len() % 256) as u8] + encode_utf8(l)
}

/// The labels of `ls`, each in its wire form, one after the other.
pub open spec fn encode_label_list(ls: Seq<Seq<char>>) -> Seq<u8>
    decreases ls.len(),
{
    if ls.len() == 0 {
        Seq::empty()
    } else {
        encode_label_list(ls.drop_last()) + encode_label(ls.last())
    }
}

/// Wire form of a domain name: its labels followed by the zero octet.
pub open spec fn encode_labels(ls: Seq<Seq<char>>) -> Seq<u8> {
    encode_label_list(ls) + seq![0u8]
}

/// A label survives the wire: it has between 1 and 191 UTF-8 bytes, so its
/// length octet is neither the terminator nor a compression pointer.
pub open spec fn label_fits(l: Seq<char>) -> bool {
    1 <= encode_utf8(l).len() <= 191
}

/// Every label of `ls` survives the wire.
pub open spec fn labels_fit(ls: Seq<Seq<char>>) -> bool {
    forall|i: int| 0 <= i < ls.len() ==> label_fits(#[trigger] ls[i])
}

/// Decoding the name that starts at offset `start` of `buf`: the labels read and
/// the offset just past the name.  A zero octet ends the name; an octet with its
/// two top bits set starts a two-octet compression pointer, which ends the name
/// without being followed.  Any other octet is the length of a label whose bytes
/// must lie inside `buf` and be valid UTF-8.
pub open spec fn parse_labels_at(buf: Seq<u8>, start: int) -> Option<(Seq<Seq<char>>, int)>
    decreases buf.len() - start,
{
    if start < 0 || start >= buf.len() {
        None
    } else {
        let num = buf[start];
        if num == 0 {
            Some((Seq::empty(), start + 1))
        } else if num >= 0xC0 {
            Some((Seq::empty(), start + 2))
        } else {
            let end = start + 1 + num;
            if end > buf.len() {
                None
            } else if !valid_utf8(buf.subrange(start + 1, end)) {
                None
            } else {
                match parse_labels_at(buf, end) {
                    Some((rest, fin)) => Some(
                        (seq![decode_utf8(buf.subrange(start + 1, end))] + rest, fin),
                    ),
                    None => None,
                }
            }
        }
    }
}

/// The name at the start of `buf`.
pub open spec fn parse_labels(buf: Seq<u8>) -> Option<(Seq<Seq<char>>, int)> {
    parse_labels_at(buf, 0)
}

/// The name at the start of `buf` can be read by this machine: it decodes and the
/// offset past it is a `usize`.
pub open spec fn labels_parse_ok(buf: Seq<u8>) -> bool {
    parse_labels(buf) matches Some((_, fin)) && fin <= usize::MAX
}

/// Prefixes the labels already read to the result of reading the rest.
pub open spec fn prepend_labels(
    acc: Seq<Seq<char>>,
    r: Option<(Seq<Seq<char>>, int)>,
) -> Option<(Seq<Seq<char>>, int)> {
    match r {
        Some((rest, fin)) => Some((acc + rest, fin)),
        None => None,
    }
}

/// The bytes of a UTF-8 string, or `None` where `bytes` is not valid UTF-8.
/// Wraps `std::str::from_utf8`, which the standard library documents to succeed
/// exactly on valid UTF-8 and then to view the same bytes as a `str`.
#[verifier::external_body]
fn str_from_utf8(bytes: &[u8]) -> (res: Option<&str>)
    ensures
        res is Some <==> valid_utf8(bytes@),
        res matches Some(s) ==> s@ == decode_utf8(bytes@),
{
    std::str::from_utf8(bytes).ok()
}

/// A domain name: a sequence of labels.
#[derive(Debug, PartialEq)]
pub struct Labels {
    label: Vec<String>,
}

impl View for Labels {
    type V = Seq<Seq<char>>;

    closed spec fn view(&self) -> Seq<Seq<char>> {
        self.label@.map_values(|s: String| s@)
    }
}

impl Default for Labels {
    fn default() -> (l: Self)
        ensures
            l@ == Seq::<Seq<char>>::empty(),
    {
        let l = Labels { label: Vec::new() };
        assert(l@ =~= Seq::<Seq<char>>::empty());
        l
    }
}

impl Labels {
    /// Appends a label to the name.
    pub fn add_name(&mut self, name: String)
        ensures
            final(self)@ == old(self)@.push(name@),
    {
        self.label.push(name);
        assert(self@ =~= old(self)@.push(name@));
    }

    /// The wire form of the name.
    pub fn out(&self) -> (out: Vec<u8>)
        ensures
            out@ == encode_labels(self@),
    {
        let mut out: Vec<u8> = Vec::new();
        let mut i: usize = 0;
        while i < self.label.len()
            invariant
                i <= self.label@.len(),
                self@.len() == self.label@.len(),
                out@ == encode_label_list(self@.take(i as int)),
            decreases self.label@.len() - i,
        {
            let l: &str = self.label[i].as_str();
            let bytes: &[u8] = l.as_bytes();
            assert(l@ == self@[i as int]);
            out.push((bytes.len() % 256) as u8);
            append_bytes(&mut out, bytes);
            i = i + 1;
            assert(self@.take(i as int).drop_last() =~= self@.take(i - 1 as int));
        }
        assert(self@.take(i as int) =~= self@);
        out.push(0);
        out
    }

    /// The number of labels.
    pub fn get_len(&self) -> (n: usize)
        ensures
            n == self@.len(),
    {
        self.label.len()
    }

    /// Reads the name at the start of `buffer`, or `None` where the original
    /// reader would fail: a label that runs past the buffer, a label that is not
    /// UTF-8, or a buffer that ends before the terminator.
    pub fn parse(buffer: &[u8]) -> (res: Option<(Labels, usize)>)
        ensures
            res is Some <==> labels_parse_ok(buffer@),
            res matches Some((l, n)) ==> parse_labels(buffer@) == Some((l@, n as int)),
    {
        let mut labels = Labels::default();
        let mut start: usize = 0;
        loop
            invariant
                start <= buffer@.len(),
                parse_labels(buffer@) == prepend_labels(labels@, parse_labels_at(buffer@, start as int)),
            decreases buffer@.len() - start,
        {
            if start >= buffer.len() {
                return None;
            }
            let num: u8 = buffer[start];
            if num == 0 {
                assert(labels@ + Seq::<Seq<char>>::empty() =~= labels@);
                return Some((labels, start + 1));
            }
            assert(num & 0xC0 == 0xC0 <==> num >= 0xC0) by (bit_vector);
            if num & 0xC0 == 0xC0 {
                assert(labels@ + Seq::<Seq<char>>::empty() =~= labels@);
                if start > usize::MAX - 2 {
                    return None;
                }
                return Some((labels, start + 2));
            }
            let n: usize = num as usize;
            if n > buffer.len() - start - 1 {
                return None;
            }
            let end: usize = start + 1 + n;
            let slice: &[u8] = &buffer[start + 1..end];
            match str_from_utf8(slice) {
                None => {
                    return None;
                },
                Some(s) => {
                    let ghost old_labels = labels@;
                    labels.add_name(s.to_owned());
                    proof {
                        match parse_labels_at(buffer@, end as int) {
                            Some((rest, fin)) => {
                                assert(old_labels + (seq![decode_utf8(slice@)] + rest) =~= labels@ + rest);
                            },
                            None => {},
                        }
                    }
                    start = end;
                },
            }
        }
    }

    /// Reads the name at the start of `buffer`: its labels and the number of
    /// octets it takes (two for a compression pointer, which is not followed).
    pub fn from_buffer(buffer: &[u8]) -> (res: (Self, usize))
        requires
            labels_parse_ok(buffer@),
        ensures
            parse_labels(buffer@) == Some((res.0@, res.1 as int)),
    {
        Self::parse(buffer).unwrap()
    }
}

/// A name read from `buf` ends after it starts, and at most one octet past the
/// end of the buffer.
pub proof fn lemma_parse_labels_bounds(buf: Seq<u8>, start: int)
    ensures
        parse_labels_at(buf, start) matches Some((_, fin)) ==> start < fin <= buf.len() + 1,
    decreases buf.len() - start,
{
    if 0 <= start < buf.len() {
        let num = buf[start];
        if num != 0 && num < 0xC0 && start + 1 + num <= buf.len() {
            lemma_parse_labels_bounds(buf, start + 1 + num);
        }
    }
}

/// The label list of a non-empty name starts with the wire form of its first label.
pub proof fn lemma_encode_label_list_front(ls: Seq<Seq<char>>)
    requires
        ls.len() > 0,
    ensures
        encode_label_list(ls) == encode_label(ls[0]) + encode_label_list(ls.drop_first()),
    decreases ls.len(),
{
    if ls.len() == 1 {
        assert(ls.drop_last() =~= Seq::<Seq<char>>::empty());
        assert(ls.drop_first() =~= Seq::<Seq<char>>::empty());
        assert(encode_label_list(ls) =~= encode_label(ls[0]) + encode_label_list(ls.drop_first()));
    } else {
        lemma_encode_label_list_front(ls.drop_last());
        assert(ls.drop_last().drop_first() =~= ls.drop_first().drop_last());
        assert(ls.drop_first().last() == ls.last());
        assert(ls.drop_last()[0] == ls[0]);
        assert(encode_label_list(ls) =~= encode_label(ls[0]) + encode_label_list(ls.drop_first()));
    }
}

/// Reading back a name that was written gives the same labels, and ends just
/// past the name, whatever follows it in the buffer.
pub proof fn lemma_parse_encoded_labels(ls: Seq<Seq<char>>, buf: Seq<u8>, start: int)
    requires
        labels_fit(ls),
        0 <= start,
        start + encode_labels(ls).len() <= buf.len(),
        buf.subrange(start, start + encode_labels(ls).len()) == encode_labels(ls),
    ensures
        parse_labels_at(buf, start) == Some((ls, start + encode_labels(ls).len())),
    decreases ls.len(),
{
    let enc = encode_labels(ls);
    assert(buf[start] == enc[0]) by {
        assert(buf.subrange(start, start + enc.len())[0] == buf[start]);
    }
    if ls.len() == 0 {
        assert(enc =~= seq![0u8]);
    } else {
        lemma_encode_label_list_front(ls);
        let l = ls[0];
        let b = encode_utf8(l);
        assert(label_fits(ls[0]));
        let tail = ls.drop_first();
        assert(enc =~= seq![(b.len() % 256) as u8] + b + encode_labels(tail));
        let num = buf[start];
        assert(num == b.len());
        let end = start + 1 + num;
        assert(buf.subrange(start + 1, end) =~= b) by {
            assert forall|i: int| 0 <= i < b.len() implies buf.subrange(start + 1, end)[i] == b[i] by {
                assert(buf.subrange(start, start + enc.len())[1 + i] == enc[1 + i]);
            }
        }
        encode_utf8_valid_utf8(l);
        encode_utf8_decode_utf8(l);
        assert(labels_fit(tail)) by {
            assert forall|i: int| 0 <= i < tail.len() implies label_fits(#[trigger] tail[i]) by {
                assert(tail[i] == ls[i + 1]);
            }
        }
        assert(buf.subrange(end, end + encode_labels(tail).len()) =~= encode_labels(tail)) by {
            assert forall|i: int| 0 <= i < encode_labels(tail).len() implies buf.subrange(
                end,
                end + encode_labels(tail).len(),
            )[i] == encode_labels(tail)[i] by {
                assert(buf.subrange(start, start + enc.len())[1 + b.len() + i] == enc[1 + b.len() + i]);
            }
        }
        lemma_parse_encoded_labels(tail, buf, end);
        assert(seq![l] + tail =~= ls);
    }
}

/// A name read from a buffer that ends in the zero octet (no compression pointer:
/// then it takes exactly as many octets as its wire form) is written back as the
/// very octets it was read from, and each of its labels survives the wire.
pub proof fn lemma_encode_parsed_labels(buf: Seq<u8>, start: int)
    requires
        parse_labels_at(buf, start) matches Some((ls, fin)) && fin - start == encode_labels(
            ls,
        ).len(),
    ensures
        parse_labels_at(buf, start) matches Some((ls, fin)) && fin <= buf.len() && labels_fit(ls)
            && buf.subrange(start, fin) == encode_labels(ls),
    decreases buf.len() - start,
{
    let (ls, fin) = parse_labels_at(buf, start).unwrap();
    let num = buf[start];
    if num == 0 {
        assert(buf.subrange(start, fin) =~= encode_labels(ls));
    } else if num >= 0xC0 {
        assert(false);
    } else {
        let end = start + 1 + num;
        let bytes = buf.subrange(start + 1, end);
        let d = decode_utf8(bytes);
        decode_utf8_encode_utf8(bytes);
        let (rest, fin2) = parse_labels_at(buf, end).unwrap();
        assert(fin2 == fin);
        assert(ls =~= seq![d] + rest);
        lemma_encode_label_list_front(ls);
        assert(ls.drop_first() =~= rest);
        assert(encode_labels(ls) =~= encode_label(d) + encode_labels(rest));
        lemma_encode_parsed_labels(buf, end);
        assert(buf.subrange(start, fin) =~= encode_labels(ls)) by {
            assert(buf.subrange(start, fin) =~= seq![num] + bytes + buf.subrange(end, fin));
        }
        assert forall|i: int| 0 <= i < ls.len() implies label_fits(#[trigger] ls[i]) by {
            if i > 0 {
                assert(ls[i] == rest[i - 1]);
            }
        }
    }
}

// ---------------------------------------------------------------------------
// Resource records
// ---------------------------------------------------------------------------

/// The mathematical content of a resource record.
#[verifier::ext_equal]
pub struct RecordModel {
    pub name: Seq<Seq<char>>,
    pub rr_type: RRType,
    pub rr_class: RRClass,
    pub ttl: u32,
    pub rdlen: u16,
    pub rdata: Seq<u8>,
}

/// Wire form of a record: owner name, type, class, TTL, the stored RDLENGTH and
/// the RDATA octets.
pub open spec fn encode_record(r: RecordModel) -> Seq<u8> {
    encode_labels(r.name) + u16_be(rr_type_code(r.rr_type)) + u16_be(rr_class_code(r.rr_class))
        + u32_be(r.ttl) + u16_be(r.rdlen) + r.rdata
}

/// A record survives the wire: its labels do, and RDLENGTH is the length of RDATA.
pub open spec fn record_fits(r: RecordModel) -> bool {
    labels_fit(r.name) && r.rdlen == r.rdata.len()
}

/// Decoding the record at the start of `buf`: the record and the number of octets
/// it takes.  The fixed fields follow the owner name; the type and the class must
/// be known codes; RDLENGTH octets of RDATA must follow.
#[verifier::opaque]
pub open spec fn parse_record(buf: Seq<u8>) -> Option<(RecordModel, int)> {
    match parse_labels(buf) {
        None => None,
        Some((name, p)) => {
            if p + 10 > buf.len() {
                None
            } else {
                match rr_type_from_code(be_u16(buf[p], buf[p + 1])) {
                    None => None,
                    Some(rr_type) => match rr_class_from_code(be_u16(buf[p + 2], buf[p + 3])) {
                        None => None,
                        Some(rr_class) => {
                            let ttl = be_u32(buf[p + 4], buf[p + 5], buf[p + 6], buf[p + 7]);
                            let rdlen = be_u16(buf[p + 8], buf[p + 9]);
                            let end = p + 10 + rdlen;
                            if end > buf.len() {
                                None
                            } else {
                                Some(
                                    (
                                        RecordModel {
                                            name,
                                            rr_type,
                                            rr_class,
                                            ttl,
                                            rdlen,
                                            rdata: buf.subrange(p + 10, end),
                                        },
                                        end,
                                    ),
                                )
                            }
                        },
                    },
                }
            }
        },
    }
}

/// A single resource record.
#[derive(Debug, PartialEq)]
pub struct RRRecord {
    /// Owner name; name of the node to which the record pertains
    pub name: Labels,
    /// one of the RR type codes
    pub rr_type: RRType,
    /// one of the RR class codes
    pub rr_class: RRClass,
    /// time to live in seconds; zero for volatile data
    pub ttl: u32,
    /// the RDLENGTH field as written on the wire
    pub rdlen: u16,
    /// variable-length data that describes the resource
    pub rdata: Vec<u8>,
}

impl View for RRRecord {
    type V = RecordModel;

    open spec fn view(&self) -> RecordModel {
        RecordModel {
            name: self.name@,
            rr_type: self.rr_type,
            rr_class: self.rr_class,
            ttl: self.ttl,
            rdlen: self.rdlen,
            rdata: self.rdata@,
        }
    }
}

impl Default for RRRecord {
    fn default() -> (r: Self)
        ensures
            r@ == (RecordModel {
                name: Seq::empty(),
                rr_type: RRType::A,
                rr_class: RRClass::IN,
                ttl: 0,
                rdlen: 0,
                rdata: Seq::empty(),
            }),
    {
        RRRecord {
            name: Labels::default(),
            rr_type: RRType::A,
            rr_class: RRClass::IN,
            ttl: 0,
            rdlen: 0,
            rdata: Vec::new(),
        }
    }
}

impl RRRecord {
    /// Reads the record at the start of `buffer`, or `None` where the original
    /// reader would fail (a field past the end of the buffer, an unknown type or
    /// class, a label that is not UTF-8).
    pub fn parse(buffer: &[u8]) -> (res: Option<(Self, usize)>)
        ensures
            res is Some <==> parse_record(buffer@) is Some,
            res matches Some((r, n)) ==> parse_record(buffer@) == Some((r@, n as int)),
    {
        proof {
            reveal(parse_record);
        }
        let (name, pos) = match Labels::parse(buffer) {
            Some(x) => x,
            None => {
                assert(buffer@.len() == buffer.len());
                return None;
            },
        };
        if pos > buffer.len() || buffer.len() - pos < 10 {
            return None;
        }
        let t: u16 = (buffer[pos] as u16) * 256 + (buffer[pos + 1] as u16);
        let rr_type = match RRType::try_from(t) {
            Ok(v) => v,
            Err(_) => {
                return None;
            },
        };
        let c: u16 = (buffer[pos + 2] as u16) * 256 + (buffer[pos + 3] as u16);
        let rr_class = match RRClass::try_from(c) {
            Ok(v) => v,
            Err(_) => {
                return None;
            },
        };
        let ttl: u32 = (buffer[pos + 4] as u32) * 0x100_0000 + (buffer[pos + 5] as u32) * 0x1_0000
            + (buffer[pos + 6] as u32) * 256 + (buffer[pos + 7] as u32);
        let rdlen: u16 = (buffer[pos + 8] as u16) * 256 + (buffer[pos + 9] as u16);
        let start = pos + 10;
        if buffer.len() - start < rdlen as usize {
            return None;
        }
        let end = start + rdlen as usize;
        let rdata = vstd::slice::slice_to_vec(&buffer[start..end]);
        Some((RRRecord { name, rr_type, rr_class, ttl, rdlen, rdata }, end))
    }

    /// Reads the record at the start of `buffer`; also returns the number of
    /// octets it takes.
    pub fn from_buffer(buffer: &[u8]) -> (res: (Self, usize))
        requires
            parse_record(buffer@) is Some,
        ensures
            parse_record(buffer@) == Some((res.0@, res.1 as int)),
    {
        Self::parse(buffer).unwrap()
    }

    /// The wire form of the record.
    pub fn to_buffer(&self) -> (out: Vec<u8>)
        ensures
            out@ == encode_record(self@),
    {
        let mut out = self.name.out();
        push_u16_be(&mut out, self.rr_type.code());
        push_u16_be(&mut out, self.rr_class.code());
        push_u32_be(&mut out, self.ttl);
        push_u16_be(&mut out, self.rdlen);
        append_bytes(&mut out, self.rdata.as_slice());
        out
    }
}

/// Reading back a record that was written gives the same record and ends just
/// past it, whatever follows it.
pub proof fn lemma_parse_encoded_record(r: RecordModel, rest: Seq<u8>)
    requires
        record_fits(r),
    ensures
        parse_record(encode_record(r) + rest) == Some((r, encode_record(r).len() as int)),
{
    reveal(parse_record);
    let enc = encode_record(r);
    let buf = enc + rest;
    let names = encode_labels(r.name);
    let p = names.len() as int;
    assert(buf.subrange(0, p) =~= names);
    lemma_parse_encoded_labels(r.name, buf, 0);
    let t = rr_type_code(r.rr_type);
    let c = rr_class_code(r.rr_class);
    assert(buf[p] == u16_be(t)[0] && buf[p + 1] == u16_be(t)[1]);
    assert(buf[p + 2] == u16_be(c)[0] && buf[p + 3] == u16_be(c)[1]);
    assert(buf[p + 4] == u32_be(r.ttl)[0] && buf[p + 5] == u32_be(r.ttl)[1]);
    assert(buf[p + 6] == u32_be(r.ttl)[2] && buf[p + 7] == u32_be(r.ttl)[3]);
    assert(buf[p + 8] == u16_be(r.rdlen)[0] && buf[p + 9] == u16_be(r.rdlen)[1]);
    lemma_u16_be_roundtrip(t);
    lemma_u16_be_roundtrip(c);
    lemma_u32_be_roundtrip(r.ttl);
    lemma_u16_be_roundtrip(r.rdlen);
    lemma_rr_type_code_roundtrip(r.rr_type);
    lemma_rr_class_code_roundtrip(r.rr_class);
    assert(buf.subrange(p + 10, p + 10 + r.rdlen) =~= r.rdata);
}

/// A record read from a buffer without name compression (it takes exactly as
/// many octets as its wire form) is written back as the very octets it was read
/// from, and it survives the wire.
pub proof fn lemma_encode_parsed_record(buf: Seq<u8>)
    requires
        parse_record(buf) matches Some((r, n)) && n == encode_record(r).len(),
    ensures
        parse_record(buf) matches Some((r, n)) && record_fits(r) && buf.subrange(0, n)
            == encode_record(r),
{
    reveal(parse_record);
    let (r, n) = parse_record(buf).unwrap();
    let (name, p) = parse_labels(buf).unwrap();
    lemma_parse_labels_bounds(buf, 0);
    assert(p + 10 <= buf.len());
    let t = be_u16(buf[p], buf[p + 1]);
    let c = be_u16(buf[p + 2], buf[p + 3]);
    let ttl = be_u32(buf[p + 4], buf[p + 5], buf[p + 6], buf[p + 7]);
    let rdlen = be_u16(buf[p + 8], buf[p + 9]);
    let rt = rr_type_from_code(t).unwrap();
    let rc = rr_class_from_code(c).unwrap();
    let rdata = buf.subrange(p + 10, p + 10 + rdlen);
    assert(r == RecordModel { name, rr_type: rt, rr_class: rc, ttl, rdlen, rdata });
    assert(n == p + 10 + rdlen);
    assert(rdata.len() == rdlen);
    assert(encode_record(r).len() == encode_labels(r.name).len() + 10 + r.rdata.len());
    assert(p == encode_labels(name).len());
    lemma_encode_parsed_labels(buf, 0);
    lemma_rr_codes_from_wire(t);
    lemma_rr_codes_from_wire(c);
    lemma_be_u16_octets(buf[p], buf[p + 1]);
    lemma_be_u16_octets(buf[p + 2], buf[p + 3]);
    lemma_be_u32_octets(buf[p + 4], buf[p + 5], buf[p + 6], buf[p + 7]);
    lemma_be_u16_octets(buf[p + 8], buf[p + 9]);
    assert(buf.subrange(0, p) == encode_labels(r.name));
    assert(buf.subrange(0, n) =~= buf.subrange(0, p) + seq![buf[p], buf[p + 1]] + seq![
        buf[p + 2],
        buf[p + 3],
    ] + seq![buf[p + 4], buf[p + 5], buf[p + 6], buf[p + 7]] + seq![buf[p + 8], buf[p + 9]]
        + r.rdata);
    assert(buf.subrange(0, n) =~= encode_record(r));
}

// ---------------------------------------------------------------------------
// Sections of resource records
// ---------------------------------------------------------------------------

/// The wire forms of `rs`, one after the other.
pub open spec fn encode_records(rs: Seq<RecordModel>) -> Seq<u8>
    decreases rs.len(),
{
    if rs.len() == 0 {
        Seq::empty()
    } else {
        encode_records(rs.drop_last()) + encode_record(rs.last())
    }
}

/// Every record of `rs` survives the wire.
pub open spec fn records_fit(rs: Seq<RecordModel>) -> bool {
    forall|i: int| 0 <= i < rs.len() ==> record_fits(#[trigger] rs[i])
}

/// Decoding `n` records one after the other from the start of `buf`: the records
/// and the number of octets they take.
pub open spec fn parse_records(buf: Seq<u8>, n: nat) -> Option<(Seq<RecordModel>, int)>
    decreases n,
{
    if n == 0 {
        Some((Seq::empty(), 0))
    } else {
        match parse_record(buf) {
            None => None,
            Some((r, k)) => match parse_records(buf.skip(k), (n - 1) as nat) {
                None => None,
                Some((rs, m)) => Some((seq![r] + rs, k + m)),
            },
        }
    }
}

/// The records of one section (answer, authority or additional) of a message.
#[derive(Debug)]
pub struct RRFormat {
    pub records: Vec<RRRecord>,
    expected: usize,
}

impl View for RRFormat {
    type V = Seq<RecordModel>;

    closed spec fn view(&self) -> Seq<RecordModel> {
        self.records@.map_values(|r: RRRecord| r@)
    }
}

impl RRFormat {
    /// The number of records that `from_buffer` reads: the count this section
    /// was made for.
    pub closed spec fn expected_count(&self) -> nat {
        self.expected as nat
    }

    /// An empty section that will read `num` records.
    pub fn new(num: u16) -> (f: Self)
        ensures
            f@ == Seq::<RecordModel>::empty(),
            f.expected_count() == num,
    {
        let f = RRFormat { records: Vec::with_capacity(num as usize), expected: num as usize };
        assert(f@ =~= Seq::<RecordModel>::empty());
        f
    }

    /// Reads `n` records one after the other from the start of `buffer`.
    fn read_records(buffer: &[u8], n: usize) -> (res: Option<(Vec<RRRecord>, usize)>)
        ensures
            res is Some <==> parse_records(buffer@, n as nat) is Some,
            res matches Some((v, m)) ==> parse_records(buffer@, n as nat) == Some(
                (v@.map_values(|r: RRRecord| r@), m as int),
            ),
    {
        let mut out: Vec<RRRecord> = Vec::new();
        let mut pos: usize = 0;
        let mut i: usize = 0;
        assert(buffer@.skip(0) =~= buffer@);
        proof {
            match parse_records(buffer@, n as nat) {
                Some((rs, m)) => {
                    assert(out@.map_values(|r: RRRecord| r@) + rs =~= rs);
                },
                None => {},
            }
        }
        while i < n
            invariant
                i <= n,
                pos <= buffer@.len(),
                out@.len() == i,
                parse_records(buffer@, n as nat) == match parse_records(
                    buffer@.skip(pos as int),
                    (n - i) as nat,
                ) {
                    Some((rs, m)) => Some((out@.map_values(|r: RRRecord| r@) + rs, pos + m)),
                    None => None,
                },
            decreases n - i,
        {
            let rest: &[u8] = &buffer[pos..buffer.len()];
            assert(rest@ =~= buffer@.skip(pos as int));
            match RRRecord::parse(rest) {
                None => {
                    return None;
                },
                Some((record, next)) => {
                    proof {
                        lemma_parse_record_len(rest@);
                        assert(buffer@.skip(pos as int).skip(next as int) =~= buffer@.skip(
                            pos + next,
                        ));
                    }
                    let ghost old_out = out@.map_values(|r: RRRecord| r@);
                    out.push(record);
                    assert(out@.map_values(|r: RRRecord| r@) =~= old_out.push(record@));
                    proof {
                        match parse_records(buffer@.skip(pos + next), (n - i - 1) as nat) {
                            Some((rs, m)) => {
                                assert(old_out + (seq![record@] + rs) =~= old_out.push(record@)
                                    + rs);
                            },
                            None => {},
                        }
                    }
                    pos = pos + next;
                    i = i + 1;
                },
            }
        }
        assert(buffer@.skip(pos as int) =~= buffer@.skip(pos as int));
        assert(out@.map_values(|r: RRRecord| r@) + Seq::<RecordModel>::empty() =~= out@.map_values(
            |r: RRRecord| r@,
        ));
        Some((out, pos))
    }

    /// A section of `num` records read from the start of `buffer`, with the number
    /// of octets they take, or `None` where they cannot be read.
    pub(crate) fn parse_section(num: u16, buffer: &[u8]) -> (res: Option<(RRFormat, usize)>)
        ensures
            res is Some <==> parse_records(buffer@, num as nat) is Some,
            res matches Some((f, m)) ==> parse_records(buffer@, num as nat) == Some(
                (f@, m as int),
            ) && f.expected_count() == num,
    {
        match Self::read_records(buffer, num as usize) {
            Some((records, m)) => Some((RRFormat { records, expected: num as usize }, m)),
            None => None,
        }
    }

    /// Reads as many records as this section was made for from the start of
    /// `buffer`, appending them; returns the number of octets they take.
    pub fn from_buffer(&mut self, buffer: &[u8]) -> (consumed: usize)
        requires
            parse_records(buffer@, old(self).expected_count()) is Some,
        ensures
            parse_records(buffer@, old(self).expected_count()) matches Some((rs, m))
                && final(self)@ == old(self)@ + rs && consumed == m,
            final(self).expected_count() == old(self).expected_count(),
    {
        let (mut read, consumed) = Self::read_records(buffer, self.expected).unwrap();
        let ghost old_view = self@;
        let ghost read_view = read@.map_values(|r: RRRecord| r@);
        self.records.append(&mut read);
        assert(self@ =~= old_view + read_view);
        consumed
    }

    /// The wire forms of the records, one after the other.
    pub fn to_buffer(&self) -> (out: Vec<u8>)
        ensures
            out@ == encode_records(self@),
    {
        let mut out: Vec<u8> = Vec::new();
        let mut i: usize = 0;
        while i < self.records.len()
            invariant
                i <= self.records@.len(),
                self@.len() == self.records@.len(),
                out@ == encode_records(self@.take(i as int)),
            decreases self.records@.len() - i,
        {
            let bytes = self.records[i].to_buffer();
            assert(self.records@[i as int]@ == self@[i as int]);
            append_bytes(&mut out, bytes.as_slice());
            i = i + 1;
            assert(self@.take(i as int).drop_last() =~= self@.take(i - 1 as int));
        }
        assert(self@.take(i as int) =~= self@);
        out
    }
}

impl Default for RRFormat {
    fn default() -> (f: Self)
        ensures
            f@ == Seq::<RecordModel>::empty(),
            f.expected_count() == 0,
    {
        RRFormat::new(0)
    }
}

/// A record read from `buf` lies inside it.
pub proof fn lemma_parse_record_len(buf: Seq<u8>)
    ensures
        parse_record(buf) matches Some((_, n)) ==> 0 < n <= buf.len(),
{
    reveal(parse_record);
    lemma_parse_labels_bounds(buf, 0);
}

/// A name read from a buffer takes at least as many octets as its wire form
/// (more when it ends in a compression pointer).
pub proof fn lemma_parse_labels_len_ge(buf: Seq<u8>, start: int)
    ensures
        parse_labels_at(buf, start) matches Some((ls, fin)) ==> fin - start >= encode_labels(
            ls,
        ).len(),
    decreases buf.len() - start,
{
    if let Some((ls, fin)) = parse_labels_at(buf, start) {
        let num = buf[start];
        if num != 0 && num < 0xC0 {
            let end = start + 1 + num;
            let bytes = buf.subrange(start + 1, end);
            let d = decode_utf8(bytes);
            decode_utf8_encode_utf8(bytes);
            let (rest, _) = parse_labels_at(buf, end).unwrap();
            lemma_parse_labels_len_ge(buf, end);
            assert(ls =~= seq![d] + rest);
            lemma_encode_label_list_front(ls);
            assert(ls.drop_first() =~= rest);
        }
    }
}

/// A record read from a buffer takes at least as many octets as its wire form.
pub proof fn lemma_parse_record_len_ge(buf: Seq<u8>)
    ensures
        parse_record(buf) matches Some((r, n)) ==> n >= encode_record(r).len(),
{
    reveal(parse_record);
    if let Some((r, n)) = parse_record(buf) {
        let (name, p) = parse_labels(buf).unwrap();
        lemma_parse_labels_bounds(buf, 0);
        lemma_parse_labels_len_ge(buf, 0);
        let rdlen = be_u16(buf[p + 8], buf[p + 9]);
        assert(r.rdata == buf.subrange(p + 10, p + 10 + rdlen));
    }
}

/// The wire forms of a non-empty list start with that of its first record.
pub proof fn lemma_encode_records_front(rs: Seq<RecordModel>)
    requires
        rs.len() > 0,
    ensures
        encode_records(rs) == encode_record(rs[0]) + encode_records(rs.drop_first()),
    decreases rs.len(),
{
    if rs.len() == 1 {
        assert(rs.drop_last() =~= Seq::<RecordModel>::empty());
        assert(rs.drop_first() =~= Seq::<RecordModel>::empty());
        assert(encode_records(rs) =~= encode_record(rs[0]) + encode_records(rs.drop_first()));
    } else {
        lemma_encode_records_front(rs.drop_last());
        assert(rs.drop_last().drop_first() =~= rs.drop_first().drop_last());
        assert(rs.drop_first().last() == rs.last());
        assert(rs.drop_last()[0] == rs[0]);
        assert(encode_records(rs) =~= encode_record(rs[0]) + encode_records(rs.drop_first()));
    }
}

/// Reading back records that were written one after the other gives the same
/// records and ends just past them, whatever follows.
pub proof fn lemma_parse_encoded_records(rs: Seq<RecordModel>, rest: Seq<u8>)
    requires
        records_fit(rs),
    ensures
        parse_records(encode_records(rs) + rest, rs.len()) == Some(
            (rs, encode_records(rs).len() as int),
        ),
    decreases rs.len(),
{
    if rs.len() > 0 {
        lemma_encode_records_front(rs);
        let r = rs[0];
        let tail = rs.drop_first();
        assert(record_fits(rs[0]));
        assert(records_fit(tail)) by {
            assert forall|i: int| 0 <= i < tail.len() implies record_fits(#[trigger] tail[i]) by {
                assert(tail[i] == rs[i + 1]);
            }
        }
        let buf = encode_records(rs) + rest;
        assert(buf =~= encode_record(r) + (encode_records(tail) + rest));
        lemma_parse_encoded_record(r, encode_records(tail) + rest);
        let k = encode_record(r).len() as int;
        assert(buf.skip(k) =~= encode_records(tail) + rest);
        lemma_parse_encoded_records(tail, rest);
        assert(seq![r] + tail =~= rs);
    }
}

/// Records read from a buffer without name compression are written back as the
/// very octets they were read from, and each of them survives the wire.
pub proof fn lemma_encode_parsed_records(buf: Seq<u8>, n: nat)
    requires
        parse_records(buf, n) matches Some((rs, m)) && m == encode_records(rs).len(),
    ensures
        parse_records(buf, n) matches Some((rs, m)) && m <= buf.len() && records_fit(rs)
            && buf.subrange(0, m) == encode_records(rs),
    decreases n,
{
    let (rs, m) = parse_records(buf, n).unwrap();
    if n == 0 {
        assert(buf.subrange(0, m) =~= encode_records(rs));
    } else {
        let (r, k) = parse_record(buf).unwrap();
        let (tail, m2) = parse_records(buf.skip(k), (n - 1) as nat).unwrap();
        assert(rs =~= seq![r] + tail);
        lemma_encode_records_front(rs);
        assert(rs.drop_first() =~= tail);
        lemma_parse_record_len_ge(buf);
        lemma_parse_records_len_ge(buf.skip(k), (n - 1) as nat);
        assert(k == encode_record(r).len());
        lemma_encode_parsed_record(buf);
        lemma_parse_record_len(buf);
        lemma_encode_parsed_records(buf.skip(k), (n - 1) as nat);
        assert(buf.subrange(0, m) =~= buf.subrange(0, k) + buf.skip(k).subrange(0, m2));
        assert forall|i: int| 0 <= i < rs.len() implies record_fits(#[trigger] rs[i]) by {
            if i > 0 {
                assert(rs[i] == tail[i - 1]);
            }
        }
    }
}

/// Records read from a buffer take at least as many octets as their wire forms.
pub proof fn lemma_parse_records_len_ge(buf: Seq<u8>, n: nat)
    ensures
        parse_records(buf, n) matches Some((rs, m)) ==> m >= encode_records(rs).len(),
    decreases n,
{
    if n > 0 {
        if let Some((rs, m)) = parse_records(buf, n) {
            let (r, k) = parse_record(buf).unwrap();
            let (tail, _) = parse_records(buf.skip(k), (n - 1) as nat).unwrap();
            lemma_parse_record_len_ge(buf);
            lemma_parse_records_len_ge(buf.skip(k), (n - 1) as nat);
            assert(rs =~= seq![r] + tail);
            lemma_encode_records_front(rs);
            assert(rs.drop_first() =~= tail);
        }
    }
}

/// Records read from `buf` lie inside it.
pub proof fn lemma_parse_records_len(buf: Seq<u8>, n: nat)
    ensures
        parse_records(buf, n) matches Some((_, m)) ==> 0 <= m <= buf.len(),
    decreases n,
{
    if n > 0 {
        lemma_parse_record_len(buf);
        if let Some((_, k)) = parse_record(buf) {
            lemma_parse_records_len(buf.skip(k), (n - 1) as nat);
        }
    }
}

/// Whatever a name read from `buf` at `start` is, the octets it took are the
/// wire forms of its labels (each of 1 to 191 octets of UTF-8) followed either by
/// the zero octet or by a two-octet compression pointer, whose first octet has its
/// two top bits set.
pub proof fn lemma_parse_labels_shape(buf: Seq<u8>, start: int)
    ensures
        parse_labels_at(buf, start) matches Some((ls, fin)) ==> {
            let body = encode_label_list(ls);
            &&& labels_fit(ls)
            &&& 0 <= start
            &&& start + body.len() < buf.len()
            &&& buf.subrange(start, start + body.len()) == body
            &&& ((fin == start + body.len() + 1 && buf[start + body.len()] == 0) || (fin == start
                + body.len() + 2 && buf[start + body.len()] >= 0xC0))
        },
    decreases buf.len() - start,
{
    if let Some((ls, fin)) = parse_labels_at(buf, start) {
        let num = buf[start];
        if num == 0 || num >= 0xC0 {
            assert(ls =~= Seq::<Seq<char>>::empty());
            assert(encode_label_list(ls) =~= Seq::<u8>::empty());
            assert(buf.subrange(start, start) =~= Seq::<u8>::empty());
        } else {
            let end = start + 1 + num;
            let bytes = buf.subrange(start + 1, end);
            let d = decode_utf8(bytes);
            decode_utf8_encode_utf8(bytes);
            let (rest, _) = parse_labels_at(buf, end).unwrap();
            lemma_parse_labels_shape(buf, end);
            assert(ls =~= seq![d] + rest);
            lemma_encode_label_list_front(ls);
            assert(ls.drop_first() =~= rest);
            let body = encode_label_list(ls);
            let rbody = encode_label_list(rest);
            assert(body =~= seq![num] + bytes + rbody);
            assert(buf.subrange(start, start + body.len()) =~= seq![num] + bytes + buf.subrange(
                end,
                end + rbody.len(),
            ));
            assert forall|i: int| 0 <= i < ls.len() implies label_fits(#[trigger] ls[i]) by {
                if i > 0 {
                    assert(ls[i] == rest[i - 1]);
                }
            }
        }
    }
}

/// The fields of a record are read right after its owner name, whatever form the
/// name takes: TYPE, CLASS, TTL and RDLENGTH big-endian, then RDLENGTH octets of
/// RDATA, where the record ends.  A record is read exactly when all of these
/// lie inside the buffer and the type and class are known codes.
pub proof fn lemma_parse_record_fields(buf: Seq<u8>)
    ensures
        parse_record(buf) matches Some((r, n)) ==> (parse_labels(buf) matches Some((name, p))
            && r.name == name && 0 < p && p + 10 <= n <= buf.len() && rr_type_code(r.rr_type)
            == buf[p] * 256 + buf[p + 1] && rr_class_code(r.rr_class) == buf[p + 2] * 256 + buf[p
            + 3] && r.ttl == buf[p + 4] * 0x100_0000 + buf[p + 5] * 0x1_0000 + buf[p + 6] * 256
            + buf[p + 7] && r.rdlen == buf[p + 8] * 256 + buf[p + 9] && n == p + 10 + r.rdlen
            && r.rdata == buf.subrange(p + 10, n)),
        (parse_record(buf) is Some) <==> (parse_labels(buf) matches Some((name, p)) && p + 10
            <= buf.len() && (exists|t: RRType| rr_type_code(t) == buf[p] * 256 + buf[p + 1]) && (
        exists|c: RRClass| rr_class_code(c) == buf[p + 2] * 256 + buf[p + 3]) && p + 10 + buf[p
            + 8] * 256 + buf[p + 9] <= buf.len()),
{
    reveal(parse_record);
    lemma_parse_labels_bounds(buf, 0);
    if let Some((name, p)) = parse_labels(buf) {
        if p + 10 <= buf.len() {
            let tv = be_u16(buf[p], buf[p + 1]);
            let cv = be_u16(buf[p + 2], buf[p + 3]);
            assert(tv == buf[p] * 256 + buf[p + 1]);
            assert(cv == buf[p + 2] * 256 + buf[p + 3]);
            assert(be_u16(buf[p + 8], buf[p + 9]) == buf[p + 8] * 256 + buf[p + 9]);
            assert(be_u32(buf[p + 4], buf[p + 5], buf[p + 6], buf[p + 7]) == buf[p + 4]
                * 0x100_0000 + buf[p + 5] * 0x1_0000 + buf[p + 6] * 256 + buf[p + 7]);
            if let Some(t) = rr_type_from_code(tv) {
                lemma_rr_type_decode_inverts_encode(tv, t);
            } else {
                lemma_rr_type_decode_inverts_encode(tv, RRType::A);
            }
            if let Some(c) = rr_class_from_code(cv) {
                lemma_rr_class_decode_inverts_encode(cv, c);
            } else {
                lemma_rr_class_decode_inverts_encode(cv, RRClass::IN);
            }
        }
    }
}

/// Records read one after another: exactly `n` of them, the first read at the
/// start of the buffer and the rest right after it.
pub proof fn lemma_parse_records_count(buf: Seq<u8>, n: nat)
    ensures
        parse_records(buf, n) matches Some((rs, m)) ==> rs.len() == n,
        n > 0 ==> (parse_records(buf, n) matches Some((rs, m)) ==> (parse_record(buf) matches Some(
            (r, k),
        ) && (rs[0] == r && (parse_records(buf.skip(k), (n - 1) as nat) matches Some((tail, m2))
            && rs.drop_first() == tail && m == k + m2)))),
    decreases n,
{
    if n > 0 {
        if let Some((rs, m)) = parse_records(buf, n) {
            let (r, k) = parse_record(buf).unwrap();
            let (tail, m2) = parse_records(buf.skip(k), (n - 1) as nat).unwrap();
            lemma_parse_records_count(buf.skip(k), (n - 1) as nat);
            assert(rs =~= seq![r] + tail);
            assert(rs.drop_first() =~= tail);
        }
    }
}

/// The wire form of a name opens with a length octet holding the byte length of
/// its first label's UTF-8 form, followed by those bytes; the empty name is the
/// single zero octet.
pub proof fn lemma_labels_wire_start(ls: Seq<Seq<char>>)
    ensures
        ls.len() == 0 ==> encode_labels(ls) == seq![0u8],
        ls.len() > 0 && label_fits(ls[0]) ==> encode_labels(ls)[0] == encode_utf8(ls[0]).len()
            && encode_labels(ls).subrange(1, 1 + encode_utf8(ls[0]).len() as int) == encode_utf8(
            ls[0],
        ),
{
    if ls.len() == 0 {
        assert(encode_labels(ls) =~= seq![0u8]);
    } else {
        lemma_encode_label_list_front(ls);
        let b = encode_utf8(ls[0]);
        assert(encode_labels(ls) =~= seq![(b.len() % 256) as u8] + b + encode_labels(
            ls.drop_first(),
        ));
        assert(encode_labels(ls).subrange(1, 1 + b.len() as int) =~= b);
    }
}

} // verus!
