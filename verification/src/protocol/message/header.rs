use crate::protocol::octets::{be_u16, lemma_u16_be_roundtrip};
use vstd::prelude::*;

verus! {

/// Kind of query in a message (4-bit OPCODE field).
#[derive(Debug, Clone, Copy, PartialEq, Eq, Structural)]
pub enum Opcode {
    /// a standard query
    Query,
    /// an inverse query
    InverseQuery,
    /// a server status request
    Status,
}

/// The 4-bit value of an opcode.
pub open spec fn opcode_value(o: Opcode) -> u8 {
    match o {
        Opcode::Query => 0,
        Opcode::InverseQuery => 1,
        Opcode::Status => 2,
    }
}

/// The opcode whose value is `v`, if there is one.
pub open spec fn opcode_from_value(v: u8) -> Option<Opcode> {
    if v == 0 {
        Some(Opcode::Query)
    } else if v == 1 {
        Some(Opcode::InverseQuery)
    } else if v == 2 {
        Some(Opcode::Status)
    } else {
        None
    }
}

impl Opcode {
    /// The 4-bit value of this opcode.
    pub fn value(&self) -> (v: u8)
        ensures
            v == opcode_value(*self),
            *self == Opcode::Query ==> v == 0,
            *self == Opcode::InverseQuery ==> v == 1,
            *self == Opcode::Status ==> v == 2,
    {
        match self {
            Opcode::Query => 0,
            Opcode::InverseQuery => 1,
            Opcode::Status => 2,
        }
    }

    /// The opcode whose value is `v`, if there is one.
    pub fn from_value(v: u8) -> (o: Option<Opcode>)
        ensures
            o == opcode_from_value(v),
            o matches Some(x) ==> opcode_value(x) == v,
            o is None <==> v > 2,
    {
        if v == 0 {
            Some(Opcode::Query)
        } else if v == 1 {
            Some(Opcode::InverseQuery)
        } else if v == 2 {
            Some(Opcode::Status)
        } else {
            None
        }
    }
}

/// Response code of a message (4-bit RCODE field).
#[derive(Debug, Clone, Copy, PartialEq, Eq, Structural)]
pub enum ResponseCode {
    /// No Error Condition
    NoErr,
    /// Name Server Unable to Interpret Query
    FormatErr,
    /// Name Server Unable to process due to server problem
    ServerFailure,
    /// domain name does not exist
    NameError,
    /// server could not process such kind of query
    NotImplemented,
    /// refuses to perform the specified operation for policy reasons
    Refused,
}

/// The 4-bit value of a response code.
pub open spec fn rcode_value(r: ResponseCode) -> u8 {
    match r {
        ResponseCode::NoErr => 0,
        ResponseCode::FormatErr => 1,
        ResponseCode::ServerFailure => 2,
        ResponseCode::NameError => 3,
        ResponseCode::NotImplemented => 4,
        ResponseCode::Refused => 5,
    }
}

/// The response code whose value is `v`, if there is one.
pub open spec fn rcode_from_value(v: u8) -> Option<ResponseCode> {
    if v == 0 {
        Some(ResponseCode::NoErr)
    } else if v == 1 {
        Some(ResponseCode::FormatErr)
    } else if v == 2 {
        Some(ResponseCode::ServerFailure)
    } else if v == 3 {
        Some(ResponseCode::NameError)
    } else if v == 4 {
        Some(ResponseCode::NotImplemented)
    } else if v == 5 {
        Some(ResponseCode::Refused)
    } else {
        None
    }
}

impl ResponseCode {
    /// The 4-bit value of this response code.
    pub fn value(&self) -> (v: u8)
        ensures
            v == rcode_value(*self),
            *self == ResponseCode::NoErr ==> v == 0,
            *self == ResponseCode::FormatErr ==> v == 1,
            *self == ResponseCode::ServerFailure ==> v == 2,
            *self == ResponseCode::NameError ==> v == 3,
            *self == ResponseCode::NotImplemented ==> v == 4,
            *self == ResponseCode::Refused ==> v == 5,
    {
        match self {
            ResponseCode::NoErr => 0,
            ResponseCode::FormatErr => 1,
            ResponseCode::ServerFailure => 2,
            ResponseCode::NameError => 3,
            ResponseCode::NotImplemented => 4,
            ResponseCode::Refused => 5,
        }
    }

    /// The response code whose value is `v`, if there is one.
    pub fn from_value(v: u8) -> (r: Option<ResponseCode>)
        ensures
            r == rcode_from_value(v),
            r matches Some(x) ==> rcode_value(x) == v,
            r is None <==> v > 5,
    {
        if v == 0 {
            Some(ResponseCode::NoErr)
        } else if v == 1 {
            Some(ResponseCode::FormatErr)
        } else if v == 2 {
            Some(ResponseCode::ServerFailure)
        } else if v == 3 {
            Some(ResponseCode::NameError)
        } else if v == 4 {
            Some(ResponseCode::NotImplemented)
        } else if v == 5 {
            Some(ResponseCode::Refused)
        } else {
            None
        }
    }
}

/// A field of the 12-octet message header, with its value.
#[derive(Debug, Clone, Copy)]
pub enum MessageHeaderType {
    /// A 16 bit identifier assigned by the program that generates any kind of
    /// query; copied into the reply to match it with the query.
    Id(u16),
    /// one bit: whether this message is a query or a response
    Qr(bool),
    /// 4 bit field that specifies kind of query in this message
    OpCode(Opcode),
    /// Authoritative Answer: the responding name server is an authority for the
    /// domain name in the question section (1 bit)
    AA(bool),
    /// TrunCation: this message was truncated
    TC(bool),
    /// Recursion Desired: resolve the query recursively
    RD(bool),
    /// Recursion Available: recursive queries are supported
    RA(bool),
    /// reserved, must be zero (3 bits)
    Z(u8),
    /// Response Code: 4 bit field
    Rcode(ResponseCode),
    /// Number of entries in the question section
    QdCount(u16),
    /// Number of resource records in the answer section
    AnCount(u16),
    /// Number of name server resource records in the authority section
    NsCount(u16),
    /// Number of resource records in the additional section
    ArCount(u16),
}

/// The offset, in bits from the start of the header, at which a field starts.
pub open spec fn bit_index(t: MessageHeaderType) -> nat {
    match t {
        MessageHeaderType::Id(_) => 0,
        MessageHeaderType::Qr(_) => 16,
        MessageHeaderType::OpCode(_) => 17,
        MessageHeaderType::AA(_) => 21,
        MessageHeaderType::TC(_) => 22,
        MessageHeaderType::RD(_) => 23,
        MessageHeaderType::RA(_) => 24,
        MessageHeaderType::Z(_) => 25,
        MessageHeaderType::Rcode(_) => 28,
        MessageHeaderType::QdCount(_) => 32,
        MessageHeaderType::AnCount(_) => 48,
        MessageHeaderType::NsCount(_) => 64,
        MessageHeaderType::ArCount(_) => 80,
    }
}

impl From<MessageHeaderType> for usize {
    fn from(value: MessageHeaderType) -> (r: usize)
        ensures
            value is Id ==> r == 0,
            value is Qr ==> r == 16,
            value is OpCode ==> r == 17,
            value is AA ==> r == 21,
            value is TC ==> r == 22,
            value is RD ==> r == 23,
            value is RA ==> r == 24,
            value is Z ==> r == 25,
            value is Rcode ==> r == 28,
            value is QdCount ==> r == 32,
            value is AnCount ==> r == 48,
            value is NsCount ==> r == 64,
            value is ArCount ==> r == 80,
    {
        match value {
            MessageHeaderType::Id(_) => 0,
            MessageHeaderType::Qr(_) => 16,
            MessageHeaderType::OpCode(_) => 17,
            MessageHeaderType::AA(_) => 21,
            MessageHeaderType::TC(_) => 22,
            MessageHeaderType::RD(_) => 23,
            MessageHeaderType::RA(_) => 24,
            MessageHeaderType::Z(_) => 25,
            MessageHeaderType::Rcode(_) => 28,
            MessageHeaderType::QdCount(_) => 32,
            MessageHeaderType::AnCount(_) => 48,
            MessageHeaderType::NsCount(_) => 64,
            MessageHeaderType::ArCount(_) => 80,
        }
    }
}

impl vstd::std_specs::convert::FromSpecImpl<MessageHeaderType> for usize {
    open spec fn obeys_from_spec() -> bool {
        true
    }

    open spec fn from_spec(v: MessageHeaderType) -> usize {
        bit_index(v) as usize
    }
}

impl MessageHeaderType {
    /// The value of a section counter; zero for every other field.
    pub fn get_count(&self) -> (c: u16)
        ensures
            c == match *self {
                MessageHeaderType::QdCount(v) => v,
                MessageHeaderType::AnCount(v) => v,
                MessageHeaderType::NsCount(v) => v,
                MessageHeaderType::ArCount(v) => v,
                _ => 0,
            },
    {
        match *self {
            MessageHeaderType::QdCount(v)
            | MessageHeaderType::AnCount(v)
            | MessageHeaderType::NsCount(v)
            | MessageHeaderType::ArCount(v) => v,
            _ => 0,
        }
    }
}

// ---------------------------------------------------------------------------
// Header octets
// ---------------------------------------------------------------------------

/// `x` with the bit at `rem` (counted from the most significant bit) set to `v`.
pub open spec fn with_bit(x: u8, rem: u8, v: bool) -> u8 {
    if v {
        x | (1u8 << (7 - rem) as u8)
    } else {
        x & !(1u8 << (7 - rem) as u8)
    }
}

/// The bit of `x` at `rem`, counted from the most significant bit.
pub open spec fn bit_at(x: u8, rem: u8) -> bool {
    (x >> (7 - rem) as u8) & 1 == 1
}

/// The header `b` after writing field `t`.  Identifiers and counters are
/// written as two big-endian octets and flags set or cleared; OPCODE, Z and
/// RCODE are or-ed into the bits already there.
pub open spec fn header_add(b: Seq<u8>, t: MessageHeaderType) -> Seq<u8> {
    let pos = (bit_index(t) / 8) as int;
    let rem = (bit_index(t) % 8) as u8;
    match t {
        MessageHeaderType::Id(v) => b.update(pos, (v / 256) as u8).update(pos + 1, (v % 256) as u8),
        MessageHeaderType::QdCount(v) => b.update(pos, (v / 256) as u8).update(
            pos + 1,
            (v % 256) as u8,
        ),
        MessageHeaderType::AnCount(v) => b.update(pos, (v / 256) as u8).update(
            pos + 1,
            (v % 256) as u8,
        ),
        MessageHeaderType::NsCount(v) => b.update(pos, (v / 256) as u8).update(
            pos + 1,
            (v % 256) as u8,
        ),
        MessageHeaderType::ArCount(v) => b.update(pos, (v / 256) as u8).update(
            pos + 1,
            (v % 256) as u8,
        ),
        MessageHeaderType::Qr(v) => b.update(pos, with_bit(b[pos], rem, v)),
        MessageHeaderType::AA(v) => b.update(pos, with_bit(b[pos], rem, v)),
        MessageHeaderType::TC(v) => b.update(pos, with_bit(b[pos], rem, v)),
        MessageHeaderType::RD(v) => b.update(pos, with_bit(b[pos], rem, v)),
        MessageHeaderType::RA(v) => b.update(pos, with_bit(b[pos], rem, v)),
        MessageHeaderType::OpCode(o) => b.update(pos, b[pos] | (opcode_value(o) << 3u8)),
        MessageHeaderType::Z(v) => b.update(pos, b[pos] | ((v & 7) << 4u8)),
        MessageHeaderType::Rcode(r) => b.update(pos, b[pos] | (rcode_value(r) & 0x0F)),
    }
}

/// The OPCODE bits of the third header octet.
pub open spec fn opcode_bits(x: u8) -> u8 {
    (x >> 3u8) & 0x0F
}

/// The Z bits of the fourth header octet.
pub open spec fn z_bits(x: u8) -> u8 {
    (x >> 4u8) & 0x07
}

/// The RCODE bits of the fourth header octet.
pub open spec fn rcode_bits(x: u8) -> u8 {
    x & 0x0F
}

/// Field `t` can be read from header `b`: OPCODE and RCODE must hold a known value.
pub open spec fn readable(b: Seq<u8>, t: MessageHeaderType) -> bool {
    match t {
        MessageHeaderType::OpCode(_) => opcode_from_value(opcode_bits(b[2])) is Some,
        MessageHeaderType::Rcode(_) => rcode_from_value(rcode_bits(b[3])) is Some,
        _ => true,
    }
}

/// The field of the same kind as `t` as it stands in header `b`.
pub open spec fn read_field(b: Seq<u8>, t: MessageHeaderType) -> MessageHeaderType {
    let pos = (bit_index(t) / 8) as int;
    let rem = (bit_index(t) % 8) as u8;
    match t {
        MessageHeaderType::Id(_) => MessageHeaderType::Id(be_u16(b[pos], b[pos + 1])),
        MessageHeaderType::QdCount(_) => MessageHeaderType::QdCount(be_u16(b[pos], b[pos + 1])),
        MessageHeaderType::AnCount(_) => MessageHeaderType::AnCount(be_u16(b[pos], b[pos + 1])),
        MessageHeaderType::NsCount(_) => MessageHeaderType::NsCount(be_u16(b[pos], b[pos + 1])),
        MessageHeaderType::ArCount(_) => MessageHeaderType::ArCount(be_u16(b[pos], b[pos + 1])),
        MessageHeaderType::Qr(_) => MessageHeaderType::Qr(bit_at(b[pos], rem)),
        MessageHeaderType::AA(_) => MessageHeaderType::AA(bit_at(b[pos], rem)),
        MessageHeaderType::TC(_) => MessageHeaderType::TC(bit_at(b[pos], rem)),
        MessageHeaderType::RD(_) => MessageHeaderType::RD(bit_at(b[pos], rem)),
        MessageHeaderType::RA(_) => MessageHeaderType::RA(bit_at(b[pos], rem)),
        MessageHeaderType::OpCode(_) => MessageHeaderType::OpCode(
            opcode_from_value(opcode_bits(b[pos])).unwrap(),
        ),
        MessageHeaderType::Z(_) => MessageHeaderType::Z(z_bits(b[pos])),
        MessageHeaderType::Rcode(_) => MessageHeaderType::Rcode(
            rcode_from_value(rcode_bits(b[pos])).unwrap(),
        ),
    }
}

/// The 12-octet header of a DNS message.
#[derive(Debug)]
pub struct MessageHeader {
    buffer: [u8; 12],
}

impl View for MessageHeader {
    type V = Seq<u8>;

    closed spec fn view(&self) -> Seq<u8> {
        self.buffer@
    }
}

impl Default for MessageHeader {
    fn default() -> (h: Self)
        ensures
            h@ == Seq::new(12, |i: int| 0u8),
    {
        let h = MessageHeader { buffer: [0u8; 12] };
        assert(h@ =~= Seq::new(12, |i: int| 0u8));
        h
    }
}

impl MessageHeader {
    /// The header holds twelve octets.
    pub proof fn lemma_len(&self)
        ensures
            self@.len() == 12,
    {
    }

    /// Sets or clears the bit at `rem` (from the most significant bit) of octet `pos`.
    fn set_flag(&mut self, pos: usize, rem: usize, value: bool)
        requires
            pos < 12,
            rem < 8,
        ensures
            final(self)@ == old(self)@.update(pos as int, with_bit(old(self)@[pos as int], rem as u8, value)),
    {
        let mask: u8 = 1u8 << ((7 - rem) as u8);
        if value {
            self.buffer[pos] = self.buffer[pos] | mask;
        } else {
            self.buffer[pos] = self.buffer[pos] & !mask;
        }
    }

    /// Replaces the header with the given twelve octets, as when a known buffer
    /// (such as a response) is to be read.
    pub fn from(&mut self, buffer: [u8; 12])
        ensures
            final(self)@ == buffer@,
    {
        self.buffer = buffer;
    }

    /// The twelve octets of the header.
    pub fn to_buffer(&self) -> (out: &[u8])
        ensures
            out@ == self@,
    {
        self.buffer.as_slice()
    }

    /// Writes one field into the header; returns the header for chaining.
    pub fn add(&mut self, header_type: MessageHeaderType) -> (r: &mut Self)
        ensures
            r@ == header_add(old(self)@, header_type),
            *final(self) == *final(r),
    {
        let bit_idx: usize = usize::from(header_type);
        let pos = bit_idx / 8;
        let rem = bit_idx % 8;
        match header_type {
            MessageHeaderType::Id(v)
            | MessageHeaderType::QdCount(v)
            | MessageHeaderType::AnCount(v)
            | MessageHeaderType::NsCount(v)
            | MessageHeaderType::ArCount(v) => {
                self.buffer[pos] = (v / 256) as u8;
                self.buffer[pos + 1] = (v % 256) as u8;
            },
            MessageHeaderType::Qr(v) => self.set_flag(pos, rem, v),
            MessageHeaderType::AA(v) => self.set_flag(pos, rem, v),
            MessageHeaderType::TC(v) => self.set_flag(pos, rem, v),
            MessageHeaderType::RD(v) => self.set_flag(pos, rem, v),
            MessageHeaderType::RA(v) => self.set_flag(pos, rem, v),
            MessageHeaderType::OpCode(v) => {
                self.buffer[pos] = self.buffer[pos] | (v.value() << ((4 - rem) as u8));
            },
            MessageHeaderType::Z(v) => {
                self.buffer[pos] = self.buffer[pos] | ((v & 0x07) << 4u8);
            },
            MessageHeaderType::Rcode(v) => {
                self.buffer[pos] = self.buffer[pos] | (v.value() & 0x0F);
            },
        }
        self
    }

    /// The big-endian 16-bit value at octet `start`.
    fn get_u16_value(&self, start: usize) -> (v: u16)
        requires
            start + 1 < 12,
        ensures
            v == be_u16(self@[start as int], self@[start + 1]),
    {
        (self.buffer[start] as u16) * 256 + (self.buffer[start + 1] as u16)
    }

    /// The bit at `rem` (from the most significant bit) of octet `start`.
    fn get_bool_value(&self, start: usize, rem: usize) -> (b: bool)
        requires
            start < 12,
            rem < 8,
        ensures
            b == bit_at(self@[start as int], rem as u8),
    {
        (self.buffer[start] >> ((7 - rem) as u8)) & 1 == 1
    }

    /// Reads the field of the same kind as `message_type` into it.
    pub fn get_message_header_value(&self, message_type: &mut MessageHeaderType)
        requires
            readable(self@, *old(message_type)),
        ensures
            *final(message_type) == read_field(self@, *old(message_type)),
    {
        let bit_idx: usize = usize::from(*message_type);
        let pos = bit_idx / 8;
        let rem = bit_idx % 8;
        let value = match *message_type {
            MessageHeaderType::Id(_) => MessageHeaderType::Id(self.get_u16_value(pos)),
            MessageHeaderType::QdCount(_) => MessageHeaderType::QdCount(self.get_u16_value(pos)),
            MessageHeaderType::AnCount(_) => MessageHeaderType::AnCount(self.get_u16_value(pos)),
            MessageHeaderType::NsCount(_) => MessageHeaderType::NsCount(self.get_u16_value(pos)),
            MessageHeaderType::ArCount(_) => MessageHeaderType::ArCount(self.get_u16_value(pos)),
            MessageHeaderType::Qr(_) => MessageHeaderType::Qr(self.get_bool_value(pos, rem)),
            MessageHeaderType::AA(_) => MessageHeaderType::AA(self.get_bool_value(pos, rem)),
            MessageHeaderType::TC(_) => MessageHeaderType::TC(self.get_bool_value(pos, rem)),
            MessageHeaderType::RD(_) => MessageHeaderType::RD(self.get_bool_value(pos, rem)),
            MessageHeaderType::RA(_) => MessageHeaderType::RA(self.get_bool_value(pos, rem)),
            MessageHeaderType::OpCode(_) => {
                let raw = (self.buffer[pos] >> 3u8) & 0x0F;
                MessageHeaderType::OpCode(Opcode::from_value(raw).unwrap())
            },
            MessageHeaderType::Z(_) => MessageHeaderType::Z((self.buffer[pos] >> 4u8) & 0x07),
            MessageHeaderType::Rcode(_) => {
                let raw = self.buffer[pos] & 0x0F;
                MessageHeaderType::Rcode(ResponseCode::from_value(raw).unwrap())
            },
        };
        *message_type = value;
    }
}

// ---------------------------------------------------------------------------
// What a write leaves for a read
// ---------------------------------------------------------------------------

/// The bits of field `t` are clear in header `b`; fields that are or-ed in
/// (OPCODE, Z, RCODE) need that for a write to read back as written.
pub open spec fn field_clear(b: Seq<u8>, t: MessageHeaderType) -> bool {
    match t {
        MessageHeaderType::OpCode(_) => opcode_bits(b[2]) == 0,
        MessageHeaderType::Z(_) => z_bits(b[3]) == 0,
        MessageHeaderType::Rcode(_) => rcode_bits(b[3]) == 0,
        _ => true,
    }
}

/// Bit facts about the fields that share the third and the fourth header octet.
proof fn lemma_header_octet_bits(x: u8, c: u8, v: bool)
    by (bit_vector)
    requires
        c < 16,
    ensures
        bit_at(with_bit(x, 0, v), 0) == v,
        bit_at(with_bit(x, 5, v), 5) == v,
        bit_at(with_bit(x, 6, v), 6) == v,
        bit_at(with_bit(x, 7, v), 7) == v,
        bit_at(with_bit(x, 0, v), 5) == bit_at(x, 5),
        bit_at(with_bit(x, 0, v), 6) == bit_at(x, 6),
        bit_at(with_bit(x, 0, v), 7) == bit_at(x, 7),
        bit_at(with_bit(x, 5, v), 0) == bit_at(x, 0),
        bit_at(with_bit(x, 5, v), 6) == bit_at(x, 6),
        bit_at(with_bit(x, 5, v), 7) == bit_at(x, 7),
        bit_at(with_bit(x, 6, v), 0) == bit_at(x, 0),
        bit_at(with_bit(x, 6, v), 5) == bit_at(x, 5),
        bit_at(with_bit(x, 6, v), 7) == bit_at(x, 7),
        bit_at(with_bit(x, 7, v), 0) == bit_at(x, 0),
        bit_at(with_bit(x, 7, v), 5) == bit_at(x, 5),
        bit_at(with_bit(x, 7, v), 6) == bit_at(x, 6),
        opcode_bits(with_bit(x, 0, v)) == opcode_bits(x),
        opcode_bits(with_bit(x, 5, v)) == opcode_bits(x),
        opcode_bits(with_bit(x, 6, v)) == opcode_bits(x),
        opcode_bits(with_bit(x, 7, v)) == opcode_bits(x),
        opcode_bits(x) == 0 ==> opcode_bits(x | (c << 3u8)) == c,
        bit_at(x | (c << 3u8), 0) == bit_at(x, 0),
        bit_at(x | (c << 3u8), 5) == bit_at(x, 5),
        bit_at(x | (c << 3u8), 6) == bit_at(x, 6),
        bit_at(x | (c << 3u8), 7) == bit_at(x, 7),
        z_bits(with_bit(x, 0, v)) == z_bits(x),
        rcode_bits(with_bit(x, 0, v)) == rcode_bits(x),
        z_bits(x) == 0 ==> z_bits(x | ((c & 7) << 4u8)) == c & 7,
        bit_at(x | ((c & 7) << 4u8), 0) == bit_at(x, 0),
        rcode_bits(x | ((c & 7) << 4u8)) == rcode_bits(x),
        rcode_bits(x) == 0 ==> rcode_bits(x | (c & 0x0F)) == c,
        bit_at(x | (c & 0x0F), 0) == bit_at(x, 0),
        z_bits(x | (c & 0x0F)) == z_bits(x),
{
}

/// A field read back right after it was written holds the written value, when
/// its bits were clear before (for the or-ed fields) and a Z value fits in its
/// three bits.
pub proof fn lemma_read_after_add(b: Seq<u8>, t: MessageHeaderType)
    requires
        b.len() == 12,
        field_clear(b, t),
        t matches MessageHeaderType::Z(v) ==> v <= 7,
    ensures
        readable(header_add(b, t), t),
        read_field(header_add(b, t), t) == t,
{
    match t {
        MessageHeaderType::Id(v) => lemma_u16_be_roundtrip(v),
        MessageHeaderType::QdCount(v) => lemma_u16_be_roundtrip(v),
        MessageHeaderType::AnCount(v) => lemma_u16_be_roundtrip(v),
        MessageHeaderType::NsCount(v) => lemma_u16_be_roundtrip(v),
        MessageHeaderType::ArCount(v) => lemma_u16_be_roundtrip(v),
        MessageHeaderType::Qr(v) => lemma_header_octet_bits(b[2], 0, v),
        MessageHeaderType::AA(v) => lemma_header_octet_bits(b[2], 0, v),
        MessageHeaderType::TC(v) => lemma_header_octet_bits(b[2], 0, v),
        MessageHeaderType::RD(v) => lemma_header_octet_bits(b[2], 0, v),
        MessageHeaderType::RA(v) => lemma_header_octet_bits(b[3], 0, v),
        MessageHeaderType::OpCode(o) => lemma_header_octet_bits(b[2], opcode_value(o), false),
        MessageHeaderType::Z(v) => {
            lemma_header_octet_bits(b[3], v, false);
            assert(v & 7 == v) by (bit_vector)
                requires
                    v <= 7,
            ;
        },
        MessageHeaderType::Rcode(r) => lemma_header_octet_bits(b[3], rcode_value(r), false),
    }
}

/// Writing a field leaves every other field as it was.
pub proof fn lemma_add_keeps_other_fields(b: Seq<u8>, t: MessageHeaderType, u: MessageHeaderType)
    requires
        b.len() == 12,
        bit_index(t) != bit_index(u),
    ensures
        readable(header_add(b, t), u) == readable(b, u),
        read_field(header_add(b, t), u) == read_field(b, u),
{
    let (c, v): (u8, bool) = match t {
        MessageHeaderType::Qr(v) => (0, v),
        MessageHeaderType::AA(v) => (0, v),
        MessageHeaderType::TC(v) => (0, v),
        MessageHeaderType::RD(v) => (0, v),
        MessageHeaderType::RA(v) => (0, v),
        MessageHeaderType::OpCode(o) => (opcode_value(o), false),
        MessageHeaderType::Z(z) => ((z & 7) as u8, false),
        MessageHeaderType::Rcode(r) => (rcode_value(r), false),
        _ => (0, false),
    };
    assert(c < 16) by {
        if let MessageHeaderType::Z(z) = t {
            assert(z & 7 < 16) by (bit_vector);
        }
    }
    lemma_header_octet_bits(b[2], c, v);
    lemma_header_octet_bits(b[3], c, v);
    if let MessageHeaderType::Z(z) = t {
        assert((z & 7) & 7 == z & 7) by (bit_vector);
    }
}

// ---------------------------------------------------------------------------
// Where each field sits (RFC 1035, section 4.1.1)
// ---------------------------------------------------------------------------

/// The opcode values are those of RFC 1035, and decoding a value is the inverse
/// of encoding.
pub proof fn lemma_opcode_values(v: u8, o: Opcode)
    ensures
        opcode_value(Opcode::Query) == 0,
        opcode_value(Opcode::InverseQuery) == 1,
        opcode_value(Opcode::Status) == 2,
        opcode_from_value(v) == Some(o) <==> opcode_value(o) == v,
        opcode_from_value(v) is None <==> v > 2,
{
}

/// The response code values are those of RFC 1035, and decoding a value is the
/// inverse of encoding.
pub proof fn lemma_rcode_values(v: u8, r: ResponseCode)
    ensures
        rcode_value(ResponseCode::NoErr) == 0,
        rcode_value(ResponseCode::FormatErr) == 1,
        rcode_value(ResponseCode::ServerFailure) == 2,
        rcode_value(ResponseCode::NameError) == 3,
        rcode_value(ResponseCode::NotImplemented) == 4,
        rcode_value(ResponseCode::Refused) == 5,
        rcode_from_value(v) == Some(r) <==> rcode_value(r) == v,
        rcode_from_value(v) is None <==> v > 5,
{
}

/// Bit facts behind the header layout.
proof fn lemma_layout_bits(x: u8, c: u8)
    by (bit_vector)
    requires
        c < 16,
    ensures
        with_bit(x, 0, true) == x | 0x80,
        with_bit(x, 0, false) == x & 0x7F,
        with_bit(x, 5, true) == x | 0x04,
        with_bit(x, 5, false) == x & 0xFB,
        with_bit(x, 6, true) == x | 0x02,
        with_bit(x, 6, false) == x & 0xFD,
        with_bit(x, 7, true) == x | 0x01,
        with_bit(x, 7, false) == x & 0xFE,
        c << 3u8 == c * 8,
        (x & 7) << 4u8 == (x % 8) * 16,
        c & 0x0F == c,
        bit_at(x, 0) == (x & 0x80 != 0),
        bit_at(x, 5) == (x & 0x04 != 0),
        bit_at(x, 6) == (x & 0x02 != 0),
        bit_at(x, 7) == (x & 0x01 != 0),
        opcode_bits(x) == (x / 8) % 16,
        z_bits(x) == (x / 16) % 8,
        rcode_bits(x) == x % 16,
{
}

/// Writing a field changes only its own bits, at the RFC 1035 place: ID and the
/// four counters are big-endian pairs of octets 0-1, 4-5, 6-7, 8-9 and 10-11;
/// QR, AA, TC and RD are the bits 0x80, 0x04, 0x02 and 0x01 of octet 2 and RA the
/// bit 0x80 of octet 3; OPCODE is or-ed in at bits 3 to 6 of octet 2, Z at bits 4
/// to 6 of octet 3 and RCODE at bits 0 to 3 of octet 3.
pub proof fn lemma_header_add_layout(b: Seq<u8>, t: MessageHeaderType)
    requires
        b.len() == 12,
    ensures
        header_add(b, t) == match t {
            MessageHeaderType::Id(v) => b.update(0, (v / 256) as u8).update(1, (v % 256) as u8),
            MessageHeaderType::QdCount(v) => b.update(4, (v / 256) as u8).update(5, (v % 256) as u8),
            MessageHeaderType::AnCount(v) => b.update(6, (v / 256) as u8).update(7, (v % 256) as u8),
            MessageHeaderType::NsCount(v) => b.update(8, (v / 256) as u8).update(9, (v % 256) as u8),
            MessageHeaderType::ArCount(v) => b.update(10, (v / 256) as u8).update(
                11,
                (v % 256) as u8,
            ),
            MessageHeaderType::Qr(v) => b.update(2, if v { b[2] | 0x80 } else { b[2] & 0x7F }),
            MessageHeaderType::AA(v) => b.update(2, if v { b[2] | 0x04 } else { b[2] & 0xFB }),
            MessageHeaderType::TC(v) => b.update(2, if v { b[2] | 0x02 } else { b[2] & 0xFD }),
            MessageHeaderType::RD(v) => b.update(2, if v { b[2] | 0x01 } else { b[2] & 0xFE }),
            MessageHeaderType::RA(v) => b.update(3, if v { b[3] | 0x80 } else { b[3] & 0x7F }),
            MessageHeaderType::OpCode(o) => b.update(2, b[2] | ((opcode_value(o) * 8) as u8)),
            MessageHeaderType::Z(z) => b.update(3, b[3] | (((z % 8) * 16) as u8)),
            MessageHeaderType::Rcode(r) => b.update(3, b[3] | rcode_value(r)),
        },
{
    match t {
        MessageHeaderType::Qr(_) => lemma_layout_bits(b[2], 0),
        MessageHeaderType::AA(_) => lemma_layout_bits(b[2], 0),
        MessageHeaderType::TC(_) => lemma_layout_bits(b[2], 0),
        MessageHeaderType::RD(_) => lemma_layout_bits(b[2], 0),
        MessageHeaderType::RA(_) => lemma_layout_bits(b[3], 0),
        MessageHeaderType::OpCode(o) => lemma_layout_bits(b[2], opcode_value(o)),
        MessageHeaderType::Z(z) => lemma_layout_bits(z, 0),
        MessageHeaderType::Rcode(r) => lemma_layout_bits(b[3], rcode_value(r)),
        _ => {},
    }
}

/// Reading a field takes its bits from the RFC 1035 place (see
/// `lemma_header_add_layout`).
pub proof fn lemma_read_field_layout(b: Seq<u8>, t: MessageHeaderType)
    requires
        b.len() == 12,
        readable(b, t),
    ensures
        match read_field(b, t) {
            MessageHeaderType::Id(v) => t is Id && v == b[0] * 256 + b[1],
            MessageHeaderType::QdCount(v) => t is QdCount && v == b[4] * 256 + b[5],
            MessageHeaderType::AnCount(v) => t is AnCount && v == b[6] * 256 + b[7],
            MessageHeaderType::NsCount(v) => t is NsCount && v == b[8] * 256 + b[9],
            MessageHeaderType::ArCount(v) => t is ArCount && v == b[10] * 256 + b[11],
            MessageHeaderType::Qr(v) => t is Qr && v == (b[2] & 0x80 != 0),
            MessageHeaderType::AA(v) => t is AA && v == (b[2] & 0x04 != 0),
            MessageHeaderType::TC(v) => t is TC && v == (b[2] & 0x02 != 0),
            MessageHeaderType::RD(v) => t is RD && v == (b[2] & 0x01 != 0),
            MessageHeaderType::RA(v) => t is RA && v == (b[3] & 0x80 != 0),
            MessageHeaderType::OpCode(o) => t is OpCode && opcode_value(o) == (b[2] / 8) % 16,
            MessageHeaderType::Z(z) => t is Z && z == (b[3] / 16) % 8,
            MessageHeaderType::Rcode(r) => t is Rcode && rcode_value(r) == b[3] % 16,
        },
{
    lemma_layout_bits(b[2], 0);
    lemma_layout_bits(b[3], 0);
}

} // verus!
