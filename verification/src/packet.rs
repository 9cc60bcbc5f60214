use bit_vec::BitVec;
use vstd::prelude::*;

verus! {

/// Declares `bit_vec::BitVec` to the verifier; its contents are opaque.
#[verifier::external_type_specification]
#[verifier::external_body]
#[verifier::reject_recursive_types(B)]
pub struct ExBitVec<B>(BitVec<B>);

/// The bits held by a `BitVec<u8>`, in index order.
pub uninterp spec fn bitvec_bits(v: BitVec<u8>) -> Seq<bool>;

/// Wraps `BitVec::<u8>::from_elem_general(len, bit)`, which the crate documents
/// (and its source shows) to hold `len` bits, each equal to `bit`.
#[verifier::external_body]
fn bitvec_from_elem(len: usize, bit: bool) -> (v: BitVec<u8>)
    ensures
        bitvec_bits(v) == Seq::new(len as nat, |i: int| bit),
{
    BitVec::from_elem_general(len, bit)
}

/// Wraps `BitVec::<u8>::get(i)`, which returns the bit at `i`, or `None` when
/// `i` is not below the number of bits.
#[verifier::external_body]
fn bitvec_get(v: &BitVec<u8>, i: usize) -> (r: Option<bool>)
    ensures
        r == if i < bitvec_bits(*v).len() {
            Some(bitvec_bits(*v)[i as int])
        } else {
            None
        },
{
    v.get(i)
}

/// The number of bits in a packet buffer.
pub const CAPACITY: usize = 512;

/// A fixed buffer of `CAPACITY` bits read front to back, one bit per step.
pub struct Packet {
    buffer: BitVec<u8>,
    pos: u16,
}

impl Packet {
    #[verifier::type_invariant]
    spec fn inv(self) -> bool {
        &&& bitvec_bits(self.buffer).len() == CAPACITY
        &&& self.pos <= CAPACITY
    }

    /// The bits of the buffer.
    pub closed spec fn bits(&self) -> Seq<bool> {
        bitvec_bits(self.buffer)
    }

    /// The index of the next bit to be read.
    pub closed spec fn position(&self) -> nat {
        self.pos as nat
    }

    /// A buffer of `CAPACITY` clear bits, read from the start.
    pub fn new() -> (p: Self)
        ensures
            p.bits() == Seq::new(CAPACITY as nat, |i: int| false),
            p.position() == 0,
    {
        Packet { buffer: bitvec_from_elem(CAPACITY, false), pos: 0 }
    }

    /// The bit at `pos`, or `None` past the end of the buffer.
    pub fn get(&self, pos: usize) -> (r: Option<bool>)
        ensures
            r == if pos < self.bits().len() {
                Some(self.bits()[pos as int])
            } else {
                None
            },
    {
        bitvec_get(&self.buffer, pos)
    }

    /// Reads the bit at the current position and moves past it; `None` once the
    /// whole buffer has been read, after which the position stays at the end.
    pub fn next(&mut self) -> (r: Option<bool>)
        ensures
            final(self).bits() == old(self).bits(),
            old(self).position() < CAPACITY ==> r == Some(old(self).bits()[old(self).position() as int])
                && final(self).position() == old(self).position() + 1,
            old(self).position() >= CAPACITY ==> r is None && final(self).position() == old(self).position(),
    {
        proof {
            use_type_invariant(&*self);
        }
        let usized_pos: usize = self.pos as usize;
        let ret = bitvec_get(&self.buffer, usized_pos);
        if usized_pos < CAPACITY {
            self.pos = self.pos + 1;
        }
        ret
    }
}

} // verus!
