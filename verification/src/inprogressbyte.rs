//! An accumulator that appends bits at the low end of a byte and shifts the
//! partial result into final position once, at the end. The packer itself
//! uses the direct-placement accumulator beside `FieldAggregate`, which
//! needs no such final shift; this variant is kept as an alternative with
//! the same contract for the completed byte.

use vstd::prelude::*;

verus! {

use vstd::arithmetic::power2::pow2;
use vstd::arithmetic::power2::lemma2_to64;
use crate::bits::bits_int;
use crate::bits::byte_of;
use crate::bits::lemma_bits_int_bound;
use crate::bits::lemma_bits_int_push;
use crate::bits::lemma_byte_of_bound;
use crate::bits::lemma_pow2_le;

/// Up to 8 bits on their way into one byte, held right-aligned: the bits
/// accepted so far, read MSB-first, are the low end of `value`.
pub struct InProgressByte {
    /// How many bits have been accepted, 0 to 8.
    pub num_bits: u32,
    /// The bits accepted so far, right-aligned; `collapse` moves them into
    /// final, left-aligned position.
    pub value: u8,
    /// The bits accepted so far, in order of acceptance.
    pub bits: Ghost<Seq<bool>>,
}

impl View for InProgressByte {
    type V = Seq<bool>;

    open spec fn view(&self) -> Seq<bool> {
        self.bits@
    }
}

impl InProgressByte {
    /// A consistent accumulator: the value is the MSB-first reading of the
    /// accepted bits, right-aligned.
    pub open spec fn inv(self) -> bool {
        &&& self.bits@.len() == self.num_bits <= 8
        &&& self.value as int == bits_int(self.bits@)
    }

    /// An empty accumulator.
    pub fn new() -> (r: InProgressByte)
        ensures
            r.inv(),
            r@ == Seq::<bool>::empty(),
            r.value == 0,
    {
        InProgressByte { num_bits: 0, value: 0, bits: Ghost(Seq::empty()) }
    }

    /// Append a bit (1 if `bit` is true, 0 otherwise) at the low end of this
    /// byte. Returns true if there was space in this byte to add the bit,
    /// false if not; a full byte is left unchanged.
    pub fn add_bit(&mut self, bit: bool) -> (accepted: bool)
        requires
            old(self).inv(),
        ensures
            final(self).inv(),
            accepted == (old(self)@.len() < 8),
            accepted ==> final(self)@ == old(self)@.push(bit),
            !accepted ==> *final(self) == *old(self),
    {
        if self.num_bits == 8 {
            return false;
        }
        proof {
            lemma_bits_int_bound(self.bits@);
            lemma_pow2_le(self.bits@.len(), 7);
            assert(pow2(7) == 128) by {
                lemma2_to64();
            }
            lemma_bits_int_push(self.bits@, bit);
        }
        self.num_bits = self.num_bits + 1;
        let ghost v0 = self.value;
        self.value = self.value << 1u32;
        let ghost v1 = self.value;
        assert(v1 == 2 * v0) by (bit_vector)
            requires
                v1 == v0 << 1u32,
                v0 < 128u8,
        ;
        if bit {
            self.value = self.value | 1;
            let ghost v2 = self.value;
            assert(v2 == v1 + 1) by (bit_vector)
                requires
                    v2 == v1 | 1u8,
                    v1 % 2 == 0,
            ;
        }
        self.bits = Ghost(self.bits@.push(bit));
        true
    }

    /// Shift the accepted bits to the left so that the first accepted bit
    /// lands in the most significant position: `value` becomes the byte the
    /// bits assemble to, with zero bits padding the unfilled low positions.
    /// At least one bit must have been accepted.
    pub fn collapse(&mut self)
        requires
            old(self).inv(),
            old(self)@.len() >= 1,
        ensures
            final(self)@ == old(self)@,
            final(self).num_bits == old(self).num_bits,
            final(self).value as int == byte_of(old(self)@),
    {
        proof {
            lemma_bits_int_bound(self.bits@);
            lemma_byte_of_bound(self.bits@);
            vstd::bits::lemma_u8_shl_is_mul(self.value, (8 - self.num_bits) as u8);
        }
        self.value = self.value << ((8 - self.num_bits) as u8);
    }

    /// True iff no bit has been accepted yet.
    pub fn empty(&self) -> (r: bool)
        requires
            self.inv(),
        ensures
            r == (self@.len() == 0),
    {
        self.num_bits == 0
    }
}

} // verus!
