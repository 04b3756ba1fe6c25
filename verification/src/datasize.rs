//! The width a field occupies in the packed output, as a tagged unit:
//! a count of bits or a count of bytes. The packer reads only the total
//! bit count.

use vstd::prelude::*;

verus! {

use vstd::arithmetic::power2::pow2;
use vstd::arithmetic::power2::lemma2_to64;
use vstd::arithmetic::power2::lemma_pow2_unfold;
use crate::bits::lemma_pow2_le;

/// How wide a field is: a number of bits, or a number of bytes (8 bits
/// each). A field value is held in a `u32`, so a valid width spans 1 to 32
/// bits; a zero-width field is not supported and is rejected at
/// construction.
#[derive(Debug, Clone, Copy, PartialEq, Eq, Structural)]
pub enum DataSize {
    Bits(u32),
    Bytes(u32),
}

impl DataSize {
    /// The number of bits this width spans.
    pub open spec fn bits_spec(self) -> int {
        match self {
            DataSize::Bits(n) => n as int,
            DataSize::Bytes(n) => 8 * n,
        }
    }

    /// A valid width: at least one bit, at most the 32 bits of a field
    /// value.
    pub open spec fn wf(self) -> bool {
        1 <= self.bits_spec() <= 32
    }

    /// A width of `n` bits.
    pub fn from_bits(n: u32) -> (r: DataSize)
        requires
            1 <= n <= 32,
        ensures
            r == DataSize::Bits(n),
            r.wf(),
            r.bits_spec() == n,
    {
        DataSize::Bits(n)
    }

    /// A width of `n` bytes, i.e. `8 * n` bits.
    pub fn from_bytes(n: u32) -> (r: DataSize)
        requires
            1 <= n <= 4,
        ensures
            r == DataSize::Bytes(n),
            r.wf(),
            r.bits_spec() == 8 * n,
    {
        DataSize::Bytes(n)
    }

    /// The number of bits this width spans.
    pub fn bits(&self) -> (r: u32)
        requires
            self.wf(),
        ensures
            r as int == self.bits_spec(),
            1 <= r <= 32,
    {
        match self {
            DataSize::Bits(n) => *n,
            DataSize::Bytes(n) => 8 * *n,
        }
    }
}

/// The largest value that fits in `size`: `2^bits - 1`.
pub open spec fn max_value_spec(size: DataSize) -> int {
    pow2(size.bits_spec() as nat) - 1
}

/// The maximum value that can be held in `size`, built by setting its
/// `bits()` low-order bits one at a time.
pub fn max_value(size: &DataSize) -> (r: u32)
    requires
        size.wf(),
    ensures
        r as int == max_value_spec(*size),
{
    let n = size.bits();
    let mut v: u32 = 0;
    let mut j: u32 = 0;
    assert(pow2(1) == 2) by {
        lemma2_to64();
    }
    while j < n - 1
        invariant
            1 <= n <= 32,
            j <= n - 1,
            v as int == pow2((j + 1) as nat) - 2,
        decreases n - 1 - j,
    {
        proof {
            lemma_pow2_unfold((j + 1) as nat);
            lemma_pow2_le((j + 1) as nat, 31);
            assert(pow2(31) == 0x8000_0000) by {
                lemma2_to64();
            }
        }
        let ghost v0 = v;
        v = v | 1;
        assert(v == v0 + 1) by (bit_vector)
            requires
                v == v0 | 1u32,
                v0 % 2 == 0,
        ;
        let ghost v1 = v;
        v = v << 1u32;
        assert(v == 2 * v1) by (bit_vector)
            requires
                v == v1 << 1u32,
                v1 < 0x8000_0000u32,
        ;
        proof {
            lemma_pow2_unfold((j + 2) as nat);
        }
        j = j + 1;
    }
    proof {
        lemma_pow2_unfold(n as nat);
        lemma_pow2_le(n as nat, 32);
        assert(pow2(32) == 0x1_0000_0000) by {
            lemma2_to64();
        }
    }
    let ghost v0 = v;
    let r = v | 1;
    assert(r == v0 + 1) by (bit_vector)
        requires
            r == v0 | 1u32,
            v0 % 2 == 0,
    ;
    r
}

} // verus!
