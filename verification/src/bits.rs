//! The mathematical model of the packer: bit sequences read MSB-first, the
//! byte a (possibly partial) run of up to 8 bits assembles to, and the
//! packing of an arbitrary bit stream into bytes.

use vstd::prelude::*;

verus! {

use vstd::arithmetic::power2::pow2;
use vstd::arithmetic::power2::lemma2_to64;
use vstd::arithmetic::power2::lemma_pow2_adds;
use vstd::arithmetic::power2::lemma_pow2_unfold;
use vstd::arithmetic::power2::lemma_pow2_strictly_increases;
use vstd::arithmetic::div_mod::lemma_mod_multiples_basic;
use vstd::arithmetic::div_mod::lemma_fundamental_div_mod;

/// The integer a bit sequence denotes when read most-significant-bit first:
/// the first element carries the highest weight, the last element is the
/// units bit.
pub open spec fn bits_int(s: Seq<bool>) -> int
    decreases s.len(),
{
    if s.len() == 0 {
        0
    } else {
        2 * bits_int(s.drop_last()) + if s.last() {
            1int
        } else {
            0int
        }
    }
}

/// The byte assembled from up to 8 bits placed MSB-first at their final
/// positions: the first bit is the byte's most significant bit, and the
/// low positions no bit reached are zero.
pub open spec fn byte_of(s: Seq<bool>) -> int
    recommends
        s.len() <= 8,
{
    bits_int(s) * pow2((8 - s.len()) as nat)
}

/// The j-th 8-bit chunk of a bit stream; the final chunk may be shorter
/// than 8 bits.
pub open spec fn chunk(s: Seq<bool>, j: int) -> Seq<bool> {
    s.subrange(
        8 * j,
        if 8 * j + 8 <= s.len() {
            8 * j + 8
        } else {
            s.len() as int
        },
    )
}

/// The number of bytes `n` bits occupy: `ceil(n / 8)`.
pub open spec fn num_bytes(n: nat) -> nat {
    if n % 8 == 0 {
        n / 8
    } else {
        n / 8 + 1
    }
}

/// The byte stream a bit stream packs to: fields of bits laid back to back,
/// 8 bits per byte MSB-first, the final byte padded with trailing zero bits
/// when the stream does not end at a byte boundary.
pub open spec fn pack_bits(s: Seq<bool>) -> Seq<u8> {
    Seq::new(num_bytes(s.len()), |j: int| byte_of(chunk(s, j)) as u8)
}

/// Powers of two do not decrease.
pub proof fn lemma_pow2_le(e1: nat, e2: nat)
    requires
        e1 <= e2,
    ensures
        pow2(e1) <= pow2(e2),
{
    if e1 < e2 {
        lemma_pow2_strictly_increases(e1, e2);
    }
}

/// A bit sequence read MSB-first is non-negative and below 2^len.
pub proof fn lemma_bits_int_bound(s: Seq<bool>)
    ensures
        0 <= bits_int(s) < pow2(s.len()),
    decreases s.len(),
{
    if s.len() == 0 {
        assert(pow2(0) == 1) by {
            lemma2_to64();
        }
    } else {
        lemma_pow2_unfold(s.len());
        lemma_bits_int_bound(s.drop_last());
    }
}

/// Appending a bit doubles the reading and adds the new bit as units.
pub proof fn lemma_bits_int_push(s: Seq<bool>, b: bool)
    ensures
        bits_int(s.push(b)) == 2 * bits_int(s) + if b {
            1int
        } else {
            0int
        },
{
    assert(s.push(b).drop_last() =~= s);
    assert(s.push(b).last() == b);
}

/// The byte a run of bits assembles to is below 256.
pub proof fn lemma_byte_of_bound(s: Seq<bool>)
    requires
        s.len() <= 8,
    ensures
        0 <= byte_of(s) < 256,
{
    lemma_bits_int_bound(s);
    lemma_pow2_adds(s.len(), (8 - s.len()) as nat);
    assert(pow2(8) == 256) by {
        lemma2_to64();
    }
    let a = bits_int(s);
    let m = pow2(s.len()) as int;
    let p = pow2((8 - s.len()) as nat) as int;
    assert(0 < p) by {
        vstd::arithmetic::power2::lemma_pow2_pos((8 - s.len()) as nat);
    }
    assert(a <= m - 1 && 0 < p ==> a * p <= m * p - p) by (nonlinear_arith);
    assert(0 <= a && 0 < p ==> 0 <= a * p) by (nonlinear_arith);
}

/// The positions after the last placed bit are zero: the assembled byte is
/// divisible by 2^(8 - len).
pub proof fn lemma_byte_of_mod(s: Seq<bool>)
    requires
        s.len() <= 8,
    ensures
        byte_of(s) % pow2((8 - s.len()) as nat) as int == 0,
{
    vstd::arithmetic::power2::lemma_pow2_pos((8 - s.len()) as nat);
    lemma_mod_multiples_basic(bits_int(s), pow2((8 - s.len()) as nat) as int);
}

/// Accepting one more bit adds its weight, 2^(7 - len), when the bit is set,
/// and leaves the byte unchanged otherwise.
pub proof fn lemma_byte_of_push(s: Seq<bool>, b: bool)
    requires
        s.len() < 8,
    ensures
        byte_of(s.push(b)) == byte_of(s) + if b {
            pow2((7 - s.len()) as nat) as int
        } else {
            0int
        },
{
    lemma_bits_int_push(s, b);
    let a = bits_int(s);
    let c: int = if b {
        1
    } else {
        0
    };
    let p = pow2((7 - s.len()) as nat) as int;
    lemma_pow2_unfold((8 - s.len()) as nat);
    assert(pow2((8 - s.len()) as nat) == 2 * pow2((7 - s.len()) as nat));
    assert((2 * a + c) * p == a * (2 * p) + c * p) by (nonlinear_arith);
}

/// The bits of `v` in a window of width `w`, most significant first: element
/// `i` is bit `w - 1 - i` of `v`.
pub open spec fn extract_bits(v: u32, w: nat) -> Seq<bool>
    recommends
        w <= 32,
{
    Seq::new(w, |i: int| ((v >> ((w - 1 - i) as u32)) & 1u32) == 1u32)
}

/// Reading the extracted window MSB-first gives the value back, provided the
/// value fits in the window.
pub proof fn lemma_bits_int_extract(v: u32, w: nat)
    requires
        w <= 32,
        (v as int) < pow2(w),
    ensures
        bits_int(extract_bits(v, w)) == v,
    decreases w,
{
    if w == 0 {
        assert(pow2(0) == 1) by {
            lemma2_to64();
        }
        assert(v == 0);
    } else {
        let v1 = v >> 1u32;
        assert(extract_bits(v, w).drop_last() =~= extract_bits(v1, (w - 1) as nat)) by {
            assert forall|i: int| 0 <= i < w - 1 implies extract_bits(v, w).drop_last()[i]
                == extract_bits(v1, (w - 1) as nat)[i] by {
                let k = (w - 1 - i) as u32;
                assert((v >> 1u32) >> ((k - 1) as u32) == v >> k) by (bit_vector)
                    requires
                        1u32 <= k < 32u32,
                ;
            }
        }
        assert(extract_bits(v, w).last() == ((v >> 0u32) & 1u32 == 1u32));
        assert((v1 as int) < pow2((w - 1) as nat)) by {
            assert(v >> 1u32 == v / 2) by (bit_vector);
            lemma_pow2_unfold(w);
            lemma_fundamental_div_mod(v as int, 2);
        }
        lemma_bits_int_extract(v1, (w - 1) as nat);
        assert(v == 2 * (v >> 1u32) + (v & 1u32)) by (bit_vector);
        assert(((v >> 0u32) & 1u32 == 1u32) == ((v & 1u32) == 1u32)) by (bit_vector);
        assert((v & 1u32) == 0u32 || (v & 1u32) == 1u32) by (bit_vector);
    }
}

/// Packing an empty bit stream yields no bytes.
pub proof fn lemma_pack_empty()
    ensures
        pack_bits(Seq::<bool>::empty()) == Seq::<u8>::empty(),
{
    assert(pack_bits(Seq::<bool>::empty()) =~= Seq::<u8>::empty());
}

/// A bit stream that ends exactly at a byte boundary packs with no padding:
/// every byte, the last included, is the MSB-first reading of a full 8-bit
/// chunk of the stream.
pub proof fn lemma_pack_aligned(s: Seq<bool>)
    requires
        s.len() % 8 == 0,
    ensures
        pack_bits(s).len() == s.len() / 8,
        forall|j: int|
            0 <= j < s.len() / 8 ==> (#[trigger] pack_bits(s)[j]) as int == bits_int(
                s.subrange(8 * j, 8 * j + 8),
            ),
{
    assert forall|j: int| 0 <= j < s.len() / 8 implies (#[trigger] pack_bits(s)[j]) as int
        == bits_int(s.subrange(8 * j, 8 * j + 8)) by {
        lemma_fundamental_div_mod(s.len() as int, 8);
        assert(8 * j + 8 <= s.len());
        assert(chunk(s, j) == s.subrange(8 * j, 8 * j + 8));
        lemma_byte_of_bound(chunk(s, j));
        assert(pow2(0) == 1) by {
            lemma2_to64();
        }
        assert(chunk(s, j).len() == 8);
        vstd::arithmetic::mul::lemma_mul_basics(bits_int(chunk(s, j)));
        assert(byte_of(chunk(s, j)) == bits_int(chunk(s, j)) * pow2(0));
        assert(byte_of(chunk(s, j)) == bits_int(chunk(s, j)));
    }
}

/// A bit stream that does not end at a byte boundary packs to
/// `floor(len / 8) + 1` bytes, and only the last byte is padded: its
/// trailing `8 - (len % 8)` bits are zero, so the byte is divisible by
/// 2^(8 - len % 8).
pub proof fn lemma_pack_padded(s: Seq<bool>)
    requires
        s.len() % 8 != 0,
    ensures
        pack_bits(s).len() == s.len() / 8 + 1,
        (pack_bits(s).last() as int) % pow2((8 - s.len() % 8) as nat) as int == 0,
{
    let b = s.len() as int / 8;
    let c = s.len() as int % 8;
    lemma_fundamental_div_mod(s.len() as int, 8);
    let last = chunk(s, b);
    assert(last.len() == c);
    lemma_byte_of_bound(last);
    lemma_byte_of_mod(last);
    assert(pack_bits(s).last() as int == byte_of(last));
}

} // verus!
