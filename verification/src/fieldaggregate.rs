//! An ordered, append-only aggregation of [`Field`]s and the packing
//! operation that serializes it into a `u8` buffer, MSB-first, with no
//! padding between fields and zero padding only at the end of the final
//! byte.

use vstd::prelude::*;

verus! {

use vstd::arithmetic::power2::pow2;
use vstd::arithmetic::power2::lemma2_to64;
use vstd::arithmetic::div_mod::lemma_fundamental_div_mod_converse;
use crate::bits::bits_int;
use crate::bits::byte_of;
use crate::bits::chunk;
use crate::bits::num_bytes;
use crate::bits::pack_bits;
use crate::bits::lemma_byte_of_bound;
use crate::bits::lemma_byte_of_mod;
use crate::bits::lemma_byte_of_push;
use crate::bits::lemma_pack_aligned;
use crate::bits::lemma_pack_empty;
use crate::bits::lemma_pack_padded;
use crate::bits::lemma_pow2_le;
use crate::field::Field;
use crate::field::field_bits;

/// The bit stream a run of fields serializes to: each field's bits
/// MSB-first, fields in order, packed back to back with no padding between
/// them.
pub open spec fn agg_bits(fields: Seq<Field>) -> Seq<bool>
    decreases fields.len(),
{
    if fields.len() == 0 {
        Seq::empty()
    } else {
        agg_bits(fields.drop_last()) + field_bits(fields.last())
    }
}

/// The total number of bits a run of fields occupies.
pub open spec fn total_bits(fields: Seq<Field>) -> int
    decreases fields.len(),
{
    if fields.len() == 0 {
        0
    } else {
        total_bits(fields.drop_last()) + fields.last().size.bits_spec()
    }
}

/// The bit stream is exactly as long as the widths add up to.
pub proof fn lemma_agg_bits_len(fields: Seq<Field>)
    ensures
        agg_bits(fields).len() == total_bits(fields),
        total_bits(fields) >= 0,
    decreases fields.len(),
{
    if fields.len() > 0 {
        lemma_agg_bits_len(fields.drop_last());
    }
}

/// Serializing one more field appends its bits to the stream.
pub proof fn lemma_agg_bits_take_snoc(fields: Seq<Field>, k: int)
    requires
        0 <= k < fields.len(),
    ensures
        agg_bits(fields.take(k + 1)) == agg_bits(fields.take(k)) + field_bits(fields[k]),
{
    assert(fields.take(k + 1).drop_last() =~= fields.take(k));
    assert(fields.take(k + 1).last() == fields[k]);
}

/// Counting one more field adds its width to the total.
pub proof fn lemma_total_bits_take_snoc(fields: Seq<Field>, k: int)
    requires
        0 <= k < fields.len(),
    ensures
        total_bits(fields.take(k + 1)) == total_bits(fields.take(k)) + fields[k].size.bits_spec(),
{
    assert(fields.take(k + 1).drop_last() =~= fields.take(k));
    assert(fields.take(k + 1).last() == fields[k]);
}

/// A prefix of the fields occupies no more bits than all of them.
pub proof fn lemma_total_bits_take_le(fields: Seq<Field>, k: int)
    requires
        0 <= k <= fields.len(),
    ensures
        total_bits(fields.take(k)) <= total_bits(fields),
    decreases fields.len() - k,
{
    if k == fields.len() {
        assert(fields.take(k) =~= fields);
    } else {
        lemma_total_bits_take_snoc(fields, k);
        lemma_total_bits_take_le(fields, k + 1);
    }
}

/// Up to 8 bits on their way into one byte, each placed directly at its
/// final position: the first accepted bit is the byte's most significant
/// bit, and positions no bit has reached yet are zero.
pub struct InProgressByte {
    /// How many bits have been accepted, 0 to 8.
    pub num_bits: u32,
    /// The byte assembled so far; valid whether or not the byte is full.
    pub value: u8,
    /// The bits accepted so far, in order of acceptance.
    pub bits: Ghost<Seq<bool>>,
}

impl View for InProgressByte {
    type V = Seq<bool>;

    open spec fn view(&self) -> Seq<bool> {
        self.bits@
    }
}

impl InProgressByte {
    /// A consistent accumulator: the value is the byte the accepted bits
    /// assemble to, already at their final positions.
    pub open spec fn inv(self) -> bool {
        &&& self.bits@.len() == self.num_bits <= 8
        &&& self.value as int == byte_of(self.bits@)
    }

    /// An empty accumulator.
    pub fn new() -> (r: InProgressByte)
        ensures
            r.inv(),
            r@ == Seq::<bool>::empty(),
            r.value == 0,
    {
        InProgressByte { num_bits: 0, value: 0, bits: Ghost(Seq::empty()) }
    }

    /// Add a bit (1 if `is_set` is true, 0 otherwise) to this byte, at
    /// position `7 - num_bits` from the top: the first bit accepted becomes
    /// the byte's most significant bit. Returns true if there was space in
    /// this byte to add the bit, false if not; a full byte is left
    /// unchanged.
    pub fn set_next_bit(&mut self, is_set: bool) -> (accepted: bool)
        requires
            old(self).inv(),
        ensures
            final(self).inv(),
            accepted == (old(self)@.len() < 8),
            accepted ==> final(self)@ == old(self)@.push(is_set),
            !accepted ==> *final(self) == *old(self),
    {
        if self.num_bits == 8 {
            return false;
        }
        proof {
            lemma_byte_of_push(self.bits@, is_set);
        }
        if is_set {
            let shift: u32 = 8 - self.num_bits - 1;
            let bit: u32 = 1u32 << shift;
            proof {
                lemma_pow2_le(shift as nat, 7);
                lemma_pow2_le((shift + 1) as nat, 8);
                assert(pow2(7) == 128 && pow2(8) == 256) by {
                    lemma2_to64();
                }
                vstd::bits::lemma_u32_shl_is_mul(1u32, shift);
                vstd::bits::lemma_u32_shl_is_mul(1u32, (shift + 1) as u32);
                lemma_byte_of_mod(self.bits@);
            }
            let b8: u8 = bit as u8;
            let ghost v0 = self.value;
            let ghost s1: u32 = (shift + 1) as u32;
            self.value = self.value | b8;
            let ghost v1 = self.value;
            assert(v1 == v0 + b8 && v0 + b8 < 256) by (bit_vector)
                requires
                    v1 == v0 | b8,
                    (b8 as u32) == 1u32 << shift,
                    shift < 8u32,
                    s1 == shift + 1,
                    (v0 as u32) % (1u32 << s1) == 0,
            ;
        }
        self.num_bits = self.num_bits + 1;
        self.bits = Ghost(self.bits@.push(is_set));
        true
    }

    /// True iff no bit has been accepted yet.
    pub fn empty(&self) -> (r: bool)
        requires
            self.inv(),
        ensures
            r == (self@.len() == 0),
    {
        self.num_bits == 0
    }
}

/// Mid-packing state: `out` holds the completed bytes of the stream packed
/// so far, and `acc` the bits still on their way into the next byte.
spec fn pack_inv(out: Seq<u8>, acc: Seq<bool>, done: Seq<bool>) -> bool {
    &&& 8 * out.len() + acc.len() == done.len()
    &&& acc.len() <= 8
    &&& acc == done.skip(8 * out.len() as int)
    &&& forall|j: int|
        0 <= j < out.len() ==> (#[trigger] out[j]) as int == byte_of(
            done.subrange(8 * j, 8 * j + 8),
        )
}

/// Accepting a bit into an accumulator with room keeps the packing state.
proof fn lemma_pack_inv_accept(out: Seq<u8>, acc: Seq<bool>, done: Seq<bool>, b: bool)
    requires
        pack_inv(out, acc, done),
        acc.len() < 8,
    ensures
        pack_inv(out, acc.push(b), done.push(b)),
{
    let done2 = done.push(b);
    assert(done2.skip(8 * out.len() as int) =~= acc.push(b));
    assert forall|j: int| 0 <= j < out.len() implies (#[trigger] out[j]) as int == byte_of(
        done2.subrange(8 * j, 8 * j + 8),
    ) by {
        assert(done2.subrange(8 * j, 8 * j + 8) =~= done.subrange(8 * j, 8 * j + 8));
    }
}

/// Flushing a full accumulator and starting a new one with the arriving bit
/// keeps the packing state.
proof fn lemma_pack_inv_flush(out: Seq<u8>, acc: Seq<bool>, done: Seq<bool>, v: u8, b: bool)
    requires
        pack_inv(out, acc, done),
        acc.len() == 8,
        v as int == byte_of(acc),
    ensures
        pack_inv(out.push(v), seq![b], done.push(b)),
{
    let done2 = done.push(b);
    let out2 = out.push(v);
    assert(done2.skip(8 * out2.len() as int) =~= seq![b]);
    assert(done2.subrange(8 * out.len() as int, 8 * out.len() as int + 8) =~= acc);
    assert forall|j: int| 0 <= j < out2.len() implies (#[trigger] out2[j]) as int == byte_of(
        done2.subrange(8 * j, 8 * j + 8),
    ) by {
        if j < out.len() {
            assert(done2.subrange(8 * j, 8 * j + 8) =~= done.subrange(8 * j, 8 * j + 8));
            assert(out2[j] == out[j]);
        }
    }
}

/// A packing that ends exactly at a byte boundary is complete: the
/// completed bytes are the packed stream.
proof fn lemma_pack_inv_complete(out: Seq<u8>, done: Seq<bool>)
    requires
        pack_inv(out, Seq::<bool>::empty(), done),
    ensures
        out == pack_bits(done),
{
    lemma_fundamental_div_mod_converse(done.len() as int, 8, out.len() as int, 0);
    assert(num_bytes(done.len()) == out.len());
    assert forall|j: int| 0 <= j < out.len() implies out[j] == pack_bits(done)[j] by {
        assert(chunk(done, j) == done.subrange(8 * j, 8 * j + 8));
        lemma_byte_of_bound(chunk(done, j));
    }
    assert(out =~= pack_bits(done));
}

/// A packing that ends with a non-empty accumulator is completed by
/// flushing it: its byte, zero in the positions no bit reached, is the last
/// byte of the packed stream.
proof fn lemma_pack_inv_complete_partial(out: Seq<u8>, acc: Seq<bool>, done: Seq<bool>, v: u8)
    requires
        pack_inv(out, acc, done),
        1 <= acc.len(),
        v as int == byte_of(acc),
    ensures
        out.push(v) == pack_bits(done),
{
    let b = out.len() as int;
    let c = acc.len() as int;
    if c == 8 {
        lemma_fundamental_div_mod_converse(done.len() as int, 8, b + 1, 0);
    } else {
        lemma_fundamental_div_mod_converse(done.len() as int, 8, b, c);
    }
    assert(num_bytes(done.len()) == b + 1);
    let out2 = out.push(v);
    assert forall|j: int| 0 <= j < b + 1 implies out2[j] == pack_bits(done)[j] by {
        if j < b {
            assert(chunk(done, j) == done.subrange(8 * j, 8 * j + 8));
            lemma_byte_of_bound(chunk(done, j));
        } else {
            assert(chunk(done, b) =~= acc);
            lemma_byte_of_bound(acc);
        }
    }
    assert(out2 =~= pack_bits(done));
}

/// An aggregation of [`Field`]s, in serialization order, which can be
/// serialized into a `u8` buffer.
pub struct FieldAggregate {
    /// The fields, in the order they were appended; that order is the
    /// serialization order.
    pub fields: Vec<Field>,
}

impl FieldAggregate {
    /// Every held field is validated.
    pub open spec fn inv(self) -> bool {
        forall|i: int| 0 <= i < self.fields@.len() ==> (#[trigger] self.fields@[i]).wf()
    }

    /// An empty aggregation.
    pub fn new() -> (r: FieldAggregate)
        ensures
            r.inv(),
            r.fields@ == Seq::<Field>::empty(),
    {
        let r = FieldAggregate { fields: Vec::new() };
        proof {
            assert(r.fields@ =~= Seq::<Field>::empty());
        }
        r
    }

    /// Collapse a [`FieldAggregate`] into a u8 Vec: every field's bits,
    /// MSB-first, packed back to back into `ceil(total_bits / 8)` bytes,
    /// with zero bits padding only the tail of the final byte. Reading the
    /// aggregation only, it can be repeated and always yields the same
    /// bytes.
    #[verifier::loop_isolation(false)]
    pub fn to_buf(&self) -> (buf: Vec<u8>)
        requires
            self.inv(),
            total_bits(self.fields@) <= u32::MAX,
        ensures
            buf@ == pack_bits(agg_bits(self.fields@)),
            buf@.len() == num_bytes(agg_bits(self.fields@).len()),
    {
        proof {
            lemma_agg_bits_len(self.fields@);
        }
        let mut size_bits: u32 = 0;
        let mut i: usize = 0;
        while i < self.fields.len()
            invariant
                i <= self.fields@.len(),
                size_bits == total_bits(self.fields@.take(i as int)),
            decreases self.fields@.len() - i,
        {
            proof {
                lemma_total_bits_take_snoc(self.fields@, i as int);
                lemma_total_bits_take_le(self.fields@, i as int + 1);
            }
            size_bits = size_bits + self.fields[i].size.bits();
            i = i + 1;
        }
        // Add an extra byte if there are bits left over
        let size_bytes: u32 = if size_bits % 8 == 0 {
            size_bits / 8
        } else {
            size_bits / 8 + 1
        };
        let mut vec: Vec<u8> = Vec::with_capacity(size_bytes as usize);
        let mut curr_byte = InProgressByte::new();
        let mut k: usize = 0;
        proof {
            assert(self.fields@.take(0) =~= Seq::<Field>::empty());
            assert(Seq::<bool>::empty().skip(0) =~= Seq::<bool>::empty());
        }
        while k < self.fields.len()
            invariant
                k <= self.fields@.len(),
                curr_byte.inv(),
                pack_inv(vec@, curr_byte@, agg_bits(self.fields@.take(k as int))),
            decreases self.fields@.len() - k,
        {
            let field = self.fields[k];
            let ghost prefix = agg_bits(self.fields@.take(k as int));
            let mut it = field.iter();
            #[verifier::loop_isolation(true)]
            loop
                invariant
                    it.wf(),
                    it.field == field,
                    curr_byte.inv(),
                    pack_inv(vec@, curr_byte@, prefix + field_bits(field).take(it.consumed())),
                ensures
                    curr_byte.inv(),
                    pack_inv(vec@, curr_byte@, prefix + field_bits(field)),
                decreases it.curr_index + 1,
            {
                let ghost pos = it.consumed();
                let ghost done = prefix + field_bits(field).take(pos);
                match it.next() {
                    None => {
                        proof {
                            assert(field_bits(field).take(pos) =~= field_bits(field));
                        }
                        break;
                    },
                    Some(bit) => {
                        proof {
                            assert(field_bits(field).take(pos + 1) =~= field_bits(field).take(
                                pos,
                            ).push(field_bits(field)[pos]));
                            assert(prefix + field_bits(field).take(pos + 1) =~= done.push(bit));
                        }
                        let ghost acc0 = curr_byte@;
                        if !curr_byte.set_next_bit(bit) {
                            proof {
                                lemma_pack_inv_flush(vec@, acc0, done, curr_byte.value, bit);
                            }
                            vec.push(curr_byte.value);
                            curr_byte = InProgressByte::new();
                            let _ = curr_byte.set_next_bit(bit);
                            proof {
                                assert(curr_byte@ =~= seq![bit]);
                            }
                        } else {
                            proof {
                                lemma_pack_inv_accept(vec@, acc0, done, bit);
                            }
                        }
                    },
                }
            }
            proof {
                lemma_agg_bits_take_snoc(self.fields@, k as int);
            }
            k = k + 1;
        }
        proof {
            assert(self.fields@.take(self.fields@.len() as int) =~= self.fields@);
        }
        let ghost all = agg_bits(self.fields@);
        if !curr_byte.empty() {
            proof {
                lemma_pack_inv_complete_partial(vec@, curr_byte@, all, curr_byte.value);
            }
            vec.push(curr_byte.value);
        } else {
            proof {
                assert(curr_byte@ =~= Seq::<bool>::empty());
                lemma_pack_inv_complete(vec@, all);
            }
        }
        vec
    }

    /// Append a field at the end of the serialization order.
    pub fn concat(self, rhs: Field) -> (r: FieldAggregate)
        requires
            self.inv(),
            rhs.wf(),
        ensures
            r.inv(),
            r.fields@ == self.fields@.push(rhs),
    {
        let mut s = self;
        s.fields.push(rhs);
        s
    }
}

/// Packing an empty aggregation yields an empty byte sequence.
pub proof fn lemma_flatten_empty()
    ensures
        pack_bits(agg_bits(Seq::<Field>::empty())) == Seq::<u8>::empty(),
{
    lemma_pack_empty();
}

/// Flattening is deterministic: the packed bytes are a function of the
/// aggregation's contents alone, so flattening the same aggregation twice,
/// with no intervening append, yields byte-identical output. `to_buf`
/// promises exactly `pack_bits(agg_bits(..))` of a shared, unmodified
/// receiver, so any two of its results on the same aggregation coincide.
pub proof fn lemma_flatten_repeatable(fields: Seq<Field>, first: Seq<u8>, second: Seq<u8>)
    requires
        first == pack_bits(agg_bits(fields)),
        second == pack_bits(agg_bits(fields)),
    ensures
        first == second,
{
}

/// When the fields' total bit count is an exact multiple of 8, the buffer
/// carries no padding: every byte, the last included, is exactly the
/// MSB-first reading of a full 8-bit chunk of real field bits.
pub proof fn lemma_flatten_aligned(fields: Seq<Field>)
    requires
        total_bits(fields) % 8 == 0,
    ensures
        pack_bits(agg_bits(fields)).len() == total_bits(fields) / 8,
        forall|j: int|
            0 <= j < total_bits(fields) / 8 ==> (#[trigger] pack_bits(agg_bits(fields))[j]) as int
                == bits_int(agg_bits(fields).subrange(8 * j, 8 * j + 8)),
{
    lemma_agg_bits_len(fields);
    lemma_pack_aligned(agg_bits(fields));
}

/// When the fields' total bit count is not a multiple of 8, the buffer has
/// `floor(total / 8) + 1 == ceil(total / 8)` bytes, and the trailing
/// `8 - (total % 8)` bits of the last byte are zero: the byte is divisible
/// by 2^(8 - total % 8).
pub proof fn lemma_flatten_padded(fields: Seq<Field>)
    requires
        total_bits(fields) % 8 != 0,
    ensures
        pack_bits(agg_bits(fields)).len() == total_bits(fields) / 8 + 1,
        (pack_bits(agg_bits(fields)).last() as int) % pow2((8 - total_bits(fields) % 8) as nat)
            as int == 0,
{
    lemma_agg_bits_len(fields);
    lemma_pack_padded(agg_bits(fields));
}

impl Field {
    /// Start an aggregation from two fields, in order.
    pub fn concat(self, rhs: Field) -> (r: FieldAggregate)
        requires
            self.wf(),
            rhs.wf(),
        ensures
            r.inv(),
            r.fields@ == seq![self, rhs],
    {
        let r = FieldAggregate::new().concat(self).concat(rhs);
        proof {
            assert(r.fields@ =~= seq![self, rhs]);
        }
        r
    }
}

} // verus!
