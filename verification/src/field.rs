//! A `Field` is one validated (value, width) pair to be serialized, together
//! with an iterator over its bits from the most significant end.

use vstd::prelude::*;

verus! {

use crate::bits::bits_int;
use crate::bits::extract_bits;
use crate::bits::lemma_bits_int_extract;
use crate::datasize::DataSize;
use crate::datasize::max_value;
use crate::datasize::max_value_spec;

/// The one error of this library: the value handed to `Field` construction
/// does not fit in the declared width. Raised eagerly, at construction;
/// packing itself cannot fail.
#[derive(Debug, Clone, Copy, PartialEq, Eq, Structural)]
pub struct OverflowError;

/// A value and the size (e.g. number of bits) that value should occupy in a
/// buffer. Immutable once constructed; construction checks that the value
/// fits the width.
#[derive(Debug, Clone, Copy, PartialEq, Eq, Structural)]
pub struct Field {
    pub value: u32,
    pub size: DataSize,
}

/// The bit sequence a field serializes to: its value's low `width.bits()`
/// bits, most significant first.
pub open spec fn field_bits(f: Field) -> Seq<bool> {
    extract_bits(f.value, f.size.bits_spec() as nat)
}

impl Field {
    /// A validated field: the width is valid and the value fits in it.
    pub open spec fn wf(self) -> bool {
        &&& self.size.wf()
        &&& self.value as int <= max_value_spec(self.size)
    }

    /// Create a new `Field` with value `value` and size `size`. The value
    /// must fit in the width; `try_new` makes the same check at run time.
    pub fn new(value: u32, size: DataSize) -> (r: Field)
        requires
            size.wf(),
            value as int <= max_value_spec(size),
        ensures
            r == (Field { value, size }),
            r.wf(),
    {
        Field { value, size }
    }

    /// Create a new `Field`, rejecting with `OverflowError` exactly the
    /// values too large to fit into `size`.
    pub fn try_new(value: u32, size: DataSize) -> (r: Result<Field, OverflowError>)
        requires
            size.wf(),
        ensures
            r is Ok <==> value as int <= max_value_spec(size),
            r matches Ok(f) ==> f == (Field { value, size }) && f.wf(),
    {
        if value > max_value(&size) {
            Err(OverflowError)
        } else {
            Ok(Field { value, size })
        }
    }

    /// Create an iterator over the bits in this field, most significant
    /// first.
    pub fn iter(&self) -> (r: FieldIter)
        requires
            self.size.wf(),
        ensures
            r.wf(),
            r.field == *self,
            r.consumed() == 0,
    {
        FieldIter::new(self)
    }
}

/// An iterator over the bits of a [`Field`], from the most significant bit
/// of the declared width down to the units bit.
pub struct FieldIter {
    /// The bit position the next call produces; `-1` when exhausted.
    pub curr_index: i32,
    /// The field whose bits are walked (a copy; `Field` is small and
    /// immutable).
    pub field: Field,
}

impl FieldIter {
    /// A live iterator: the position is within the field's width or just
    /// past its end.
    pub open spec fn wf(self) -> bool {
        &&& self.field.size.wf()
        &&& -1 <= self.curr_index < self.field.size.bits_spec()
    }

    /// How many bits have been produced so far.
    pub open spec fn consumed(self) -> int {
        self.field.size.bits_spec() - 1 - self.curr_index
    }

    fn new(field: &Field) -> (r: FieldIter)
        requires
            field.size.wf(),
        ensures
            r.wf(),
            r.field == *field,
            r.consumed() == 0,
    {
        FieldIter { curr_index: (field.size.bits() - 1) as i32, field: *field }
    }

    /// The next bit of the field, MSB-first: `true` where the bit is set,
    /// `false` where not; `None` once all `width.bits()` bits are produced.
    pub fn next(&mut self) -> (r: Option<bool>)
        requires
            old(self).wf(),
        ensures
            final(self).wf(),
            final(self).field == old(self).field,
            old(self).curr_index == -1 ==> r is None && *final(self) == *old(self),
            old(self).curr_index >= 0 ==> {
                &&& r == Some(field_bits(old(self).field)[old(self).consumed()])
                &&& final(self).curr_index == old(self).curr_index - 1
            },
    {
        match self.curr_index {
            -1 => None,
            index => {
                let val = (self.field.value >> (index as u32)) & 0x1;
                proof {
                    let v = self.field.value;
                    let k = index as u32;
                    assert((v >> k) & 1u32 == 0u32 || (v >> k) & 1u32 == 1u32) by (bit_vector);
                }
                self.curr_index = index - 1;
                Some(val != 0)
            },
        }
    }
}

/// A field's bit sequence has exactly `width.bits()` elements, and read
/// most-significant-bit first it denotes the field's value.
pub proof fn lemma_field_bits_value(f: Field)
    requires
        f.wf(),
    ensures
        field_bits(f).len() == f.size.bits_spec(),
        bits_int(field_bits(f)) == f.value as int,
{
    lemma_bits_int_extract(f.value, f.size.bits_spec() as nat);
}

} // verus!
