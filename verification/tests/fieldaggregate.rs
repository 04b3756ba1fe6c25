use bitpack::datasize::DataSize;
use bitpack::field::Field;
use bitpack::fieldaggregate::{FieldAggregate, InProgressByte};

#[test]
fn fieldaggregate_test_addition() {
    let f1 = Field::new(2, DataSize::from_bits(2));
    let f2 = Field::new(3, DataSize::from_bits(2));
    let f3 = Field::new(3, DataSize::from_bits(2));

    let agg = f1.concat(f2).concat(f3);
    assert_eq!(agg.fields.len(), 3);
}

#[test]
fn fieldaggregate_test_to_buf() {
    let vec = Field::new(2, DataSize::from_bits(2))
        .concat(Field::new(3, DataSize::from_bits(3)))
        .to_buf();
    assert_eq!(vec.len(), 1);
    assert_eq!(vec[0], 152u8);
}

#[test]
fn test_inprogressbyte() {
    let mut x = InProgressByte::new();
    assert_eq!(x.set_next_bit(true), true);
    assert_eq!(x.value, 0b10000000);

    assert_eq!(x.set_next_bit(false), true);
    assert_eq!(x.value, 0b10000000);

    assert_eq!(x.set_next_bit(true), true);
    assert_eq!(x.value, 0b10100000);

    assert_eq!(x.set_next_bit(false), true);
    assert_eq!(x.value, 0b10100000);

    assert_eq!(x.set_next_bit(true), true);
    assert_eq!(x.value, 0b10101000);

    assert_eq!(x.set_next_bit(false), true);
    assert_eq!(x.value, 0b10101000);

    assert_eq!(x.set_next_bit(true), true);
    assert_eq!(x.value, 0b10101010);

    assert_eq!(x.set_next_bit(false), true);
    assert_eq!(x.value, 0b10101010);

    // Byte is now full
    assert_eq!(x.set_next_bit(true), false);
    assert_eq!(x.value, 0b10101010);
}

#[test]
fn to_buf_empty_aggregate_yields_no_bytes() {
    let agg = FieldAggregate::new();
    let vec = agg.to_buf();
    assert!(vec.is_empty());
}

#[test]
fn to_buf_two_one_bit_fields() {
    // A set bit then a clear bit: one byte, 0b10000000.
    let vec = Field::new(1, DataSize::from_bits(1))
        .concat(Field::new(0, DataSize::from_bits(1)))
        .to_buf();
    assert_eq!(vec, vec![128u8]);
}

#[test]
fn to_buf_three_byte_fields() {
    // Three full bytes, no padding anywhere.
    let vec = Field::new(1, DataSize::from_bits(8))
        .concat(Field::new(2, DataSize::from_bits(8)))
        .concat(Field::new(3, DataSize::from_bits(8)))
        .to_buf();
    assert_eq!(vec, vec![0x01u8, 0x02u8, 0x03u8]);
}

#[test]
fn to_buf_exact_multiple_of_eight() {
    // 2 + 3 + 3 bits fill one byte exactly: 10 011 101 == 0x9D.
    let vec = Field::new(2, DataSize::from_bits(2))
        .concat(Field::new(3, DataSize::from_bits(3)))
        .concat(Field::new(5, DataSize::from_bits(3)))
        .to_buf();
    assert_eq!(vec, vec![0x9Du8]);
}

#[test]
fn to_buf_trailing_bits_are_zero() {
    // 3 bits 011 land at the top of the final byte; the 5 unfilled
    // positions stay zero, so the byte is divisible by 2^5.
    let vec = FieldAggregate::new()
        .concat(Field::new(3, DataSize::from_bits(3)))
        .to_buf();
    assert_eq!(vec.len(), 1);
    assert_eq!(vec[0], 0b01100000);
    assert_eq!(vec[0] % 32, 0);
}

#[test]
fn to_buf_spans_byte_boundary() {
    // A 12-bit field: 0xABC becomes 0xAB, then 0xC0 with 4 zero pad bits.
    let vec = FieldAggregate::new()
        .concat(Field::new(0xABC, DataSize::from_bits(12)))
        .to_buf();
    assert_eq!(vec, vec![0xABu8, 0xC0u8]);
}

#[test]
fn to_buf_byte_sized_widths() {
    // Widths declared in bytes pack the same as widths declared in bits.
    let by_bytes = FieldAggregate::new()
        .concat(Field::new(0x1234, DataSize::from_bytes(2)))
        .to_buf();
    let by_bits = FieldAggregate::new()
        .concat(Field::new(0x1234, DataSize::from_bits(16)))
        .to_buf();
    assert_eq!(by_bytes, vec![0x12u8, 0x34u8]);
    assert_eq!(by_bytes, by_bits);
}

#[test]
fn to_buf_twice_yields_identical_bytes() {
    let agg = Field::new(2, DataSize::from_bits(2))
        .concat(Field::new(3, DataSize::from_bits(3)));
    let first = agg.to_buf();
    let second = agg.to_buf();
    assert_eq!(first, second);
}
