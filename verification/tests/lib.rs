use bitpack::datasize::{max_value, DataSize};
use bitpack::field::Field;

#[test]
fn test_max_value() {
    assert_eq!(max_value(&DataSize::from_bits(2)), 3);
    assert_eq!(max_value(&DataSize::from_bytes(2)), 65535);
}

#[test]
fn lib_test_create_field() {
    Field::new(3, DataSize::from_bits(2));
}

#[test]
fn lib_test_field_iter() {
    let f = Field::new(2, DataSize::from_bits(2));
    let mut it = f.iter();
    let mut bits: Vec<bool> = Vec::new();
    while let Some(b) = it.next() {
        bits.push(b);
    }
    assert_eq!(bits, vec![true, false]);
}

#[test]
fn lib_test_addition() {
    let f1 = Field::new(2, DataSize::from_bits(2));
    let f2 = Field::new(3, DataSize::from_bits(2));
    let f3 = Field::new(3, DataSize::from_bits(2));

    let agg = f1.concat(f2).concat(f3);
    assert_eq!(agg.fields.len(), 3);
}

#[test]
fn lib_test_to_buf() {
    let vec = Field::new(2, DataSize::from_bits(2))
        .concat(Field::new(3, DataSize::from_bits(3)))
        .to_buf();
    assert_eq!(vec.len(), 1);
    assert_eq!(vec[0], 152u8);
}

#[test]
fn max_value_spans_the_full_native_width() {
    // The check must not overflow when the width is all 32 bits.
    assert_eq!(max_value(&DataSize::from_bits(32)), u32::MAX);
    assert_eq!(max_value(&DataSize::from_bytes(4)), u32::MAX);
    assert_eq!(max_value(&DataSize::from_bits(1)), 1);
}
