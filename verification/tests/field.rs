use bitpack::datasize::DataSize;
use bitpack::field::{Field, OverflowError};

#[test]
fn field_test_create_field() {
    Field::new(3, DataSize::from_bits(2));
}

#[test]
fn field_test_field_iter() {
    let f = Field::new(2, DataSize::from_bits(2));
    let mut it = f.iter();
    let mut bits: Vec<bool> = Vec::new();
    while let Some(b) = it.next() {
        bits.push(b);
    }
    assert_eq!(bits, vec![true, false]);
}

#[test]
fn field_try_new_rejects_overflow() {
    assert_eq!(Field::try_new(10, DataSize::from_bits(2)), Err(OverflowError));
    assert_eq!(Field::try_new(4, DataSize::from_bits(2)), Err(OverflowError));
}

#[test]
fn field_try_new_accepts_fitting_values() {
    let f = Field::try_new(3, DataSize::from_bits(2)).unwrap();
    assert_eq!(f.value, 3);
    assert_eq!(f.size, DataSize::from_bits(2));
    assert!(Field::try_new(0, DataSize::from_bits(1)).is_ok());
    assert!(Field::try_new(u32::MAX, DataSize::from_bits(32)).is_ok());
}

#[test]
fn field_iter_reads_value_msb_first() {
    // 0b10110 over 5 bits, most significant bit first.
    let f = Field::new(0b10110, DataSize::from_bits(5));
    let mut it = f.iter();
    let mut bits: Vec<bool> = Vec::new();
    while let Some(b) = it.next() {
        bits.push(b);
    }
    assert_eq!(bits, vec![true, false, true, true, false]);
}

#[test]
fn field_iter_yields_width_bits() {
    let f = Field::new(0, DataSize::from_bits(32));
    let mut it = f.iter();
    let mut count: u32 = 0;
    while let Some(b) = it.next() {
        assert!(!b);
        count += 1;
    }
    assert_eq!(count, 32);
}

#[test]
fn test() {
    let x = Field::new(2, DataSize::from_bits(2));
    assert_eq!(x.value, 2);
    assert_eq!(x.size, DataSize::from_bits(2));
}
