use bitpack::inprogressbyte::InProgressByte;

#[test]
fn test_adding_bits() {
    let mut x = InProgressByte::new();
    assert_eq!(x.add_bit(true), true);
    assert_eq!(x.value, 1);

    assert_eq!(x.add_bit(false), true);
    assert_eq!(x.value, 2);

    assert_eq!(x.add_bit(true), true);
    assert_eq!(x.value, 5);

    assert_eq!(x.add_bit(false), true);
    assert_eq!(x.value, 10);

    assert_eq!(x.add_bit(true), true);
    assert_eq!(x.value, 21);

    assert_eq!(x.add_bit(false), true);
    assert_eq!(x.value, 42);

    assert_eq!(x.add_bit(true), true);
    assert_eq!(x.value, 85);

    assert_eq!(x.add_bit(false), true);
    assert_eq!(x.value, 170);

    // Byte is now full
    assert_eq!(x.add_bit(true), false);
    assert_eq!(x.value, 170);
}

#[test]
fn collapse_left_aligns_partial_byte() {
    let mut x = InProgressByte::new();
    assert_eq!(x.add_bit(true), true);
    assert_eq!(x.add_bit(false), true);
    assert_eq!(x.add_bit(true), true);
    assert_eq!(x.value, 5);
    x.collapse();
    assert_eq!(x.value, 0b10100000);
}

#[test]
fn empty_reports_whether_bits_arrived() {
    let mut x = InProgressByte::new();
    assert!(x.empty());
    x.add_bit(false);
    assert!(!x.empty());
}
