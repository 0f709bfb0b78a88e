use kamilata::Filter;

#[test]
fn bit_ops() {
    let mut filter = Filter::<4>::new();
    assert!(filter.get_all_set_bits().is_empty());
    filter.set_bit(8, true);
    assert_eq!(filter.get_all_set_bits(), vec![8]);
    filter.set_bit(8, false);
    filter.set_bit(9, true);
    assert_eq!(filter.get_all_set_bits(), vec![9]);
    filter.set_bit(10, true);
    assert_eq!(filter.get_all_set_bits(), vec![9, 10]);
}

#[test]
fn or_ops() {
    let mut filter1 = Filter::<4>::new();
    filter1.set_bit(8, true);
    let filter2 = {
        let mut f = Filter::<4>::new();
        f.set_bit(9, true);
        f
    };
    filter1.bitor_assign_ref(&filter2);
    assert_eq!(filter1.get_all_set_bits(), vec![8, 9]);

    let mut filter1 = Filter::<4>::new();
    filter1.set_bit(8, true);
    let filter2 = {
        let mut f = Filter::<4>::new();
        f.set_bit(8, true);
        f.set_bit(9, true);
        f
    };
    filter1.bitor_assign_ref(&filter2);
    assert_eq!(filter1.get_all_set_bits(), vec![8, 9]);
}

#[test]
fn filter_byte_roundtrip() {
    let mut filter = Filter::<4>::new();
    filter.set_bit(0, true);
    filter.set_bit(13, true);
    filter.set_bit(31, true);
    let bytes = filter.to_bytes();
    assert_eq!(bytes.len(), 4);
    let back = Filter::<4>::from_bytes(bytes).expect("four bytes round-trip");
    assert_eq!(back.get_all_set_bits(), vec![0, 13, 31]);
}

#[test]
fn filter_from_bytes_wrong_length() {
    assert!(Filter::<4>::from_bytes(vec![0u8; 3]).is_none());
    assert!(Filter::<4>::from_bytes(vec![0u8; 5]).is_none());
    assert!(Filter::<4>::from_bytes(vec![0u8; 4]).is_some());
}

#[test]
fn out_of_range_bits_ignored() {
    let mut filter = Filter::<2>::new();
    filter.set_bit(16, true);
    filter.set_bit(1000, true);
    assert!(filter.get_all_set_bits().is_empty());
    assert!(!filter.get_bit(16));
    assert!(!filter.get_bit(1000));
}
