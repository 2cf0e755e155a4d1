use shortest_paths::bits::Bits;

#[test]
fn test_bit_count() {
    assert_eq!(Bits::count(&0), 0);
    assert_eq!(Bits::count(&1), 1);
    assert_eq!(Bits::count(&2), 1);
    assert_eq!(Bits::count(&3), 2);
    assert_eq!(Bits::count(&0x0000000F), 4);
    assert_eq!(Bits::count(&0xF000000F), 8);
    assert_eq!(Bits::count(&0xF000000F), 8);
    assert_eq!(Bits::count(&0b0100010110011), 6);
}

#[test]
fn test_hamming_distance() {
    assert_eq!(Bits::hamming_distance(&1, &2), 2);
    assert_eq!(Bits::hamming_distance(&2, &3), 1);
    assert_eq!(Bits::hamming_distance(&3, &0), 2);
    assert_eq!(Bits::hamming_distance(&0x0000000F, &0), 4);
    assert_eq!(Bits::hamming_distance(&0xF000000F, &0x0000000F), 4);
    assert_eq!(Bits::hamming_distance(&0x1000000F, &0xF000000F), 3);
    assert_eq!(Bits::hamming_distance(&0b0100010110011, &0xF0000000), 10);
}
