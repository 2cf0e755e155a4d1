use shortest_paths::gosper_subset::{BitSubset, Gosper};

#[test]
fn test_initial_value() {
    assert_eq!(1, Gosper::new(1, 24).next().unwrap());
    assert_eq!(0b111, Gosper::new(3, 24).next().unwrap());
    assert_eq!(None, Gosper::new(0, 24).next());
    assert_eq!(!(0 as u32), Gosper::new(32, 32).next().unwrap());
}

#[test]
#[should_panic]
fn test_invalid_args() {
    Gosper::new(10, 5);
}

#[test]
fn test_bit_subset_correctness() {
    let bs = BitSubset::new(0b0100101);
    let v = bs.to_indices();
    assert_eq!(vec![0, 2, 5], v);

    let empty_vec: Vec<usize> = vec![];
    assert_eq!(empty_vec, BitSubset::new(0).to_indices());

    let full_vec: Vec<usize> = vec![0, 1, 2, 3, 4, 5, 6, 7, 8, 9, 10, 11, 12, 13, 14, 15];
    assert_eq!(full_vec, BitSubset::new(0xFFFF).to_indices());
}

#[test]
fn gosper_walks_single_bits_in_order() {
    let mut gosper = Gosper::new(1, 8);
    let mut seen: Vec<u32> = vec![];
    while let Some(set) = gosper.next() {
        seen.push(set);
    }
    assert_eq!(
        seen,
        vec![0b1, 0b10, 0b100, 0b1000, 0b10000, 0b100000, 0b1000000, 0b10000000]
    );
}

#[test]
fn gosper_choice_counts() {
    // the largest subset word holds exactly subset_size set bits, so
    // the choice recurrence collapses to one for every subset size
    assert_eq!(1, Gosper::new(1, 8).total_choices());
    assert_eq!(1, Gosper::new(3, 8).total_choices());
    assert_eq!(1, Gosper::new(8, 8).total_choices());
    assert_eq!(1, Gosper::new(0, 8).total_choices());
}
