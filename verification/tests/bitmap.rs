use feature_base::tools::bitmap::BitMap;

#[test]
fn lib_it_works() {
    let result = 2 + 2;
    assert_eq!(result, 4);
}

#[test]
fn it_works() {
    let result = 2 + 2;
    assert_eq!(result, 4);
}

#[test]
fn test_new() {
    let mut bit_map = BitMap::new(129);
    println!("{:?}", bit_map);

    let id1 = bit_map.first_false_value().unwrap();
    println!("id:{}", id1);
    bit_map.set(id1, true);

    let id2 = bit_map.first_false_value().unwrap();
    println!("id:{}", id2);
    bit_map.set(id2, true);

    let id3 = bit_map.first_false_value().unwrap();
    println!("id:{}", id3);
    bit_map.set(id3, true);

    bit_map.set(id1, false);
    println!("{:?}", bit_map);

    let id4 = bit_map.first_false_value().unwrap();
    println!("id:{}", id4);
    bit_map.set(id4, true);

    let id5 = bit_map.first_false_value().unwrap();
    println!("id:{}", id5);
    bit_map.set(id5, true);

    println!("{:?}", bit_map);
}

#[test]
fn test_set() {
    let mask = u8::MAX - (1 << 7);
    println!("mask:{},{},{}", u8::MAX, mask, (1 << 7) as u8);
}

#[test]
fn bitmap_hands_out_the_lowest_free_index() {
    let mut bit_map = BitMap::new(129);
    assert_eq!(bit_map.first_false_value(), Some(0));
    bit_map.set(0, true);
    assert_eq!(bit_map.first_false_value(), Some(1));
    bit_map.set(1, true);
    bit_map.set(2, true);
    assert_eq!(bit_map.first_false_value(), Some(3));
    bit_map.set(0, false);
    assert_eq!(bit_map.first_false_value(), Some(0));
    assert!(!bit_map.get(0));
    assert!(bit_map.get(1));
    assert!(bit_map.get(2));
    assert!(!bit_map.get(3));
}

#[test]
fn bitmap_index_zero_is_the_high_bit_of_word_zero() {
    let mut bit_map = BitMap::new(129);
    assert_eq!(bit_map.size(), 129);
    assert_eq!(bit_map.words().len(), 3);
    bit_map.set(0, true);
    assert_eq!(bit_map.words()[0], 1u64 << 63);
    bit_map.set(63, true);
    assert_eq!(bit_map.words()[0], (1u64 << 63) | 1);
    bit_map.set(64, true);
    assert_eq!(bit_map.words()[1], 1u64 << 63);
    bit_map.set(128, true);
    assert_eq!(bit_map.words()[2], 1u64 << 63);
    bit_map.set(0, false);
    assert_eq!(bit_map.words()[0], 1);
}

#[test]
fn bitmap_that_is_full_has_no_free_index() {
    let mut bit_map = BitMap::new(130);
    for i in 0..130 {
        assert_eq!(bit_map.first_false_value(), Some(i));
        bit_map.set(i, true);
    }
    assert_eq!(bit_map.first_false_value(), None);
    bit_map.set(129, false);
    assert_eq!(bit_map.first_false_value(), Some(129));
    bit_map.set(64, false);
    assert_eq!(bit_map.first_false_value(), Some(64));
}

#[test]
fn bitmap_of_a_multiple_of_the_word_size_has_a_spare_word() {
    let bit_map = BitMap::new(128);
    assert_eq!(bit_map.words().len(), 3);
    let empty = BitMap::new(0);
    assert_eq!(empty.words().len(), 1);
    assert_eq!(empty.first_false_value(), None);
}
