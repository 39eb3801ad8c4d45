use aoc25::bloomfilter::BloomFilter;

#[test]
fn bloomfilter_test_construction() {
    let mut bf: BloomFilter<u32> = BloomFilter::new(1024, 3);
    assert_eq!(bf.num_bits(), 1024);
    assert_eq!(bf.num_hashes(), 3);

    bf.insert(404);
    bf.insert(1013);
    bf.insert(234823);

    assert!(bf.has(404));
    assert!(bf.has(1013));
    assert!(bf.has(234823));
}

#[test]
fn a_new_filter_has_no_bit_set() {
    let bf: BloomFilter<u32> = BloomFilter::new(20, 2);
    assert_eq!(bf.num_bits(), 24);
    assert_eq!(bf.num_set_bits(), 0);
    assert!(!bf.marked(5));
}

#[test]
fn marking_sets_one_bit() {
    let mut bf: BloomFilter<u32> = BloomFilter::new(16, 1);
    bf.mark(3);
    bf.mark(19);
    bf.mark(9);
    assert_eq!(bf.num_set_bits(), 2);
    assert!(bf.marked(3));
    assert!(bf.marked(9));
    assert!(bf.marked(25));
    assert!(!bf.marked(4));
}

#[test]
fn an_insert_sets_at_most_one_bit_for_each_hash() {
    let mut bf: BloomFilter<u32> = BloomFilter::new(1024, 4);
    bf.insert(7);
    let set = bf.num_set_bits();
    assert!(1 <= set && set <= 4);
    bf.insert(7);
    assert_eq!(bf.num_set_bits(), set);
}
