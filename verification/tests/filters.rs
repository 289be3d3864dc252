use sha2::Digest;
use neutrondb::bloom::{Bit, Bloom};
use neutrondb::bloom_filter;

fn ones(filter: &[u8]) -> u32 {
    filter.iter().map(|b| b.count_ones()).sum()
}

#[test]
fn inserted_key_is_found() {
    let filter = bloom_filter::insert(vec![0u8; 32], "apple");
    assert!(bloom_filter::lookup(&filter, "apple"));
}

#[test]
fn insert_sets_at_most_five_bits() {
    let filter = bloom_filter::insert(vec![0u8; 32], "apple");
    let n = ones(&filter);
    assert!(n >= 2 && n <= 5);
}

#[test]
fn insert_keeps_earlier_keys() {
    let filter = bloom_filter::insert(vec![0u8; 32], "apple");
    let filter = bloom_filter::insert(filter, "pear");
    assert!(bloom_filter::lookup(&filter, "apple"));
    assert!(bloom_filter::lookup(&filter, "pear"));
}

#[test]
fn empty_filter_finds_nothing() {
    assert!(!bloom_filter::lookup(&vec![0u8; 32], "apple"));
}

#[test]
fn full_filter_finds_everything() {
    assert!(bloom_filter::lookup(&vec![0xffu8; 32], "anything"));
}

#[test]
fn short_filter_is_refused() {
    assert_eq!(bloom_filter::try_insert(vec![], "apple"), None);
    assert_eq!(bloom_filter::try_lookup(&vec![], "apple"), None);
    let filter = bloom_filter::try_insert(vec![0u8; 32], "apple").unwrap();
    assert_eq!(bloom_filter::try_lookup(&filter, "apple"), Some(true));
}

#[test]
fn bloom_new_has_ten_bits_per_item() {
    let b = Bloom::new(3);
    assert_eq!(b.bits.len(), 30);
    assert!(b.bits.iter().all(|x| *x == Bit::Zero));
}

#[test]
fn bloom_insert_sets_ones() {
    let b = Bloom::new(10).insert("key");
    let n = b.bits.iter().filter(|x| **x == Bit::One).count();
    assert!(n >= 1 && n <= 5);
    assert_eq!(b.bits.len(), 100);
}

#[test]
fn bloom_search_reports_a_zero_bit() {
    let b = Bloom::new(1);
    assert!(b.search("key"));
    let full = Bloom { bits: vec![Bit::One; 10] };
    assert!(!full.search("key"));
}

fn set_bit(filter: &mut [u8], position: u8) {
    filter[(position / 8) as usize] |= 0x80 >> (position % 8);
}

#[test]
fn insert_sets_the_first_byte_of_each_digest() {
    let key = "apple";
    let positions = [
        blake3::hash(key.as_bytes()).as_bytes()[0],
        sha2::Sha256::digest(key.as_bytes())[0],
        sha2::Sha512::digest(key.as_bytes())[0],
        sha3::Sha3_256::digest(key.as_bytes())[0],
        sha3::Sha3_512::digest(key.as_bytes())[0],
    ];
    let mut expected = vec![0u8; 32];
    for p in positions {
        set_bit(&mut expected, p);
    }
    assert_eq!(bloom_filter::insert(vec![0u8; 32], key), expected);
}

#[test]
fn bloom_positions_come_from_the_fides_hash() {
    let key = "key";
    let hash = fides::hash::blake_3(key.as_bytes());
    let mut expected = vec![Bit::Zero; 50];
    for x in 0..5 {
        let word = u32::from_le_bytes(hash[x * 4..x * 4 + 4].try_into().unwrap()) as usize;
        expected[word % 50] = Bit::One;
    }
    assert_eq!(Bloom::new(5).insert(key).bits, expected);
    let mut searched = vec![Bit::One; 50];
    let word = u32::from_le_bytes(hash[6..10].try_into().unwrap()) as usize;
    searched[word % 50] = Bit::Zero;
    assert!(Bloom { bits: searched }.search(key));
}

#[test]
fn insert_only_sets_bits_and_leaves_bytes_past_32() {
    let mut filter = vec![0u8; 40];
    filter[3] = 0b1010_0000;
    filter[35] = 0x5a;
    let inserted = bloom_filter::insert(filter.clone(), "apple");
    assert_eq!(inserted.len(), filter.len());
    for i in 0..filter.len() {
        assert_eq!(inserted[i] & filter[i], filter[i]);
    }
    assert_eq!(&inserted[32..], &filter[32..]);
}

#[test]
fn insert_twice_is_insert_once() {
    let once = bloom_filter::insert(vec![0u8; 32], "pear");
    let twice = bloom_filter::insert(once.clone(), "pear");
    assert_eq!(once, twice);
}

#[test]
fn inserted_positions_read_as_set() {
    let mut filter = vec![0u8; 32];
    filter[2] = 0b0100_0000;
    let inserted = bloom_filter::insert(filter.clone(), "plum");
    assert!(bloom_filter::lookup(&inserted, "plum"));
    // the bit set before stays set
    assert_eq!(inserted[2] & 0b0100_0000, 0b0100_0000);
}
