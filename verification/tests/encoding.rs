use dmto_ecash::encoding::{
    append_bytes, be_compare, be_is_zero, be_sub32, bytes_equal, copy_bytes, u32_to_be, Relation,
};

fn word(n: u64) -> [u8; 32] {
    let mut bytes = [0u8; 32];
    bytes[24..].copy_from_slice(&n.to_be_bytes());
    bytes
}

fn high_word(first: u8, n: u64) -> [u8; 32] {
    let mut bytes = word(n);
    bytes[0] = first;
    bytes
}

#[test]
fn compare_reads_most_significant_byte_first() {
    assert!(be_compare(&word(1), &word(256)) == Relation::Less);
    assert!(be_compare(&word(256), &word(255)) == Relation::Greater);
    assert!(be_compare(&word(0x0709), &word(0x0709)) == Relation::Equal);
    assert!(be_compare(&word(0x0708), &word(0x0709)) == Relation::Less);
    assert!(be_compare(&word(0), &word(0)) == Relation::Equal);
    assert!(be_compare(&high_word(1, 0), &high_word(0, u64::MAX)) == Relation::Greater);
    assert!(be_compare(&high_word(1, 0), &high_word(2, 0)) == Relation::Less);
}

#[test]
fn compare_of_full_words() {
    assert!(be_compare(&word(5), &word(6)) == Relation::Less);
    assert!(be_compare(&word(u64::MAX), &word(0)) == Relation::Greater);
    assert!(be_compare(&word(u64::MAX), &high_word(1, 0)) == Relation::Less);
    assert!(be_compare(&[0xff; 32], &[0xff; 32]) == Relation::Equal);
    assert!(be_compare(&[0xfe; 32], &[0xff; 32]) == Relation::Less);
}

#[test]
fn bytes_equal_needs_same_length_and_bytes() {
    assert!(bytes_equal(&[1, 2, 3], &[1, 2, 3]));
    assert!(!bytes_equal(&[1, 2, 3], &[1, 2, 4]));
    assert!(!bytes_equal(&[1, 2, 3], &[1, 2]));
    assert!(bytes_equal(&[], &[]));
}

#[test]
fn zero_test_looks_at_every_byte() {
    assert!(be_is_zero(&[0, 0, 0]));
    assert!(!be_is_zero(&[0, 0, 1]));
    assert!(!be_is_zero(&[1, 0, 0]));
    assert!(be_is_zero(&[]));
}

#[test]
fn subtraction_borrows_across_bytes() {
    assert_eq!(be_sub32(&word(0x0100), &word(1)), (word(0xff), false));
    assert_eq!(be_sub32(&word(0x1_0000_0000), &word(1)), (word(0xffff_ffff), false));
    assert_eq!(be_sub32(&word(1000), &word(1000)), (word(0), false));
    assert_eq!(be_sub32(&word(12345), &word(0)), (word(12345), false));
    let mut expected = [0xffu8; 32];
    expected[0] = 0;
    assert_eq!(be_sub32(&high_word(1, 0), &word(1)), (expected, false));
}

#[test]
fn subtraction_wraps_around_below_zero() {
    assert_eq!(be_sub32(&word(0), &word(1)), ([0xff; 32], true));
    let mut expected = [0xffu8; 32];
    expected[31] = 0xfe;
    assert_eq!(be_sub32(&word(5), &word(7)), (expected, true));
    assert_eq!(be_sub32(&word(0), &[0xff; 32]), (word(1), true));
}

#[test]
fn counter_bytes_are_big_endian() {
    assert_eq!(u32_to_be(0x0102_0304), [1, 2, 3, 4]);
    assert_eq!(u32_to_be(0), [0, 0, 0, 0]);
    assert_eq!(u32_to_be(u32::MAX), [255, 255, 255, 255]);
    assert_eq!(u32_to_be(256), [0, 0, 1, 0]);
}

#[test]
fn append_and_copy_keep_the_bytes() {
    let mut buffer = vec![1u8, 2];
    append_bytes(&mut buffer, &[3, 4, 5]);
    assert_eq!(buffer, vec![1, 2, 3, 4, 5]);
    append_bytes(&mut buffer, &[]);
    assert_eq!(buffer, vec![1, 2, 3, 4, 5]);
    assert_eq!(copy_bytes(&[9, 8, 7]), vec![9, 8, 7]);
    assert_eq!(copy_bytes(&[]), Vec::<u8>::new());
}
