use padagonia::checksum::ChecksumHasher;
use padagonia::{compute_checksum, validate_checksum};

#[test]
fn crc32_of_known_input() {
    assert_eq!(compute_checksum(b"123456789"), 0xCBF43926);
    assert_eq!(compute_checksum(b""), 0);
}

#[test]
fn validation_matches_only_the_right_checksum() {
    assert!(validate_checksum(b"hello", compute_checksum(b"hello")));
    assert!(!validate_checksum(b"hello", compute_checksum(b"hellp")));
}

#[test]
fn streaming_hasher_agrees_with_one_shot() {
    let mut h = ChecksumHasher::new();
    h.update(b"1234");
    h.update(b"56789");
    assert_eq!(h.finalize(), 0xCBF43926);
}
