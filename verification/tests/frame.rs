use padagonia::frame::{decode_frame_length, frame_length_prefix};
use padagonia::{StoreError, MAX_FRAME_BYTES};

#[test]
fn oversized_frame_is_rejected() {
    let oversized_len = MAX_FRAME_BYTES + 1;
    let prefix = oversized_len.to_le_bytes();
    let result = decode_frame_length(&prefix);
    assert!(matches!(result, Err(StoreError::FrameTooLarge { len }) if len == oversized_len));
}

#[test]
fn frame_prefix_roundtrips_little_endian() {
    let prefix = frame_length_prefix(0x0102);
    assert_eq!(prefix, vec![2, 1, 0, 0, 0, 0, 0, 0]);
    assert_eq!(decode_frame_length(&prefix).unwrap(), 0x0102);
    assert_eq!(decode_frame_length(&frame_length_prefix(MAX_FRAME_BYTES)).unwrap(), MAX_FRAME_BYTES);
}
