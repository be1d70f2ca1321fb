//! Length prefixes of storage frames, with a bound checked before any allocation.

use crate::storage::StoreError;
use vstd::bytes::{spec_u64_from_le_bytes, spec_u64_to_le_bytes, u64_from_le_bytes, u64_to_le_bytes};
use vstd::prelude::*;

verus! {

/// Maximum allowed frame size for security and memory safety.
/// This prevents malicious or corrupted files from causing excessive memory allocation.
pub const MAX_FRAME_BYTES: u64 = 1073741824;

/// The eight-byte little-endian length prefix written before a frame of `len` bytes.
pub fn frame_length_prefix(len: u64) -> (r: Vec<u8>)
    ensures
        r@ == spec_u64_to_le_bytes(len),
        r@.len() == 8,
{
    u64_to_le_bytes(len)
}

/// Reads a frame's length from its eight-byte little-endian prefix and refuses it when
/// it exceeds `MAX_FRAME_BYTES`, before anything is allocated for the frame.
pub fn decode_frame_length(prefix: &[u8]) -> (r: Result<u64, StoreError>)
    requires
        prefix@.len() == 8,
    ensures
        spec_u64_from_le_bytes(prefix@) <= MAX_FRAME_BYTES ==> (r matches Ok(len) && len
            == spec_u64_from_le_bytes(prefix@)),
        spec_u64_from_le_bytes(prefix@) > MAX_FRAME_BYTES ==> (r matches Err(
            StoreError::FrameTooLarge { len },
        ) && len == spec_u64_from_le_bytes(prefix@)),
{
    let len = u64_from_le_bytes(prefix);
    if len > MAX_FRAME_BYTES {
        return Err(StoreError::FrameTooLarge { len });
    }
    Ok(len)
}

/// A frame length written by `frame_length_prefix` reads back as itself, and is
/// accepted exactly when it is within `MAX_FRAME_BYTES`.
pub proof fn frame_length_roundtrip(len: u64)
    ensures
        spec_u64_from_le_bytes(spec_u64_to_le_bytes(len)) == len,
        spec_u64_to_le_bytes(len).len() == 8,
{
    vstd::bytes::lemma_auto_spec_u64_to_from_le_bytes();
}

} // verus!
