//! Checksum validation utilities for storage blocks.

use vstd::prelude::*;

verus! {

/// The CRC-32 (IEEE) checksum of `data`.
pub uninterp spec fn crc32(data: Seq<u8>) -> u32;

/// Calls `crc32fast::hash`: the CRC-32 checksum of `data`, named `crc32`.
#[verifier::external_body]
fn crc32_hash(data: &[u8]) -> (c: u32)
    ensures
        c == crc32(data@),
{
    crc32fast::hash(data)
}

pub fn compute_checksum(data: &[u8]) -> (c: u32)
    ensures
        c == crc32(data@),
{
    crc32_hash(data)
}

pub fn validate_checksum(data: &[u8], expected: u32) -> (r: bool)
    ensures
        r == (crc32(data@) == expected),
{
    compute_checksum(data) == expected
}

/// Declares `crc32fast::Hasher`, an in-progress CRC-32 computation.
#[verifier::external_type_specification]
#[verifier::external_body]
pub struct ExCrc32Hasher(crc32fast::Hasher);

/// The bytes a `crc32fast::Hasher` has absorbed so far, in order.
pub uninterp spec fn hasher_input(h: crc32fast::Hasher) -> Seq<u8>;

/// Calls `crc32fast::Hasher::new`: the hasher has absorbed nothing.
#[verifier::external_body]
fn hasher_new() -> (h: crc32fast::Hasher)
    ensures
        hasher_input(h).len() == 0,
{
    crc32fast::Hasher::new()
}

/// Calls `crc32fast::Hasher::update`: the hasher absorbs `data` after what it held.
/// The hasher counts absorbed bytes in a `u64`, so the total must fit in one.
#[verifier::external_body]
fn hasher_update(h: &mut crc32fast::Hasher, data: &[u8])
    requires
        hasher_input(*old(h)).len() + data@.len() <= u64::MAX,
    ensures
        hasher_input(*final(h)) == hasher_input(*old(h)) + data@,
{
    h.update(data);
}

/// Calls `crc32fast::Hasher::finalize`: the CRC-32 of everything absorbed, which is
/// what `crc32fast::hash` gives for those bytes (`hash` is `new`, `update`, `finalize`).
#[verifier::external_body]
fn hasher_finalize(h: crc32fast::Hasher) -> (c: u32)
    ensures
        c == crc32(hasher_input(h)),
{
    h.finalize()
}

/// Incremental checksum over data fed in pieces.
pub struct ChecksumHasher {
    hasher: crc32fast::Hasher,
}

impl ChecksumHasher {
    /// The bytes fed so far, in order.
    pub closed spec fn view(&self) -> Seq<u8> {
        hasher_input(self.hasher)
    }

    pub fn new() -> (h: Self)
        ensures
            h@.len() == 0,
    {
        ChecksumHasher { hasher: hasher_new() }
    }

    pub fn update(&mut self, data: &[u8])
        requires
            old(self)@.len() + data@.len() <= u64::MAX,
        ensures
            final(self)@ == old(self)@ + data@,
    {
        hasher_update(&mut self.hasher, data);
    }

    /// The checksum of all bytes fed, in order.
    pub fn finalize(self) -> (c: u32)
        ensures
            c == crc32(self@),
    {
        hasher_finalize(self.hasher)
    }
}

impl Default for ChecksumHasher {
    fn default() -> (h: Self)
        ensures
            h@.len() == 0,
    {
        ChecksumHasher::new()
    }
}

} // verus!
