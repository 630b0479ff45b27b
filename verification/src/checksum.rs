//! CRC-32, and the choice of a partition by it.
use vstd::prelude::*;

verus! {

/// The CRC-32 checksum of the bytes, as `crc32fast::hash` computes it.
pub uninterp spec fn crc32_of(bytes: Seq<u8>) -> u32;

/// `crc32fast::hash` is a function of the bytes alone. Which number it is, is left unsaid.
#[verifier::external_body]
pub(crate) fn crc32(bytes: &[u8]) -> (r: u32)
    ensures
        r == crc32_of(bytes@),
{
    crc32fast::hash(bytes)
}

/// The partition that a key belongs to.
pub open spec fn partition_of_key(key: Seq<u8>, num_partitions: int) -> int {
    if num_partitions == 0 {
        0
    } else {
        crc32_of(key) as int % num_partitions
    }
}

/// The partition for a checksum, among so many.
pub fn partition_for(hash: u32, num_partitions: usize) -> (r: u32)
    ensures
        r == (if num_partitions == 0 {
            0
        } else {
            hash as int % num_partitions as int
        }),
        num_partitions > 0 ==> r < num_partitions,
{
    if num_partitions == 0 {
        return 0;
    }
    let r: u64 = hash as u64 % num_partitions as u64;
    assert(r <= hash) by (nonlinear_arith)
        requires
            num_partitions > 0,
            r == hash as u64 % num_partitions as u64,
    ;
    r as u32
}

/// Chooses a partition by the checksum of a record's key.
pub fn hash_key(key: &[u8], num_partitions: usize) -> (r: u32)
    ensures
        r == partition_of_key(key@, num_partitions as int),
        num_partitions > 0 ==> r < num_partitions,
{
    partition_for(crc32(key), num_partitions)
}

} // verus!
