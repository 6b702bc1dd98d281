//! Checksum selection and the xxhash digests that guard every entry.
use vstd::prelude::*;

verus! {

/// The xxhash64 digest (seed 0) of `data`.
pub uninterp spec fn xxhash64_of(data: Seq<u8>) -> u64;

/// The xxhash32 digest (seed 0) of `data`.
pub uninterp spec fn xxhash32_of(data: Seq<u8>) -> u32;

/// Relies on `twox_hash::XxHash64` (seed 0, one `write`, then `finish`): the
/// digest is a function of the bytes alone.
#[verifier::external_body]
pub(crate) fn xxhash64(data: &[u8]) -> (r: u64)
    ensures
        r == xxhash64_of(data@),
{
    let mut hasher = twox_hash::XxHash64::with_seed(0);
    std::hash::Hasher::write(&mut hasher, data);
    std::hash::Hasher::finish(&hasher)
}

/// Relies on `twox_hash::XxHash32` (seed 0, one `write`, then `finish`, which
/// widens the 32-bit digest to `u64`): the digest is a function of the bytes
/// alone.
#[verifier::external_body]
pub(crate) fn xxhash32(data: &[u8]) -> (r: u32)
    ensures
        r == xxhash32_of(data@),
{
    let mut hasher = twox_hash::XxHash32::with_seed(0);
    std::hash::Hasher::write(&mut hasher, data);
    std::hash::Hasher::finish(&hasher) as u32
}

/// What checksum function to use for an entry.
#[derive(Copy, Clone, Debug, PartialEq, Eq, Structural)]
pub enum ChecksumType {
    /// Choose xxhash64 or xxhash32 automatically based on data size.
    Auto,
    /// Use the xxhash64 checksum algorithm. Efficient on 64-bit platforms.
    Xxhash64,
    /// Use the xxhash32 checksum algorithm. It takes less space, which suits
    /// short entries.
    Xxhash32,
}

/// Entry flag: the entry carries an 8-byte xxhash64 checksum.
pub const ENTRY_FLAG_XXHASH64: u8 = 1;

/// Entry flag: the entry carries a 4-byte xxhash32 checksum.
pub const ENTRY_FLAG_XXHASH32: u8 = 2;

/// With `ChecksumType::Auto`, entries at least this long use xxhash64.
pub const AUTO_XXHASH64_MIN_LEN: u64 = 64;

/// The entry flag that `checksum_type` selects for an entry of `len` bytes.
pub open spec fn spec_entry_flag(checksum_type: ChecksumType, len: nat) -> u8 {
    match checksum_type {
        ChecksumType::Xxhash64 => ENTRY_FLAG_XXHASH64,
        ChecksumType::Xxhash32 => ENTRY_FLAG_XXHASH32,
        ChecksumType::Auto => if len >= AUTO_XXHASH64_MIN_LEN {
            ENTRY_FLAG_XXHASH64
        } else {
            ENTRY_FLAG_XXHASH32
        },
    }
}

/// Whether `flag` names a checksum algorithm.
pub open spec fn is_entry_flag(flag: u8) -> bool {
    flag == ENTRY_FLAG_XXHASH64 || flag == ENTRY_FLAG_XXHASH32
}

impl ChecksumType {
    /// The entry flag this checksum type selects for an entry of `len` bytes.
    pub fn entry_flag(self, len: usize) -> (r: u8)
        ensures
            r == spec_entry_flag(self, len as nat),
            is_entry_flag(r),
    {
        match self {
            ChecksumType::Xxhash64 => ENTRY_FLAG_XXHASH64,
            ChecksumType::Xxhash32 => ENTRY_FLAG_XXHASH32,
            ChecksumType::Auto => if len as u64 >= AUTO_XXHASH64_MIN_LEN {
                ENTRY_FLAG_XXHASH64
            } else {
                ENTRY_FLAG_XXHASH32
            },
        }
    }
}

} // verus!
