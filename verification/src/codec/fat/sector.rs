//! Sector size bounds for classic FAT volumes.

use vstd::prelude::*;

verus! {

/// The minimum size (in bytes) a sector is allowed to have
pub const MIN_SECTOR_SIZE: usize = 512;

/// The maximum size (in bytes) a sector is allowed to have
pub const MAX_SECTOR_SIZE: usize = 4096;

/// The supported sector sizes: the powers of two from 512 to 4096.
pub open spec fn supported_sector_size(n: int) -> bool {
    n == 512 || n == 1024 || n == 2048 || n == 4096
}

/// Whether `bytes_per_sector` from a BPB is a supported FAT sector size:
/// a power of two within `[MIN_SECTOR_SIZE, MAX_SECTOR_SIZE]` (512, 1024,
/// 2048, or 4096). Mount rejects anything else *before* using the value
/// to index the sector buffer — a crafted BPB must not slice out of bounds.
#[inline]
pub fn is_valid_sector_size(bytes_per_sector: u16) -> (r: bool)
    ensures
        r == supported_sector_size(bytes_per_sector as int),
{
    bytes_per_sector == 512 || bytes_per_sector == 1024 || bytes_per_sector == 2048
        || bytes_per_sector == 4096
}

} // verus!
