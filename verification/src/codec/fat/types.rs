//! Index/count type aliases for on-disk layouts.

use vstd::prelude::*;

verus! {

pub type ClusterIndex = u32;

pub type ClusterCount = u32;

pub type SectorIndex = u32;

pub type SectorCount = u32;

pub type EntryCount = u16;

pub type FileSize = u32;

/// FAT width of a volume; FAT12 is rejected at mount.
#[derive(Debug, Clone, Copy, PartialEq, Eq, Structural)]
pub enum FatType {
    /// 16-bit entries. Volume size ~8 MB – 16 GB.
    FAT16,
    /// 32-bit entries. Volume size ~256 MB – 16 TB.
    FAT32,
}

impl FatType {
    /// Bytes per allocation-table cell.
    pub open spec fn cell_bytes(self) -> int {
        match self {
            FatType::FAT16 => 2,
            FatType::FAT32 => 4,
        }
    }

    /// How many bytes each FAT entry occupies on disk.
    #[inline]
    pub fn entry_size(&self) -> (r: u8)
        ensures
            r == self.cell_bytes(),
    {
        match self {
            FatType::FAT16 => 2,
            FatType::FAT32 => 4,
        }
    }
}

} // verus!
