//! FAT table slot decoding — a raw cell value to its meaning.

use vstd::prelude::*;

use crate::codec::fat::types::{ClusterCount, ClusterIndex, FatType};

verus! {

/// The meaning of one File-Allocation-Table cell.
#[derive(Debug, Clone, Copy, PartialEq, Eq, Structural)]
pub enum FatEntry {
    /// Unallocated and available.
    Free,
    /// In use; the chain continues at the given cluster.
    Next(ClusterIndex),
    /// In use and terminal — the last cluster of its chain.
    End,
    /// Marked defective.
    Bad,
    /// Reserved or out of range; traversal treats it as a chain end.
    Reserved,
}

impl FatType {
    /// Number of values the low bits of a cell can take (the top nibble of
    /// a FAT32 cell is reserved and ignored).
    pub open spec fn cell_values(self) -> int {
        match self {
            FatType::FAT16 => 0x1_0000,
            FatType::FAT32 => 0x1000_0000,
        }
    }

    /// Low bits of a cell that carry the cluster value.
    #[inline]
    fn value_mask(self) -> (r: u32)
        ensures
            r == self.cell_values() - 1,
    {
        match self {
            FatType::FAT16 => 0x0000_FFFF,
            FatType::FAT32 => 0x0FFF_FFFF,
        }
    }

    /// The defective-cluster marker for this width.
    #[inline]
    fn bad_marker(self) -> (r: u32)
        ensures
            r == self.cell_values() - 9,
    {
        self.value_mask() - 8
    }

    /// Smallest value that denotes end-of-chain (`…F8` … `…FF`).
    #[inline]
    fn end_floor(self) -> (r: u32)
        ensures
            r == self.cell_values() - 8,
    {
        self.value_mask() - 7
    }

    /// The end-of-chain value written for a chain's final cluster.
    #[inline]
    pub fn end_value(self) -> (r: u32)
        ensures
            r == self.cell_values() - 1,
    {
        self.value_mask()
    }
}

/// What a cell with the given value means on a volume whose highest data
/// cluster is `max_cluster`.
pub open spec fn cell_meaning(raw: int, max_cluster: int, fat_type: FatType) -> FatEntry {
    let n = fat_type.cell_values();
    let cell = raw % n;
    if cell == 0 {
        FatEntry::Free
    } else if cell == n - 9 {
        FatEntry::Bad
    } else if cell >= n - 8 {
        FatEntry::End
    } else if 2 <= cell <= max_cluster {
        FatEntry::Next(cell as u32)
    } else {
        FatEntry::Reserved
    }
}

/// Decode a raw FAT cell. `max_cluster` is the highest valid data-cluster
/// index (`CountofClusters + 1`); references are fenced to `2..=max_cluster`.
#[inline]
pub fn decode_fat_cell(raw: u32, max_cluster: ClusterCount, fat_type: FatType) -> (r: FatEntry)
    ensures
        r == cell_meaning(raw as int, max_cluster as int, fat_type),
{
    let cell: u32 = match fat_type {
        FatType::FAT16 => raw % 0x1_0000,
        FatType::FAT32 => raw % 0x1000_0000,
    };
    if cell == 0 {
        FatEntry::Free
    } else if cell == fat_type.bad_marker() {
        FatEntry::Bad
    } else if cell >= fat_type.end_floor() {
        FatEntry::End
    } else if 2 <= cell && cell <= max_cluster {
        FatEntry::Next(cell)
    } else {
        FatEntry::Reserved
    }
}

/// The reserved top nibble of a FAT32 cell never changes its meaning.
pub proof fn law_fat32_top_nibble_ignored(raw: int, nibble: int, max_cluster: int)
    requires
        0 <= raw < 0x1000_0000,
        0 <= nibble < 16,
    ensures
        cell_meaning(raw + nibble * 0x1000_0000, max_cluster, FatType::FAT32) == cell_meaning(
            raw,
            max_cluster,
            FatType::FAT32,
        ),
{
}

/// A link that was written reads back as that link, and the end marker as
/// the end of the chain.
pub proof fn law_written_cells_read_back(next: u32, max_cluster: int, fat_type: FatType)
    requires
        2 <= next <= max_cluster,
        next < fat_type.cell_values() - 9,
    ensures
        cell_meaning(next as int, max_cluster, fat_type) == FatEntry::Next(next),
        cell_meaning(fat_type.cell_values() - 1, max_cluster, fat_type) == FatEntry::End,
        cell_meaning(0, max_cluster, fat_type) == FatEntry::Free,
{
}

} // verus!
