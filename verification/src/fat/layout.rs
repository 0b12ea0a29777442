//! Where things lie on a FAT volume, and what a volume operation leaves on
//! the disk.

use vstd::prelude::*;

use crate::bytes::{le16, le32, spliced};
use crate::codec::fat::bpb::{Ebr, Fat32FsInfo, FatBootRecord};
use crate::codec::fat::fat_entry::{cell_meaning, FatEntry};
use crate::codec::fat::sector::supported_sector_size;
use crate::codec::fat::types::{ClusterCount, ClusterIndex, FatType, SectorCount, SectorIndex};
use crate::error::{file_error_of, CorruptKind, FileError, FsError};
use crate::num::saturated32;

verus! {

/// Cells 0 and 1 of the FAT are reserved; data clusters count from 2.
pub const RESERVED_FAT_ENTRIES: u32 = 2;

/// Version-independent geometry (sector size, cluster counts, …) computed
/// once at mount and reused for every access.
#[derive(Debug, Clone, Copy, PartialEq, Eq, Structural)]
pub struct FsProperties {
    pub sector_size: u16,
    pub cluster_size: u32,
    pub sec_per_clus: u8,
    pub total_sectors: SectorCount,
    /// Highest valid data-cluster index (`CountofClusters + 1`).
    pub max_cluster: ClusterCount,
    pub fat_table_count: u8,
    pub fat_sector_size: u32,
    pub first_fat_sector: u16,
    pub first_root_dir_sector: SectorIndex,
    pub first_data_sector: SectorIndex,
}

/// The geometry that a boot record spells out.
pub open spec fn properties_of(br: FatBootRecord) -> FsProperties {
    FsProperties {
        sector_size: br.bpb.bytes_per_sector,
        cluster_size: (br.bpb.sectors_per_cluster * br.bpb.bytes_per_sector) as u32,
        sec_per_clus: br.bpb.sectors_per_cluster,
        total_sectors: br.volume_sectors() as u32,
        max_cluster: saturated32(br.cluster_total() + 1) as u32,
        fat_table_count: br.bpb.table_count,
        fat_sector_size: br.fat_sectors() as u32,
        first_fat_sector: br.bpb.reserved_sector_count,
        first_root_dir_sector: br.root_start() as u32,
        first_data_sector: br.data_start() as u32,
    }
}

impl FsProperties {
    /// The geometry that a boot record spells out.
    pub fn from_boot(br: &FatBootRecord) -> (r: Self)
        ensures
            r == properties_of(*br),
    {
        let sector_size: u16 = br.bpb.bytes_per_sector;
        proof {
            let (a, b) = (br.bpb.sectors_per_cluster, br.bpb.bytes_per_sector);
            assert(0 <= a * b <= 0xFF * 0xFFFF) by (nonlinear_arith)
                requires
                    0 <= a <= 0xFF,
                    0 <= b <= 0xFFFF,
            ;
        }
        FsProperties {
            sector_size,
            cluster_size: br.bpb.sectors_per_cluster as u32 * sector_size as u32,
            sec_per_clus: br.bpb.sectors_per_cluster,
            total_sectors: br.total_sectors(),
            max_cluster: br.max_cluster(),
            fat_table_count: br.bpb.table_count,
            fat_sector_size: br.fat_sector_size(),
            first_fat_sector: br.first_fat_sector(),
            first_root_dir_sector: br.first_root_dir_sector(),
            first_data_sector: br.first_data_sector(),
        }
    }
}

/// A value to store into a FAT cell.
#[derive(Debug, Clone, Copy, PartialEq, Eq, Structural)]
pub enum FatWrite {
    /// Release the cell.
    Free,
    /// Terminate the chain at this cell.
    End,
    /// Continue the chain at `cluster`.
    Next(ClusterIndex),
}

/// The fixed facts of a mounted volume.
#[derive(Debug, Clone, Copy)]
pub struct FatLayout {
    pub boot: FatBootRecord,
    pub fat_type: FatType,
    pub props: FsProperties,
}

/// What an operation finds or leaves: the bytes on the device and the
/// allocator's hints.
pub struct FatDisk {
    pub img: Seq<u8>,
    /// Search hint: the first free cluster is at or after this index.
    pub hint: u32,
    /// The FSInfo hints, where the volume has them.
    pub fsinfo: Fat32FsInfo,
    /// The FSInfo hints differ from those on the device.
    pub fsinfo_dirty: bool,
}

/// How an operation ends when the storage does not fail: its result and the
/// disk it leaves.
pub struct FatRun<T> {
    pub out: Result<T, FsError<()>>,
    pub disk: FatDisk,
}

/// An operation that ends with an error and the given disk.
pub open spec fn fat_failed<T>(e: FsError<()>, d: FatDisk) -> FatRun<T> {
    FatRun { out: Err(e), disk: d }
}

/// An operation that succeeds and leaves the given disk.
pub open spec fn fat_done<T>(v: T, d: FatDisk) -> FatRun<T> {
    FatRun { out: Ok(v), disk: d }
}

/// `r` and the disk `after` are what `run` says, unless the storage failed.
pub open spec fn fat_ends_as<T, E>(
    r: Result<T, FsError<E>>,
    run: FatRun<T>,
    after: FatDisk,
    reliable: bool,
) -> bool {
    match r {
        Ok(v) => run.out == Ok::<T, FsError<()>>(v) && after == run.disk,
        Err(FsError::Io(_)) => !reliable,
        Err(e) => run.out == Err::<T, FsError<()>>(e.kind()) && after == run.disk,
    }
}

/// `r` is what `run` says, and so is the disk `after` if `r` is `Ok`, unless the
/// storage failed. What is undone after an error is undone as far as the storage
/// allows: then the disk is what `run` says if the storage never fails.
pub open spec fn fat_comes_to<T, E>(
    r: Result<T, FsError<E>>,
    run: FatRun<T>,
    after: FatDisk,
    reliable: bool,
) -> bool {
    match r {
        Ok(v) => run.out == Ok::<T, FsError<()>>(v) && after == run.disk,
        Err(FsError::Io(_)) => !reliable,
        Err(e) => {
            &&& run.out == Err::<T, FsError<()>>(e.kind())
            &&& reliable ==> after == run.disk
        },
    }
}

/// The same, seen from an open file.
pub open spec fn fat_file_ends_as<T, E>(
    r: Result<T, FileError<E>>,
    run: FatRun<T>,
    after: FatDisk,
    reliable: bool,
) -> bool {
    match r {
        Ok(v) => run.out == Ok::<T, FsError<()>>(v) && after == run.disk,
        Err(FileError::Io(_)) => !reliable,
        Err(e) => {
            &&& run.out is Err
            &&& e.kind() == file_error_of(run.out->Err_0)
            &&& after == run.disk
        },
    }
}

impl FatLayout {
    pub open spec fn wf(self) -> bool {
        &&& self.props == properties_of(self.boot)
        &&& self.boot.width() == Some(self.fat_type)
        &&& supported_sector_size(self.props.sector_size as int)
    }

    /// The volume keeps FSInfo hints.
    pub open spec fn has_fsinfo(self) -> bool {
        self.boot.ebr is Fat32
    }

    /// Byte offset of a sector.
    pub open spec fn sector_pos(self, sector: int) -> int {
        sector * self.props.sector_size
    }

    /// First sector of a data cluster. Numbers that no cluster has lead to
    /// some sector all the same; reading it is bounded by the volume.
    pub open spec fn cluster_sector(self, cluster: int) -> int {
        let index = if cluster < 2 {
            0
        } else {
            cluster - 2
        };
        saturated32(
            saturated32(index * self.props.sec_per_clus) + self.props.first_data_sector,
        )
    }

    /// Byte offset of a data cluster.
    pub open spec fn cluster_pos(self, cluster: int) -> int {
        self.sector_pos(self.cluster_sector(cluster))
    }

    /// Byte offset just past the volume.
    pub open spec fn volume_end(self) -> int {
        self.props.total_sectors * self.props.sector_size
    }

    /// The range lies within the volume.
    pub open spec fn in_volume(self, off: int, len: int) -> bool {
        off + len <= self.volume_end()
    }

    /// Reading `len` bytes at `off`.
    pub open spec fn read(self, img: Seq<u8>, off: int, len: int) -> Result<
        Seq<u8>,
        FsError<()>,
    > {
        if !self.in_volume(off, len) {
            Err(FsError::Corrupt(CorruptKind::ClusterChain))
        } else if off + len > img.len() {
            Err(FsError::Corrupt(CorruptKind::Other))
        } else {
            Ok(img.subrange(off, off + len))
        }
    }

    /// Writing `bytes` at `off`.
    pub open spec fn written(self, d: FatDisk, off: int, bytes: Seq<u8>) -> FatRun<()> {
        if !self.in_volume(off, bytes.len() as int) {
            fat_failed(FsError::Corrupt(CorruptKind::ClusterChain), d)
        } else if off + bytes.len() > d.img.len() {
            fat_failed(FsError::Corrupt(CorruptKind::Other), d)
        } else {
            fat_done((), (FatDisk { img: spliced(d.img, off, bytes), ..d }))
        }
    }

    /// Byte offset of FAT copy `copy`.
    pub open spec fn fat_base(self, copy: int) -> int {
        self.sector_pos(
            saturated32(
                self.props.first_fat_sector + saturated32(copy * self.props.fat_sector_size),
            ),
        )
    }

    /// All FAT copies are kept alike; only FAT32 can switch that off.
    pub open spec fn mirrored(self) -> bool {
        match self.boot.ebr {
            Ebr::Fat32(e, _) => !e.extended_flags.mirroring_disabled,
            Ebr::Fat16(_) => true,
        }
    }

    /// The FAT copy that counts.
    pub open spec fn active_copy(self) -> int {
        match self.boot.ebr {
            Ebr::Fat32(e, _) => if e.extended_flags.mirroring_disabled {
                e.extended_flags.active_fat as int
            } else {
                0
            },
            Ebr::Fat16(_) => 0,
        }
    }

    /// Byte offset of the cell of `cluster` in the FAT copy that counts.
    pub open spec fn cell_pos(self, cluster: int) -> int {
        self.fat_base(self.active_copy()) + cluster * self.fat_type.cell_bytes()
    }

    /// The raw cell at byte `pos`.
    pub open spec fn raw_cell(self, img: Seq<u8>, pos: int) -> int {
        match self.fat_type {
            FatType::FAT16 => le16(img, pos),
            FatType::FAT32 => le32(img, pos),
        }
    }

    /// `cluster` is a data cluster.
    pub open spec fn is_cluster(self, cluster: int) -> bool {
        2 <= cluster <= self.props.max_cluster
    }

    /// What the FAT says of `cluster`.
    pub open spec fn fat_entry(self, img: Seq<u8>, cluster: int) -> FatEntry {
        cell_meaning(
            self.raw_cell(img, self.cell_pos(cluster)),
            self.props.max_cluster as int,
            self.fat_type,
        )
    }

    /// Reading the cell of `cluster`. Numbers outside the heap are refused.
    pub open spec fn fat_read(self, img: Seq<u8>, cluster: int) -> Result<FatEntry, FsError<()>> {
        if !self.is_cluster(cluster) {
            Err(FsError::Corrupt(CorruptKind::ClusterChain))
        } else {
            match self.read(img, self.cell_pos(cluster), self.fat_type.cell_bytes()) {
                Err(e) => Err(e),
                Ok(_) => Ok(self.fat_entry(img, cluster)),
            }
        }
    }

    /// The cluster after `cluster` in its chain.
    pub open spec fn successor(self, img: Seq<u8>, cluster: int) -> Result<
        Option<u32>,
        FsError<()>,
    > {
        match self.fat_read(img, cluster) {
            Err(e) => Err(e),
            Ok(FatEntry::Next(n)) => Ok(Some(n)),
            Ok(_) => Ok(None),
        }
    }

    /// The cell value that stands for `value`; the reserved top nibble of a
    /// FAT32 cell keeps what `old` had there.
    pub open spec fn cell_for(self, value: FatWrite, old: int) -> int {
        let n = self.fat_type.cell_values();
        let payload = match value {
            FatWrite::Free => 0,
            FatWrite::End => n - 1,
            FatWrite::Next(c) => c as int % n,
        };
        match self.fat_type {
            FatType::FAT16 => payload,
            FatType::FAT32 => payload + (old / 0x1000_0000) * 0x1000_0000,
        }
    }

    /// The bytes of a cell value.
    pub open spec fn cell_image(self, cell: int) -> Seq<u8> {
        match self.fat_type {
            FatType::FAT16 => seq![(cell % 0x100) as u8, (cell / 0x100) as u8],
            FatType::FAT32 => seq![
                (cell % 0x100) as u8,
                ((cell / 0x100) % 0x100) as u8,
                ((cell / 0x1_0000) % 0x100) as u8,
                (cell / 0x100_0000) as u8,
            ],
        }
    }

    /// Writing a cell image into the FAT copies `copy..to`.
    pub open spec fn copies_written(
        self,
        d: FatDisk,
        cluster: int,
        bytes: Seq<u8>,
        copy: int,
        to: int,
    ) -> FatRun<()>
        decreases to - copy,
    {
        if copy >= to {
            fat_done((), d)
        } else {
            let w = self.written(
                d,
                self.fat_base(copy) + cluster * self.fat_type.cell_bytes(),
                bytes,
            );
            if w.out is Err {
                w
            } else {
                self.copies_written(w.disk, cluster, bytes, copy + 1, to)
            }
        }
    }

    /// The allocator's hints after `value` was stored for `cluster`: a freed
    /// low cluster is a new minimum, and the free count is unknown.
    pub open spec fn hinted(self, d: FatDisk, cluster: u32, value: FatWrite) -> FatDisk {
        FatDisk {
            hint: if value is Free && cluster < d.hint {
                cluster
            } else {
                d.hint
            },
            fsinfo: if self.has_fsinfo() {
                Fat32FsInfo {
                    free_cluster_count: u32::MAX,
                    first_free_cluster: if value is Free && cluster < d.fsinfo.first_free_cluster {
                        cluster
                    } else {
                        d.fsinfo.first_free_cluster
                    },
                    ..d.fsinfo
                }
            } else {
                d.fsinfo
            },
            fsinfo_dirty: d.fsinfo_dirty || self.has_fsinfo(),
            ..d
        }
    }

    /// Storing `value` in the cell of `cluster`: in every FAT copy while
    /// mirroring is active, else in the active copy only.
    pub open spec fn fat_written(self, d: FatDisk, cluster: u32, value: FatWrite) -> FatRun<()> {
        if !self.is_cluster(cluster as int) {
            fat_failed(FsError::Corrupt(CorruptKind::ClusterChain), d)
        } else {
            let old = match self.fat_type {
                FatType::FAT16 => Ok(seq![]),
                FatType::FAT32 => self.read(d.img, self.cell_pos(cluster as int), 4),
            };
            match old {
                Err(e) => fat_failed(e, d),
                Ok(_) => {
                    let bytes = self.cell_image(
                        self.cell_for(value, le32(d.img, self.cell_pos(cluster as int))),
                    );
                    let w = if self.mirrored() {
                        self.copies_written(
                            d,
                            cluster as int,
                            bytes,
                            0,
                            self.props.fat_table_count as int,
                        )
                    } else {
                        self.written(d, self.cell_pos(cluster as int), bytes)
                    };
                    match w.out {
                        Err(e) => w,
                        Ok(_) => fat_done((), self.hinted(w.disk, cluster, value)),
                    }
                },
            }
        }
    }

    /// The first free cluster from `from` on.
    pub open spec fn free_from(self, img: Seq<u8>, from: int) -> Result<Option<u32>, FsError<()>>
        decreases self.props.max_cluster + 1 - from,
    {
        if from > self.props.max_cluster {
            Ok(None)
        } else {
            match self.fat_read(img, from) {
                Err(e) => Err(e),
                Ok(FatEntry::Free) => Ok(Some(from as u32)),
                Ok(_) => self.free_from(img, from + 1),
            }
        }
    }

    /// Where the search for a free cluster starts.
    pub open spec fn search_start(self, d: FatDisk) -> int {
        let h = if self.has_fsinfo() && d.fsinfo.first_free_cluster != u32::MAX
            && d.fsinfo.first_free_cluster <= self.props.max_cluster
            && d.fsinfo.first_free_cluster < d.hint {
            d.fsinfo.first_free_cluster
        } else {
            d.hint
        };
        if h < 2 {
            2
        } else {
            h as int
        }
    }

    /// Searching for a free cluster; what is found becomes the new hint.
    pub open spec fn free_search(self, d: FatDisk) -> FatRun<Option<u32>> {
        match self.free_from(d.img, self.search_start(d)) {
            Err(e) => fat_failed(e, d),
            Ok(None) => fat_done(
                None,
                (FatDisk { hint: self.props.max_cluster, ..d }),
            ),
            Ok(Some(c)) => fat_done(
                Some(c),
                (FatDisk {
                    hint: c,
                    fsinfo: if self.has_fsinfo() {
                        Fat32FsInfo { first_free_cluster: c, ..d.fsinfo }
                    } else {
                        d.fsinfo
                    },
                    fsinfo_dirty: d.fsinfo_dirty || self.has_fsinfo(),
                    ..d
                }),
            ),
        }
    }

    /// Byte offset of a sector.
    pub fn sector_byte_offset(&self, sector: SectorIndex) -> (r: u64)
        requires
            self.wf(),
        ensures
            r == self.sector_pos(sector as int),
            r <= 0xFFFF_FFFF * 4096,
    {
        proof {
            let (a, b) = (sector, self.props.sector_size);
            assert(0 <= a * b <= 0xFFFF_FFFF * 4096) by (nonlinear_arith)
                requires
                    0 <= a <= 0xFFFF_FFFF,
                    0 <= b <= 4096,
            ;
        }
        sector as u64 * self.props.sector_size as u64
    }

    /// The partition sector where data cluster `cluster` begins.
    ///
    /// Saturating throughout: an out-of-range cluster from a corrupt entry
    /// (or a FAT32 root cluster of 0–1) resolves to some sector rather than
    /// overflowing — the subsequent read is bounded by the volume.
    pub fn cluster_first_sector(&self, cluster: ClusterIndex) -> (r: SectorIndex)
        ensures
            r == self.cluster_sector(cluster as int),
    {
        let index: u32 = cluster.saturating_sub(RESERVED_FAT_ENTRIES);
        proof {
            let (a, b) = (index, self.props.sec_per_clus);
            assert(0 <= a * b <= 0xFFFF_FFFF * 0xFF) by (nonlinear_arith)
                requires
                    0 <= a <= 0xFFFF_FFFF,
                    0 <= b <= 0xFF,
            ;
        }
        let wide: u64 = index as u64 * self.props.sec_per_clus as u64;
        let sectors: u32 = if wide > 0xFFFF_FFFF {
            u32::MAX
        } else {
            wide as u32
        };
        sectors.saturating_add(self.props.first_data_sector)
    }

    /// Byte offset of a data cluster.
    pub fn cluster_offset(&self, cluster: ClusterIndex) -> (r: u64)
        requires
            self.wf(),
        ensures
            r == self.cluster_pos(cluster as int),
            r <= 0xFFFF_FFFF * 4096,
    {
        self.sector_byte_offset(self.cluster_first_sector(cluster))
    }

    /// Byte offset of FAT copy `copy`'s first sector.
    pub fn fat_copy_base(&self, copy: u8) -> (r: u64)
        requires
            self.wf(),
        ensures
            r == self.fat_base(copy as int),
            r <= 0xFFFF_FFFF * 4096,
    {
        proof {
            let (a, b) = (copy, self.props.fat_sector_size);
            assert(0 <= a * b <= 0xFF * 0xFFFF_FFFF) by (nonlinear_arith)
                requires
                    0 <= a <= 0xFF,
                    0 <= b <= 0xFFFF_FFFF,
            ;
        }
        let wide: u64 = copy as u64 * self.props.fat_sector_size as u64;
        let sectors: u32 = if wide > 0xFFFF_FFFF {
            u32::MAX
        } else {
            wide as u32
        };
        self.sector_byte_offset((self.props.first_fat_sector as u32).saturating_add(sectors))
    }

    /// The FAT copy reads target: copy 0 while mirroring is active, else
    /// the FAT32 `BPB_ExtFlags` ActiveFat copy (repair tools legitimately
    /// switch it — using copy 0 regardless reads stale chains).
    pub fn active_fat_copy(&self) -> (r: u8)
        ensures
            r == self.active_copy(),
    {
        match &self.boot.ebr {
            Ebr::Fat32(e, _) => if e.extended_flags.mirroring_disabled {
                e.extended_flags.active_fat
            } else {
                0
            },
            Ebr::Fat16(_) => 0,
        }
    }

    /// Whether FAT writes mirror to every copy (all volumes except FAT32
    /// with mirroring disabled, which writes the active copy only).
    pub fn fat_mirroring(&self) -> (r: bool)
        ensures
            r == self.mirrored(),
    {
        match &self.boot.ebr {
            Ebr::Fat32(e, _) => !e.extended_flags.mirroring_disabled,
            Ebr::Fat16(_) => true,
        }
    }

    /// Whether the volume keeps FSInfo hints.
    pub fn keeps_fsinfo(&self) -> (r: bool)
        ensures
            r == self.has_fsinfo(),
    {
        match &self.boot.ebr {
            Ebr::Fat32(_, _) => true,
            Ebr::Fat16(_) => false,
        }
    }
}

/// A wf volume has a cluster size between one sector and 255 of the largest.
pub proof fn lemma_cluster_size(l: FatLayout)
    requires
        l.wf(),
    ensures
        l.props.sec_per_clus > 0,
        512 <= l.props.cluster_size <= 255 * 4096,
        l.props.cluster_size == l.props.sec_per_clus * l.props.sector_size,
        l.props.cluster_size % 32 == 0,
        l.props.max_cluster >= 4086,
{
    let (a, b) = (l.props.sec_per_clus as int, l.props.sector_size as int);
    assert(a > 0);
    assert(512 <= a * b <= 255 * 4096) by (nonlinear_arith)
        requires
            1 <= a <= 255,
            512 <= b <= 4096,
    ;
    let q = b / 32;
    assert(b == 32 * q);
    assert(a * (32 * q) == (a * q) * 32) by (nonlinear_arith);
    vstd::arithmetic::div_mod::lemma_mod_multiples_basic(a * q, 32);
}

} // verus!
