//! Byte-level I/O and FAT-cell access.

use vstd::prelude::*;

use super::fs::FatVfs;
use super::layout::{fat_done, fat_ends_as, FatDisk, FatLayout, FatRun, FatWrite};
use crate::bytes::le32;
use crate::codec::{le_u16, le_u32, FixedCodec};
use crate::codec::fat::bpb::{Ebr, Fat32FsInfo};
use crate::codec::fat::fat_entry::{decode_fat_cell, FatEntry};
use crate::codec::fat::types::{ClusterIndex, FatType};
use crate::device::{read_exact_at, Device};
use crate::error::{CorruptKind, FsError};
use crate::exfat::layout::reads_as;
use crate::exfat::volume::transfer_error;

verus! {

/// The sector image of FSInfo hints.
pub open spec fn fsinfo_image(f: Fat32FsInfo) -> Seq<u8> {
    choose|b: Seq<u8>| b.len() == 512 && f.layout(b)
}

impl FatLayout {
    /// Writing the FSInfo hints back where they differ from the device.
    pub open spec fn fsinfo_synced(self, d: FatDisk) -> FatRun<()> {
        if !d.fsinfo_dirty {
            fat_done((), d)
        } else {
            let w = match self.boot.ebr {
                Ebr::Fat32(e, _) => self.written(
                    d,
                    self.sector_pos(e.fat_info as int),
                    fsinfo_image(d.fsinfo),
                ),
                Ebr::Fat16(_) => fat_done((), d),
            };
            match w.out {
                Err(e) => w,
                Ok(_) => fat_done((), (FatDisk { fsinfo_dirty: false, ..w.disk })),
            }
        }
    }
}

impl<D: Device> FatVfs<D> {
    /// Reject accesses outside the volume (a crafted chain/offset must
    /// not read or clobber neighbouring disk content).
    fn check_bounds(&self, offset: u64, len: usize) -> (r: Result<(), FsError<D::Error>>)
        requires
            self.wf(),
        ensures
            r is Ok <==> self.layout.in_volume(offset as int, len as int),
            r matches Err(e) ==> e == FsError::<D::Error>::Corrupt(CorruptKind::ClusterChain),
    {
        let end: u64 = offset.saturating_add(len as u64);
        let volume_end: u64 = self.layout.sector_byte_offset(self.layout.props.total_sectors);
        if end > volume_end {
            return Err(FsError::Corrupt(CorruptKind::ClusterChain));
        }
        Ok(())
    }

    /// Bounds-checked read of an arbitrary byte range.
    pub fn read_bytes(&self, offset: u64, buf: &mut [u8]) -> (r: Result<(), FsError<D::Error>>)
        requires
            self.wf(),
            old(buf)@.len() > 0,
        ensures
            final(buf)@.len() == old(buf)@.len(),
            match r {
                Ok(_) => self.layout.read(
                    self.dev.contents(),
                    offset as int,
                    old(buf)@.len() as int,
                ) == Ok::<Seq<u8>, FsError<()>>(final(buf)@),
                Err(FsError::Io(_)) => !self.dev.reliable(),
                Err(e) => self.layout.read(
                    self.dev.contents(),
                    offset as int,
                    old(buf)@.len() as int,
                ) == Err::<Seq<u8>, FsError<()>>(e.kind()),
            },
    {
        match self.check_bounds(offset, buf.len()) {
            Ok(_) => {},
            Err(e) => {
                return Err(e);
            },
        }
        match read_exact_at(&self.dev, offset, buf) {
            Ok(_) => Ok(()),
            Err(e) => Err(transfer_error(e)),
        }
    }

    /// Bounds-checked write of an arbitrary byte range.
    pub fn write_bytes(&mut self, offset: u64, buf: &[u8]) -> (r: Result<(), FsError<D::Error>>)
        requires
            old(self).wf(),
        ensures
            final(self).wf(),
            final(self).keeps(*old(self)),
            fat_ends_as(
                r,
                old(self).layout.written(old(self).disk(), offset as int, buf@),
                final(self).disk(),
                old(self).dev.reliable(),
            ),
    {
        match self.check_bounds(offset, buf.len()) {
            Ok(_) => {},
            Err(e) => {
                return Err(e);
            },
        }
        match self.dev.write_all_at(offset, buf) {
            Ok(_) => Ok(()),
            Err(e) => Err(transfer_error(e)),
        }
    }

    /// Reject cluster indices outside the data-cluster range. Without this
    /// fence a corrupt on-disk `data_cluster` would compute a cell offset
    /// past the FAT table — still inside the volume — and read/WRITE stray
    /// bytes in the data area.
    fn check_fat_index(&self, cluster: ClusterIndex) -> (r: Result<(), FsError<D::Error>>)
        ensures
            r is Ok <==> self.layout.is_cluster(cluster as int),
            r matches Err(e) ==> e == FsError::<D::Error>::Corrupt(CorruptKind::ClusterChain),
    {
        if cluster < 2 || cluster > self.layout.props.max_cluster {
            return Err(FsError::Corrupt(CorruptKind::ClusterChain));
        }
        Ok(())
    }

    /// The raw FAT cell at byte `pos`.
    fn read_cell(&self, pos: u64) -> (r: Result<u32, FsError<D::Error>>)
        requires
            self.wf(),
        ensures
            match r {
                Ok(v) => {
                    &&& self.layout.read(
                        self.dev.contents(),
                        pos as int,
                        self.layout.fat_type.cell_bytes(),
                    ) is Ok
                    &&& v == self.layout.raw_cell(self.dev.contents(), pos as int)
                },
                Err(FsError::Io(_)) => !self.dev.reliable(),
                Err(e) => self.layout.read(
                    self.dev.contents(),
                    pos as int,
                    self.layout.fat_type.cell_bytes(),
                ) == Err::<Seq<u8>, FsError<()>>(e.kind()),
            },
    {
        let ghost img = self.dev.contents();
        match self.layout.fat_type {
            FatType::FAT16 => {
                let mut raw: [u8; 2] = [0u8;2];
                match self.read_bytes(pos, &mut raw) {
                    Ok(_) => {
                        proof {
                            assert(raw@ == img.subrange(pos as int, pos + 2));
                            assert(raw@[0] == img[pos as int] && raw@[1] == img[pos + 1]);
                        }
                        Ok(le_u16(&raw, 0) as u32)
                    },
                    Err(e) => Err(e),
                }
            },
            FatType::FAT32 => {
                let mut raw: [u8; 4] = [0u8;4];
                match self.read_bytes(pos, &mut raw) {
                    Ok(_) => {
                        proof {
                            assert(raw@ == img.subrange(pos as int, pos + 4));
                            assert(raw@[0] == img[pos as int] && raw@[1] == img[pos + 1] && raw@[2]
                                == img[pos + 2] && raw@[3] == img[pos + 3]);
                        }
                        Ok(le_u32(&raw, 0))
                    },
                    Err(e) => Err(e),
                }
            },
        }
    }

    /// Byte offset of the cell of `cluster` in the FAT copy that counts.
    fn cell_offset(&self, cluster: ClusterIndex) -> (r: u64)
        requires
            self.wf(),
        ensures
            r == self.layout.cell_pos(cluster as int),
    {
        let width: u64 = self.layout.fat_type.entry_size() as u64;
        proof {
            let (a, b) = (cluster, self.layout.fat_type.cell_bytes());
            assert(0 <= a * b <= 0xFFFF_FFFF * 4) by (nonlinear_arith)
                requires
                    0 <= a <= 0xFFFF_FFFF,
                    0 <= b <= 4,
            ;
        }
        self.layout.fat_copy_base(self.layout.active_fat_copy()) + cluster as u64 * width
    }

    /// Decode the FAT cell for `cluster` (from the active copy).
    pub fn read_fat(&self, cluster: ClusterIndex) -> (r: Result<FatEntry, FsError<D::Error>>)
        requires
            self.wf(),
        ensures
            reads_as(
                r,
                self.layout.fat_read(self.dev.contents(), cluster as int),
                self.dev.reliable(),
            ),
    {
        match self.check_fat_index(cluster) {
            Ok(_) => {},
            Err(e) => {
                return Err(e);
            },
        }
        let pos: u64 = self.cell_offset(cluster);
        match self.read_cell(pos) {
            Ok(raw) => Ok(
                decode_fat_cell(raw, self.layout.props.max_cluster, self.layout.fat_type),
            ),
            Err(e) => Err(e),
        }
    }

    /// The next cluster in a chain, or `None` at end-of-chain (or on any
    /// non-continuation cell — chain validity is checked when a file opens).
    pub fn next_cluster(&self, cluster: ClusterIndex) -> (r: Result<
        Option<ClusterIndex>,
        FsError<D::Error>,
    >)
        requires
            self.wf(),
        ensures
            reads_as(
                r,
                self.layout.successor(self.dev.contents(), cluster as int),
                self.dev.reliable(),
            ),
    {
        match self.read_fat(cluster) {
            Ok(FatEntry::Next(next)) => Ok(Some(next)),
            Ok(_) => Ok(None),
            Err(e) => Err(e),
        }
    }

    /// The image of a cell value.
    fn encode_cell(&self, cell: u32) -> (r: Vec<u8>)
        requires
            self.layout.fat_type is FAT16 ==> cell <= 0xFFFF,
        ensures
            r@ == self.layout.cell_image(cell as int),
            r@.len() == self.layout.fat_type.cell_bytes(),
    {
        let mut out: Vec<u8> = Vec::new();
        match self.layout.fat_type {
            FatType::FAT16 => {
                out.push((cell % 0x100) as u8);
                out.push((cell / 0x100) as u8);
            },
            FatType::FAT32 => {
                out.push((cell % 0x100) as u8);
                out.push(((cell / 0x100) % 0x100) as u8);
                out.push(((cell / 0x1_0000) % 0x100) as u8);
                out.push((cell / 0x100_0000) as u8);
            },
        }
        assert(out@ =~= self.layout.cell_image(cell as int));
        out
    }

    /// Write a cell image into every FAT copy.
    fn write_copies(&mut self, cluster: ClusterIndex, bytes: &[u8]) -> (r: Result<
        (),
        FsError<D::Error>,
    >)
        requires
            old(self).wf(),
        ensures
            final(self).wf(),
            final(self).keeps(*old(self)),
            fat_ends_as(
                r,
                old(self).layout.copies_written(
                    old(self).disk(),
                    cluster as int,
                    bytes@,
                    0,
                    old(self).layout.props.fat_table_count as int,
                ),
                final(self).disk(),
                old(self).dev.reliable(),
            ),
    {
        let ghost l = self.layout;
        let ghost start = self.disk();
        let count: u8 = self.layout.props.fat_table_count;
        let width: u64 = self.layout.fat_type.entry_size() as u64;
        let mut copy: u8 = 0;
        while copy < count
            invariant
                self.wf(),
                self.keeps(*old(self)),
                l == old(self).layout,
                start == old(self).disk(),
                count == l.props.fat_table_count,
                width == l.fat_type.cell_bytes(),
                copy <= count,
                l.copies_written(start, cluster as int, bytes@, 0, count as int)
                    == l.copies_written(
                    self.disk(),
                    cluster as int,
                    bytes@,
                    copy as int,
                    count as int,
                ),
            decreases count - copy,
        {
            proof {
                let (a, b) = (cluster, width);
                assert(0 <= a * b <= 0xFFFF_FFFF * 4) by (nonlinear_arith)
                    requires
                        0 <= a <= 0xFFFF_FFFF,
                        0 <= b <= 4,
                ;
            }
            let pos: u64 = self.layout.fat_copy_base(copy) + cluster as u64 * width;
            match self.write_bytes(pos, bytes) {
                Ok(_) => {},
                Err(e) => {
                    return Err(e);
                },
            }
            copy += 1;
        }
        Ok(())
    }

    /// The cell value to store for `value` at byte `pos`.
    fn cell_to_store(&self, value: FatWrite, pos: u64) -> (r: Result<u32, FsError<D::Error>>)
        requires
            self.wf(),
        ensures
            match r {
                Ok(cell) => {
                    &&& self.layout.fat_type is FAT32 ==> self.layout.read(
                        self.dev.contents(),
                        pos as int,
                        4,
                    ) is Ok
                    &&& self.layout.fat_type is FAT16 ==> cell <= 0xFFFF
                    &&& cell == self.layout.cell_for(value, le32(self.dev.contents(), pos as int))
                },
                Err(FsError::Io(_)) => !self.dev.reliable(),
                Err(e) => {
                    &&& self.layout.fat_type is FAT32
                    &&& self.layout.read(self.dev.contents(), pos as int, 4) == Err::<
                        Seq<u8>,
                        FsError<()>,
                    >(e.kind())
                },
            },
    {
        match self.layout.fat_type {
            FatType::FAT16 => Ok(
                match value {
                    FatWrite::Free => 0,
                    FatWrite::End => self.layout.fat_type.end_value(),
                    FatWrite::Next(next) => next % 0x1_0000,
                },
            ),
            FatType::FAT32 => {
                let payload: u32 = match value {
                    FatWrite::Free => 0,
                    FatWrite::End => self.layout.fat_type.end_value(),
                    FatWrite::Next(next) => next % 0x1000_0000,
                };
                // The top nibble of a FAT32 cell is reserved: preserve
                // whatever is there rather than zeroing it.
                match self.read_cell(pos) {
                    Ok(raw) => Ok(payload + (raw / 0x1000_0000) * 0x1000_0000),
                    Err(e) => Err(e),
                }
            },
        }
    }

    /// Store `value` into cluster `cluster`'s cell — in every FAT copy
    /// while mirroring is active, else in the active copy only.
    pub fn write_fat(&mut self, cluster: ClusterIndex, value: FatWrite) -> (r: Result<
        (),
        FsError<D::Error>,
    >)
        requires
            old(self).wf(),
        ensures
            final(self).wf(),
            final(self).keeps(*old(self)),
            fat_ends_as(
                r,
                old(self).layout.fat_written(old(self).disk(), cluster, value),
                final(self).disk(),
                old(self).dev.reliable(),
            ),
    {
        match self.check_fat_index(cluster) {
            Ok(_) => {},
            Err(e) => {
                return Err(e);
            },
        }
        let pos: u64 = self.cell_offset(cluster);
        let cell: u32 = match self.cell_to_store(value, pos) {
            Ok(cell) => cell,
            Err(e) => {
                return Err(e);
            },
        };
        let bytes: Vec<u8> = self.encode_cell(cell);
        let stored = if self.layout.fat_mirroring() {
            self.write_copies(cluster, bytes.as_slice())
        } else {
            self.write_bytes(pos, bytes.as_slice())
        };
        match stored {
            Ok(_) => {},
            Err(e) => {
                return Err(e);
            },
        }
        // Keep the allocator's search hint tight; freeing a low cluster may
        // expose a new minimum. The FAT32 free-cluster *count* is advisory,
        // so once the on-disk FAT diverges from it we mark it unknown rather
        // than maintain a running (and easily-wrong) tally.
        let freed: bool = value == FatWrite::Free;
        if freed && cluster < self.first_free_cluster {
            self.first_free_cluster = cluster;
        }
        if self.layout.keeps_fsinfo() {
            self.fsinfo.free_cluster_count = u32::MAX;
            if freed && cluster < self.fsinfo.first_free_cluster {
                self.fsinfo.first_free_cluster = cluster;
            }
            self.fsinfo_modified = true;
        }
        Ok(())
    }

    /// Lowest free cluster at or after the search hint, or `None` when full.
    pub fn next_free_cluster(&mut self) -> (r: Result<Option<ClusterIndex>, FsError<D::Error>>)
        requires
            old(self).wf(),
        ensures
            final(self).wf(),
            final(self).keeps(*old(self)),
            fat_ends_as(
                r,
                old(self).layout.free_search(old(self).disk()),
                final(self).disk(),
                old(self).dev.reliable(),
            ),
    {
        let ghost l = self.layout;
        let ghost img = self.dev.contents();
        let ghost start = self.disk();
        let max: u32 = self.layout.props.max_cluster;
        let mut from: u32 = self.first_free_cluster;
        if self.layout.keeps_fsinfo() && self.fsinfo.first_free_cluster != u32::MAX
            && self.fsinfo.first_free_cluster <= max && self.fsinfo.first_free_cluster < from {
            from = self.fsinfo.first_free_cluster;
        }
        if from < 2 {
            from = 2;
        }
        let mut cluster: u32 = from;
        while cluster <= max
            invariant_except_break
                l.free_from(img, from as int) == l.free_from(img, cluster as int),
            invariant
                *self == *old(self),
                self.wf(),
                l == self.layout,
                img == self.dev.contents(),
                start == self.disk(),
                max == l.props.max_cluster,
                from == l.search_start(start),
                from <= cluster,
            ensures
                l.free_from(img, from as int) == Ok::<Option<u32>, FsError<()>>(None),
            decreases max - cluster,
        {
            match self.read_fat(cluster) {
                Err(e) => {
                    return Err(e);
                },
                Ok(entry) => {
                    if entry == FatEntry::Free {
                        self.first_free_cluster = cluster;
                        if self.layout.keeps_fsinfo() {
                            self.fsinfo.first_free_cluster = cluster;
                            self.fsinfo_modified = true;
                        }
                        return Ok(Some(cluster));
                    }
                },
            }
            if cluster == max {
                assert(l.free_from(img, cluster + 1) == Ok::<Option<u32>, FsError<()>>(None));
                break ;
            }
            cluster += 1;
        }
        // Full: park the hint past the end so later scans start there.
        self.first_free_cluster = max;
        Ok(None)
    }

    /// Sync the FSInfo hints back to the medium (FAT32 only).
    pub fn sync_fsinfo(&mut self) -> (r: Result<(), FsError<D::Error>>)
        requires
            old(self).wf(),
        ensures
            final(self).wf(),
            final(self).keeps(*old(self)),
            fat_ends_as(
                r,
                old(self).layout.fsinfo_synced(old(self).disk()),
                final(self).disk(),
                old(self).dev.reliable(),
            ),
    {
        if !self.fsinfo_modified {
            return Ok(());
        }
        if let Ebr::Fat32(ebr, _) = self.layout.boot.ebr {
            let mut bytes: [u8; 512] = [0u8;512];
            self.fsinfo.write_into(&mut bytes);
            proof {
                let img = fsinfo_image(self.fsinfo);
                assert(bytes@.len() == 512 && self.fsinfo.layout(bytes@));
                Fat32FsInfo::law_encode_unique(self.fsinfo, bytes@, img);
                assert(bytes@.subrange(0, 512) =~= bytes@);
                assert(img.subrange(0, 512) =~= img);
            }
            let pos: u64 = self.layout.sector_byte_offset(ebr.fat_info as u32);
            match self.write_bytes(pos, &bytes) {
                Ok(_) => {},
                Err(e) => {
                    return Err(e);
                },
            }
        }
        self.fsinfo_modified = false;
        Ok(())
    }

    /// Sync any pending changes back to the storage medium.
    pub fn unmount(&mut self) -> (r: Result<(), FsError<D::Error>>)
        requires
            old(self).wf(),
        ensures
            final(self).wf(),
            final(self).keeps(*old(self)),
            fat_ends_as(
                r,
                old(self).layout.fsinfo_synced(old(self).disk()),
                final(self).disk(),
                old(self).dev.reliable(),
            ),
            r is Ok ==> final(self).dev.durable() == final(self).dev.contents(),
    {
        match self.sync_fsinfo() {
            Ok(_) => self.metadata_barrier(),
            Err(e) => Err(e),
        }
    }

    /// Unmount and return the underlying storage handle. Pending FSInfo
    /// writes come first; errors during this best-effort shutdown are
    /// swallowed.
    pub fn into_inner(self) -> (dev: D)
        requires
            self.wf(),
        ensures
            dev.reliable() == self.dev.reliable(),
            self.dev.reliable() ==> dev.contents() == self.layout.fsinfo_synced(
                self.disk(),
            ).disk.img,
    {
        let mut vol = self;
        let _ = vol.unmount();
        vol.dev
    }
}

} // verus!
