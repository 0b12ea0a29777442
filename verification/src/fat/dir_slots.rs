//! Flat-offset directory slot addressing.
//!
//! A FAT directory is a run of 32-byte slots living either in the fixed
//! FAT12/16 root region or in a cluster chain (FAT32 root, any
//! sub-directory). A [`SlotPos`] is just the slot's absolute partition byte
//! offset plus its owning cluster (for chain-following).

use vstd::prelude::*;

use super::fs::FatVfs;
use super::layout::{fat_ends_as, FatLayout};
use crate::codec::fat::bpb::Ebr;
use crate::codec::fat::types::{ClusterIndex, EntryCount};
use crate::device::Device;
use crate::error::FsError;
use crate::exfat::layout::reads_as;

verus! {

/// The region a directory occupies.
#[derive(Debug, Clone, Copy, PartialEq, Eq, Structural)]
pub enum FatDir {
    /// FAT12/16 fixed root region (a contiguous sector run, no cluster chain).
    FixedRoot,
    /// A cluster chain: FAT32 root, or any sub-directory, keyed by first cluster.
    Clusters(ClusterIndex),
}

/// The on-disk position of one 32-byte directory slot.
#[derive(Debug, Clone, Copy, PartialEq, Eq, Structural)]
pub struct SlotPos {
    /// Absolute byte offset of the slot on the partition.
    pub offset: u64,
    /// The cluster the slot lives in, or `None` in the fixed root.
    pub cluster: Option<ClusterIndex>,
}

/// Offsets on a volume stay below this.
pub const OFFSET_LIMIT: u64 = 0x1000_0000_0000_0000;

impl SlotPos {
    pub open spec fn wf(self) -> bool {
        self.offset < OFFSET_LIMIT
    }

    #[inline]
    pub fn cluster(self) -> (r: Option<ClusterIndex>)
        ensures
            r == self.cluster,
    {
        self.cluster
    }
}

/// A contiguous set of directory slots (the LFN entries + SFN of one entry).
#[derive(Debug, Clone, Copy, PartialEq, Eq, Structural)]
pub struct SlotChain {
    pub first: SlotPos,
    pub len: EntryCount,
}

/// First byte of a slot: this and all following are free.
pub const SLOT_END: u8 = 0x00;

/// First byte of a slot: free, but scanning continues.
pub const SLOT_DELETED: u8 = 0xE5;

impl FatLayout {
    /// Byte length of the fixed root directory region.
    pub open spec fn root_bytes(self) -> int {
        self.boot.root_sectors() * self.props.sector_size
    }

    /// The first slot of a cluster.
    pub open spec fn cluster_slot(self, cluster: u32) -> SlotPos {
        SlotPos { offset: self.cluster_pos(cluster as int) as u64, cluster: Some(cluster) }
    }

    /// The first slot of a directory.
    pub open spec fn first_slot(self, dir: FatDir) -> SlotPos {
        match dir {
            FatDir::FixedRoot => SlotPos {
                offset: self.sector_pos(self.props.first_root_dir_sector as int) as u64,
                cluster: None,
            },
            FatDir::Clusters(first) => self.cluster_slot(first),
        }
    }

    /// The slot after `pos`, `None` at the end of the directory.
    pub open spec fn slot_after(self, img: Seq<u8>, pos: SlotPos) -> Result<
        Option<SlotPos>,
        FsError<()>,
    > {
        let next = pos.offset + 32;
        match pos.cluster {
            None => if next < self.sector_pos(self.props.first_root_dir_sector as int)
                + self.root_bytes() {
                Ok(Some(SlotPos { offset: next as u64, cluster: None }))
            } else {
                Ok(None)
            },
            Some(c) => if next < self.cluster_pos(c as int) + self.props.cluster_size {
                Ok(Some(SlotPos { offset: next as u64, cluster: Some(c) }))
            } else {
                match self.successor(img, c as int) {
                    Err(e) => Err(e),
                    Ok(Some(n)) => Ok(Some(self.cluster_slot(n))),
                    Ok(None) => Ok(None),
                }
            },
        }
    }

    /// The slot `n` positions after `pos`.
    pub open spec fn slot_nth(self, img: Seq<u8>, pos: SlotPos, n: int) -> Result<
        Option<SlotPos>,
        FsError<()>,
    >
        decreases n,
    {
        if n <= 0 {
            Ok(Some(pos))
        } else {
            match self.slot_after(img, pos) {
                Err(e) => Err(e),
                Ok(None) => Ok(None),
                Ok(Some(next)) => self.slot_nth(img, next, n - 1),
            }
        }
    }

    /// The bytes of the slot at `pos`.
    pub open spec fn slot_read(self, img: Seq<u8>, pos: SlotPos) -> Result<Seq<u8>, FsError<()>> {
        self.read(img, pos.offset as int, 32)
    }

    /// The root directory.
    pub open spec fn root_dir(self) -> FatDir {
        match self.boot.ebr {
            Ebr::Fat16(_) => FatDir::FixedRoot,
            Ebr::Fat32(e, _) => FatDir::Clusters(e.root_cluster),
        }
    }
}

impl<D: Device> FatVfs<D> {
    /// The first slot of directory `dir`.
    pub fn dir_first_slot(&self, dir: FatDir) -> (r: SlotPos)
        requires
            self.wf(),
        ensures
            r == self.layout.first_slot(dir),
            r.wf(),
    {
        match dir {
            FatDir::FixedRoot => SlotPos {
                offset: self.layout.sector_byte_offset(self.layout.props.first_root_dir_sector),
                cluster: None,
            },
            FatDir::Clusters(first) => self.cluster_first_slot(first),
        }
    }

    /// The first slot of cluster `cluster`.
    fn cluster_first_slot(&self, cluster: ClusterIndex) -> (r: SlotPos)
        requires
            self.wf(),
        ensures
            r == self.layout.cluster_slot(cluster),
            r.wf(),
    {
        SlotPos { offset: self.layout.cluster_offset(cluster), cluster: Some(cluster) }
    }

    /// Read the 32 bytes of the slot at `pos`.
    pub fn read_slot(&self, pos: SlotPos) -> (r: Result<[u8; 32], FsError<D::Error>>)
        requires
            self.wf(),
        ensures
            match r {
                Ok(b) => self.layout.slot_read(self.dev.contents(), pos) == Ok::<
                    Seq<u8>,
                    FsError<()>,
                >(b@),
                Err(FsError::Io(_)) => !self.dev.reliable(),
                Err(e) => self.layout.slot_read(self.dev.contents(), pos) == Err::<
                    Seq<u8>,
                    FsError<()>,
                >(e.kind()),
            },
    {
        let mut bytes: [u8; 32] = [0u8;32];
        match self.read_bytes(pos.offset, &mut bytes) {
            Ok(_) => Ok(bytes),
            Err(e) => Err(e),
        }
    }

    /// Overwrite the slot at `pos`.
    pub fn write_slot(&mut self, pos: SlotPos, bytes: &[u8; 32]) -> (r: Result<
        (),
        FsError<D::Error>,
    >)
        requires
            old(self).wf(),
        ensures
            final(self).wf(),
            final(self).keeps(*old(self)),
            fat_ends_as(
                r,
                old(self).layout.written(old(self).disk(), pos.offset as int, bytes@),
                final(self).disk(),
                old(self).dev.reliable(),
            ),
    {
        self.write_bytes(pos.offset, bytes)
    }

    /// Mark the slot at `pos` free. `end` writes the `0x00` terminator (this
    /// and every later slot are free); otherwise `0xE5` (deleted, keep scanning).
    pub fn free_slot(&mut self, pos: SlotPos, end: bool) -> (r: Result<(), FsError<D::Error>>)
        requires
            old(self).wf(),
        ensures
            final(self).wf(),
            final(self).keeps(*old(self)),
            fat_ends_as(
                r,
                old(self).layout.written(
                    old(self).disk(),
                    pos.offset as int,
                    seq![
                        if end {
                            SLOT_END
                        } else {
                            SLOT_DELETED
                        },
                    ],
                ),
                final(self).disk(),
                old(self).dev.reliable(),
            ),
    {
        let mark: [u8; 1] = [
            if end {
                SLOT_END
            } else {
                SLOT_DELETED
            },
        ];
        assert(mark@ =~= seq![
            if end {
                SLOT_END
            } else {
                SLOT_DELETED
            },
        ]);
        self.write_bytes(pos.offset, &mark)
    }

    /// Byte length of the fixed FAT16 root directory region.
    fn root_region_bytes(&self) -> (r: u32)
        requires
            self.wf(),
        ensures
            r == self.layout.root_bytes(),
    {
        let sectors: u16 = self.layout.boot.root_dir_sectors();
        proof {
            let (a, b) = (sectors, self.layout.props.sector_size);
            assert(0 <= a * b <= 0xFFFF * 4096) by (nonlinear_arith)
                requires
                    0 <= a <= 0xFFFF,
                    0 <= b <= 4096,
            ;
        }
        sectors as u32 * self.layout.props.sector_size as u32
    }

    /// The slot after `pos`, crossing sector and cluster boundaries; `None` at
    /// the end of the region (fixed-root end, or end-of-chain).
    pub fn next_slot(&self, pos: SlotPos) -> (r: Result<Option<SlotPos>, FsError<D::Error>>)
        requires
            self.wf(),
            pos.wf(),
        ensures
            reads_as(r, self.layout.slot_after(self.dev.contents(), pos), self.dev.reliable()),
            r matches Ok(Some(p)) ==> p.wf(),
    {
        let next: u64 = pos.offset + 32;
        match pos.cluster {
            None => {
                let end: u64 = self.layout.sector_byte_offset(
                    self.layout.props.first_root_dir_sector,
                ) + self.root_region_bytes() as u64;
                if next < end {
                    Ok(Some(SlotPos { offset: next, cluster: None }))
                } else {
                    Ok(None)
                }
            },
            Some(cluster) => {
                let cluster_end: u64 = self.layout.cluster_offset(cluster)
                    + self.layout.props.cluster_size as u64;
                if next < cluster_end {
                    return Ok(Some(SlotPos { offset: next, cluster: Some(cluster) }));
                }
                match self.next_cluster(cluster) {
                    Ok(Some(n)) => Ok(Some(self.cluster_first_slot(n))),
                    Ok(None) => Ok(None),
                    Err(e) => Err(e),
                }
            },
        }
    }

    /// The slot `n` positions after `pos` (`n == 0` returns `pos`).
    pub fn nth_slot(&self, pos: SlotPos, n: EntryCount) -> (r: Result<
        Option<SlotPos>,
        FsError<D::Error>,
    >)
        requires
            self.wf(),
            pos.wf(),
        ensures
            reads_as(
                r,
                self.layout.slot_nth(self.dev.contents(), pos, n as int),
                self.dev.reliable(),
            ),
            r matches Ok(Some(p)) ==> p.wf(),
    {
        let ghost img = self.dev.contents();
        let mut cur = pos;
        let mut left: u16 = n;
        while left > 0
            invariant
                self.wf(),
                img == self.dev.contents(),
                cur.wf(),
                self.layout.slot_nth(img, pos, n as int) == self.layout.slot_nth(
                    img,
                    cur,
                    left as int,
                ),
            decreases left,
        {
            match self.next_slot(cur) {
                Ok(Some(next)) => {
                    cur = next;
                },
                Ok(None) => {
                    return Ok(None);
                },
                Err(e) => {
                    return Err(e);
                },
            }
            left -= 1;
        }
        Ok(Some(cur))
    }

    /// The root directory.
    pub fn root_dir(&self) -> (r: FatDir)
        ensures
            r == self.layout.root_dir(),
    {
        match &self.layout.boot.ebr {
            Ebr::Fat16(_) => FatDir::FixedRoot,
            Ebr::Fat32(e, _) => FatDir::Clusters(e.root_cluster),
        }
    }
}

} // verus!
