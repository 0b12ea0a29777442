//! FAT table and cluster payload I/O.

use vstd::prelude::*;

use super::direntry::{classify_fat_entry, fat_meaning, FatEntry};
use super::layout::{
    beyond_device, ends_as, le_bytes32, lemma_le_bytes32, read_of, reads_as, Disk, ExfatLayout, Run,
};
use super::volume::ExfatVfs;
use crate::bytes::le32;
use crate::codec::exfat::raw_entry::ExfatFatEntryWord;
use crate::device::Device;
use crate::error::FsError;

verus! {

impl ExfatLayout {
    /// The FAT cell of `cluster` lies within the device.
    pub open spec fn cell_on_device(self, img: Seq<u8>, cluster: int) -> bool {
        self.boot.fat_pos(cluster) + 4 <= img.len()
    }

    /// What the FAT says of `cluster`.
    pub open spec fn fat_entry(self, img: Seq<u8>, cluster: int) -> FatEntry {
        fat_meaning(le32(img, self.boot.fat_pos(cluster)), self.boot.cluster_count as int)
    }

    /// Reading the FAT cell of `cluster`.
    pub open spec fn fat_read(self, img: Seq<u8>, cluster: int) -> Result<FatEntry, FsError<()>> {
        if self.cell_on_device(img, cluster) {
            Ok(self.fat_entry(img, cluster))
        } else {
            Err(beyond_device())
        }
    }

    /// The cluster that comes after `cluster` in its file: the neighbour
    /// where clusters are contiguous, else the one the FAT names. Every FAT
    /// value that names no cluster ends the chain.
    pub open spec fn successor(self, img: Seq<u8>, cluster: int, no_fat_chain: bool) -> Result<
        Option<u32>,
        FsError<()>,
    > {
        if no_fat_chain {
            if cluster + 1 > self.boot.cluster_count + 1 {
                Ok(None)
            } else {
                Ok(Some((cluster + 1) as u32))
            }
        } else {
            match self.fat_read(img, cluster) {
                Ok(FatEntry::Next(n)) => Ok(Some(n)),
                Ok(_) => Ok(None),
                Err(e) => Err(e),
            }
        }
    }

    /// Storing `value` in the FAT cell of `cluster`.
    pub open spec fn fat_written(self, d: Disk, cluster: int, value: u32) -> Run<()> {
        self.written(d, self.boot.fat_pos(cluster), le_bytes32(value))
    }
}

impl<D: Device> ExfatVfs<D> {
    /// Read one 4-byte FAT entry at `cluster`.
    pub fn read_fat_entry(&self, cluster: u32) -> (r: Result<FatEntry, FsError<D::Error>>)
        requires
            self.wf(),
        ensures
            reads_as(
                r,
                self.layout.fat_read(self.dev.contents(), cluster as int),
                self.dev.reliable(),
            ),
    {
        let offset: u64 = self.layout.boot.fat_cell_offset(cluster);
        let mut buf: [u8; 4] = [0u8;4];
        match self.read_at(offset, &mut buf) {
            Ok(_) => {},
            Err(e) => {
                return Err(e);
            },
        }
        let word = ExfatFatEntryWord::parse(&buf);
        proof {
            let img = self.dev.contents();
            let p = self.layout.boot.fat_pos(cluster as int);
            assert(buf@ == img.subrange(p, p + 4));
            assert(buf@[0] == img[p] && buf@[1] == img[p + 1] && buf@[2] == img[p + 2] && buf@[3]
                == img[p + 3]);
        }
        Ok(classify_fat_entry(word.0, self.layout.boot.cluster_count))
    }

    /// Next cluster in a chain. With `no_fat_chain` (Stream Extension
    /// flag bit 1) the allocation is contiguous — next is `current + 1`
    /// and the caller must track where the extent ends.
    pub fn next_cluster(&self, current: u32, no_fat_chain: bool) -> (r: Result<
        Option<u32>,
        FsError<D::Error>,
    >)
        requires
            self.wf(),
        ensures
            reads_as(
                r,
                self.layout.successor(self.dev.contents(), current as int, no_fat_chain),
                self.dev.reliable(),
            ),
    {
        if no_fat_chain {
            if current > self.layout.boot.cluster_count {
                return Ok(None);
            }
            return Ok(Some(current + 1));
        }
        match self.read_fat_entry(current) {
            Ok(FatEntry::Next(n)) => Ok(Some(n)),
            Ok(_) => Ok(None),
            Err(e) => Err(e),
        }
    }

    /// The whole cluster as owned bytes.
    pub fn read_cluster(&self, cluster: u32) -> (r: Result<Vec<u8>, FsError<D::Error>>)
        requires
            self.wf(),
        ensures
            match r {
                Ok(v) => read_of(
                    self.dev.contents(),
                    self.layout.boot.cluster_pos(cluster as int),
                    self.layout.boot.cluster_bytes(),
                ) == Ok::<Seq<u8>, FsError<()>>(v@),
                Err(FsError::Io(_)) => !self.dev.reliable(),
                Err(e) => read_of(
                    self.dev.contents(),
                    self.layout.boot.cluster_pos(cluster as int),
                    self.layout.boot.cluster_bytes(),
                ) == Err::<Seq<u8>, FsError<()>>(e.kind()),
            },
    {
        let n: usize = self.layout.boot.bytes_per_cluster() as usize;
        let mut buf: Vec<u8> = vec![0u8; n];
        let offset: u64 = self.layout.boot.cluster_offset(cluster);
        match self.read_at(offset, buf.as_mut_slice()) {
            Ok(_) => Ok(buf),
            Err(e) => Err(e),
        }
    }

    /// Write a raw FAT entry at `cluster` to `value`.
    pub fn write_fat_entry(&mut self, cluster: u32, value: u32) -> (r: Result<
        (),
        FsError<D::Error>,
    >)
        requires
            old(self).wf(),
        ensures
            final(self).wf(),
            final(self).keeps(*old(self)),
            ends_as(
                r,
                old(self).layout.fat_written(old(self).disk(), cluster as int, value),
                final(self).disk(),
                old(self).dev.reliable(),
            ),
    {
        let offset: u64 = self.layout.boot.fat_cell_offset(cluster);
        let raw: [u8; 4] = ExfatFatEntryWord(value).encode();
        proof {
            lemma_le_bytes32(raw@, value);
        }
        self.write_at(offset, &raw)
    }
}

} // verus!
