//! Opening files and directories.

use vstd::prelude::*;

use super::cluster_map::{lemma_whole_clusters, ExfatClusterMap};
use super::dir_slot::ExfatDirSlotWriter;
use super::directory::ExfatDirectory;
use super::direntry::{DirExtent, EntryFields, ExfatDirEntry, SetLoc};
use super::layout::{lemma_unit_sizes, ExfatLayout};
use super::readdir::{fits_volume, DirWalk, ExfatReadDir};
use super::resolve::{entry_usable, names_dir};
use super::volume::ExfatVfs;
use crate::attrs::{has_bits, unpacked_attributes, READ_ONLY};
use crate::device::Device;
use crate::dir::{exfat_metadata, root_metadata, Metadata};
use crate::entry_times::EntryTimes;
use crate::error::FsError;
use crate::handles::OpenMode;
use crate::name::NamePolicy;
use crate::num::{ceil_div, div_ceil_u64};
use crate::path::{components_of, normalized, normalized_components};
use crate::vfs::StreamInit;

verus! {

/// An open exFAT file.
pub struct ExfatStream {
    pub map: ExfatClusterMap,
    pub writer: ExfatDirSlotWriter,
    pub init: StreamInit,
}

impl ExfatStream {
    /// A file can be worked with from here.
    pub open spec fn wf(self, l: ExfatLayout) -> bool {
        &&& self.map.wf(l)
        &&& self.map.first == self.init.first_cluster
        &&& self.writer.wf()
        &&& self.init.valid_len <= self.init.len
        &&& self.init.times.wf()
    }
}

/// Bytes of whole clusters that hold the entry's data.
pub open spec fn allocated_bytes(l: ExfatLayout, e: EntryFields) -> int {
    let cb = l.boot.cluster_bytes();
    if e.first_cluster < 2 {
        0
    } else if ceil_div(e.data_length as int, cb) * cb > u64::MAX {
        u64::MAX as int
    } else {
        ceil_div(e.data_length as int, cb) * cb
    }
}

/// `s` is the stream of the entry `e`, opened under `key`.
pub open spec fn opened_stream(
    l: ExfatLayout,
    s: ExfatStream,
    e: EntryFields,
    loc: Option<SetLoc>,
    key: Seq<u16>,
    writable: bool,
    owns_lock: bool,
    update_times: bool,
) -> bool {
    let times = EntryTimes { created: e.created, modified: e.modified, accessed: e.accessed };
    &&& s.map == (ExfatClusterMap {
        first: e.first_cluster,
        no_fat_chain: e.no_fat_chain,
        allocated_len: allocated_bytes(l, e) as u64,
        cluster_size: l.boot.cluster_bytes() as u32,
    })
    &&& s.writer.loc == loc
    &&& s.writer.times == times
    &&& s.init.first_cluster == e.first_cluster
    // DataLength is the byte size; ValidDataLength the initialized prefix.
    &&& s.init.len == e.data_length
    &&& s.init.valid_len == e.valid_data_length
    &&& s.init.lock_key@ == key
    &&& s.init.times == times
    &&& s.init.attributes == unpacked_attributes(e.attributes)
    &&& s.init.writable == writable
    &&& s.init.owns_lock == owns_lock
    &&& s.init.update_times == update_times
    &&& !s.init.fat_size_cap
}

impl ExfatLayout {
    /// The entry that a path opens for reading.
    pub open spec fn readable_at(self, p: NamePolicy, img: Seq<u8>, path: Seq<char>) -> Result<
        EntryFields,
        FsError<()>,
    > {
        match self.entry_at(p, img, path) {
            Err(e) => Err(e),
            Ok((_, e)) => if names_dir(e) {
                Err(FsError::IsADirectory)
            } else {
                Ok(e)
            },
        }
    }

    /// The entry that a path opens for writing, with its place.
    pub open spec fn writable_at(self, p: NamePolicy, img: Seq<u8>, path: Seq<char>) -> Result<
        (EntryFields, SetLoc),
        FsError<()>,
    > {
        match self.entry_at(p, img, path) {
            Err(e) => Err(e),
            Ok((parent, e)) => if names_dir(e) {
                Err(FsError::IsADirectory)
            } else if has_bits(e.attributes, READ_ONLY) {
                Err(FsError::ReadOnlyFile)
            } else {
                match self.set_located(p, img, self.refreshed(img, parent), e.name) {
                    Err(x) => Err(x),
                    Ok(None) => Err(FsError::NotFound),
                    Ok(Some(loc)) => Ok((e, loc)),
                }
            },
        }
    }
}

impl<D: Device> ExfatVfs<D> {
    /// Everything but the handle table is as in `before`.
    pub open spec fn keeps_all_but_handles(self, before: Self) -> bool {
        &&& self.dev == before.dev
        &&& self.layout == before.layout
        &&& self.name_policy == before.name_policy
        &&& self.auto_timestamps == before.auto_timestamps
        &&& self.volume_dirty == before.volume_dirty
    }

    /// The handle table is that of `before` but for `key`, which has `mode`.
    pub open spec fn handles_set(self, before: Self, key: Seq<u16>, mode: OpenMode) -> bool {
        forall|k: Seq<u16>|
            #[trigger] self.handles.mode(k) == (if k == key {
                Some(mode)
            } else {
                before.handles.mode(k)
            })
    }

    /// Stat a path. One that normalizes to the root names the root.
    pub fn lookup(&self, path: &str) -> (r: Result<Metadata, FsError<D::Error>>)
        requires
            self.wf(),
        ensures
            match r {
                Err(FsError::Io(_)) => !self.dev.reliable(),
                Ok(m) => if normalized(components_of(path@)).len() == 0 {
                    m == root_metadata()
                } else {
                    let e = self.layout.entry_at(self.name_policy, self.dev.contents(), path@);
                    e is Ok && m == exfat_metadata(e->Ok_0.1)
                },
                Err(x) => {
                    &&& normalized(components_of(path@)).len() > 0
                    &&& self.layout.entry_at(self.name_policy, self.dev.contents(), path@) == Err::<
                        (DirExtent, EntryFields),
                        FsError<()>,
                    >(x.kind())
                },
            },
    {
        if normalized_components(path).len() == 0 {
            return Ok(Metadata::root());
        }
        match self.resolve_entry(path) {
            Ok((_, entry)) => Ok(Metadata::from_exfat(&entry)),
            Err(e) => Err(e),
        }
    }

    /// Iterate the directory named by `path` (`/` or `\` separated;
    /// "" / `/` / `\` name the root).
    pub fn read_dir(&self, path: &str) -> (r: Result<ExfatReadDir, FsError<D::Error>>)
        requires
            self.wf(),
        ensures
            r matches Ok(it) ==> it.wf(),
            ({
                let dir = self.layout.descend(
                    self.name_policy,
                    self.dev.contents(),
                    self.layout.root(),
                    components_of(path@),
                );
                match r {
                    Err(FsError::Io(_)) => !self.dev.reliable(),
                    Ok(it) => dir is Ok && self.layout.listing(self.dev.contents(), dir->Ok_0)
                        == Ok::<Seq<EntryFields>, FsError<()>>(it.rest()),
                    Err(x) => dir == Err::<DirExtent, FsError<()>>(x.kind()) || (dir is Ok
                        && self.layout.listing(self.dev.contents(), dir->Ok_0) == Err::<
                        Seq<EntryFields>,
                        FsError<()>,
                    >(x.kind())),
                }
            }),
    {
        let dir = match ExfatDirectory::open_path(self, path) {
            Ok(dir) => dir,
            Err(e) => {
                return Err(e);
            },
        };
        let extent = dir.extent();
        ExfatReadDir::new(
            self,
            DirWalk {
                first_cluster: extent.first_cluster,
                no_fat_chain: extent.no_fat_chain,
                max_clusters: extent.max_clusters,
            },
        )
    }

    /// Build a stream from a resolved directory entry. `loc` is `None` for
    /// read-only handles (no write-back target).
    pub fn stream_from_entry(
        &self,
        path_key: Vec<u16>,
        entry: &ExfatDirEntry,
        loc: Option<SetLoc>,
        writable: bool,
    ) -> (r: ExfatStream)
        requires
            self.wf(),
        ensures
            entry_usable(self.layout.boot, entry@) && (loc matches Some(at) ==> at.wf())
                ==> r.wf(self.layout),
            opened_stream(
                self.layout,
                r,
                entry@,
                loc,
                path_key@,
                writable,
                false,
                self.auto_timestamps,
            ),
    {
        proof {
            lemma_unit_sizes(self.layout.boot);
        }
        // DataLength IS the byte size; allocation is its cluster-rounding.
        let cluster_bytes: u64 = self.layout.boot.bytes_per_cluster() as u64;
        let allocated: u64 = if entry.first_cluster >= 2 {
            let n: u64 = div_ceil_u64(entry.data_length, cluster_bytes);
            proof {
                let (a, b) = (n as int, cluster_bytes as int);
                assert(0 <= a * b) by (nonlinear_arith)
                    requires
                        a >= 0,
                        b >= 0,
                ;
            }
            match n.checked_mul(cluster_bytes) {
                Some(total) => total,
                None => u64::MAX,
            }
        } else {
            0
        };
        let map = ExfatClusterMap::new(self, entry.first_cluster, allocated, entry.no_fat_chain);
        proof {
            if fits_volume(self.layout.boot, entry@) && entry.first_cluster >= 2 {
                let n = ceil_div(entry.data_length as int, cluster_bytes as int);
                let b = cluster_bytes as int;
                vstd::arithmetic::div_mod::lemma_div_pos_is_pos(entry.data_length + b - 1, b);
                assert(0 <= n * b <= u64::MAX) by (nonlinear_arith)
                    requires
                        0 <= n <= u32::MAX,
                        0 < b <= u32::MAX,
                ;
                lemma_whole_clusters(n, b);
            }
        }
        let writer = ExfatDirSlotWriter::new(loc, entry.created, entry.modified, entry.accessed);
        let times = EntryTimes {
            created: entry.created,
            modified: entry.modified,
            accessed: entry.accessed,
        };
        ExfatStream {
            map,
            writer,
            init: StreamInit {
                first_cluster: entry.first_cluster,
                len: entry.data_length,
                valid_len: entry.valid_data_length,
                lock_key: path_key,
                times,
                attributes: entry.attributes.to_attributes(),
                writable,
                owns_lock: false,
                update_times: self.auto_timestamps,
                fat_size_cap: false,
            },
        }
    }

    /// Open the file at `path` for reading.
    pub fn open_file(&mut self, path: &str) -> (r: Result<ExfatStream, FsError<D::Error>>)
        requires
            old(self).wf(),
            old(self).handles.mode(old(self).name_policy.path_key(path@)) !== Some(
                OpenMode::ReadOnly(u32::MAX),
            ),
        ensures
            final(self).wf(),
            final(self).keeps_all_but_handles(*old(self)),
            r is Err ==> final(self).handles == old(self).handles,
            r matches Ok(s) ==> s.wf(old(self).layout),
            ({
                let key = old(self).name_policy.path_key(path@);
                let at = old(self).layout.readable_at(
                    old(self).name_policy,
                    old(self).dev.contents(),
                    path@,
                );
                match r {
                    Err(FsError::Io(_)) => !old(self).dev.reliable(),
                    Ok(s) => {
                        &&& at is Ok
                        &&& opened_stream(
                            old(self).layout,
                            s,
                            at->Ok_0,
                            None,
                            key,
                            false,
                            true,
                            old(self).auto_timestamps,
                        )
                        &&& match old(self).handles.mode(key) {
                            None => final(self).handles_set(
                                *old(self),
                                key,
                                OpenMode::ReadOnly(1),
                            ),
                            Some(OpenMode::ReadOnly(n)) => final(self).handles_set(
                                *old(self),
                                key,
                                OpenMode::ReadOnly((n + 1) as u32),
                            ),
                            Some(OpenMode::ReadWrite) => false,
                        }
                    },
                    Err(x) => if at is Err {
                        at == Err::<EntryFields, FsError<()>>(x.kind())
                    } else {
                        &&& x.kind() == FsError::<()>::FileLocked
                        &&& old(self).handles.mode(key) == Some(OpenMode::ReadWrite)
                    },
                }
            }),
    {
        // Case-folded: lock keys must collide across case variants.
        let path_key: Vec<u16> = self.name_policy.fold_path(path);
        let entry = match self.resolve_entry(path) {
            Ok((_, entry)) => entry,
            Err(e) => {
                return Err(e);
            },
        };
        if entry.is_dir() {
            return Err(FsError::IsADirectory);
        }
        match self.handles.lock_ro(path_key.as_slice()) {
            Ok(_) => {},
            Err(e) => {
                return Err(e);
            },
        }
        let mut file = self.stream_from_entry(path_key, &entry, None, false);
        file.init.owns_lock = true;
        Ok(file)
    }

    /// Open an existing file for read/write. Exclusive: fails with
    /// [`FsError::FileLocked`] if any other handle to the same path is open.
    ///
    /// A contiguous (`NoFatChain=1`) file keeps its fast-path layout until it
    /// actually grows.
    pub fn open_file_rw(&mut self, path: &str) -> (r: Result<ExfatStream, FsError<D::Error>>)
        requires
            old(self).wf(),
        ensures
            final(self).wf(),
            final(self).keeps_all_but_handles(*old(self)),
            r is Err ==> final(self).handles == old(self).handles,
            r matches Ok(s) ==> s.wf(old(self).layout),
            ({
                let key = old(self).name_policy.path_key(path@);
                let at = old(self).layout.writable_at(
                    old(self).name_policy,
                    old(self).dev.contents(),
                    path@,
                );
                match r {
                    Err(FsError::Io(_)) => !old(self).dev.reliable(),
                    Ok(s) => {
                        &&& at is Ok
                        &&& opened_stream(
                            old(self).layout,
                            s,
                            at->Ok_0.0,
                            Some(at->Ok_0.1),
                            key,
                            true,
                            true,
                            old(self).auto_timestamps,
                        )
                        &&& old(self).handles.mode(key) is None
                        &&& final(self).handles_set(*old(self), key, OpenMode::ReadWrite)
                    },
                    Err(x) => if at is Err {
                        at == Err::<(EntryFields, SetLoc), FsError<()>>(x.kind())
                    } else {
                        &&& x.kind() == FsError::<()>::FileLocked
                        &&& old(self).handles.mode(key) is Some
                    },
                }
            }),
    {
        // Case-folded: lock keys must collide across case variants.
        let path_key: Vec<u16> = self.name_policy.fold_path(path);
        let (parent, entry) = match self.resolve_entry(path) {
            Ok(p) => p,
            Err(e) => {
                return Err(e);
            },
        };
        if entry.is_dir() {
            return Err(FsError::IsADirectory);
        }
        if entry.attributes.contains(READ_ONLY) {
            return Err(FsError::ReadOnlyFile);
        }
        let loc = match self.locate_entry_set_in(&parent, entry.name.as_str()) {
            Ok(Some(loc)) => loc,
            Ok(None) => {
                return Err(FsError::NotFound);
            },
            Err(e) => {
                return Err(e);
            },
        };
        match self.handles.lock_rw(path_key.as_slice()) {
            Ok(_) => {},
            Err(e) => {
                return Err(e);
            },
        }
        let mut file = self.stream_from_entry(path_key, &entry, Some(loc), true);
        file.init.owns_lock = true;
        Ok(file)
    }
}

} // verus!
