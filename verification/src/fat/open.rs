//! Open, lookup, and read_dir for FAT volumes.

use vstd::prelude::*;

use super::cluster_map::{fat_allocated, FatClusterMap};
use super::dir_slots::{FatDir, SlotChain};
use super::directory::{fat_metadata, without_dots, FatDirectory};
use super::entry::{FatFields, MinFields, MinProperties, RawProperties};
use super::entry_io::patched_fields;
use super::fs::FatVfs;
use super::layout::{fat_file_ends_as, lemma_cluster_size, FatLayout};
use super::readdir::FatReadDir;
use super::slot_iter::fat_listing;
use crate::attrs::{packed_attributes, unpacked_attributes};
use crate::codec::fat::dir_entry::RawAttributes;
use crate::codec::fat::fat_entry::FatEntry;
use crate::device::Device;
use crate::dir::{root_metadata, Metadata};
use crate::entry_times::EntryTimes;
use crate::error::{CorruptKind, FileError, FsError};
use crate::exfat::layout::reads_as;
use crate::handles::OpenMode;
use crate::path::{
    components_of, ends_in_parent, ends_with_parent, is_valid_path, names_of, normalized,
    normalized_components, valid_path,
};
use crate::vfs::{EntryPatch, StreamInit};

verus! {

/// Writes the SFN record (last of an LFN+SFN set) for one open FAT file.
pub struct FatDirSlotWriter {
    pub chain: SlotChain,
    pub is_dir: bool,
    pub props: MinProperties,
}

impl FatDirSlotWriter {
    pub open spec fn wf(self) -> bool {
        self.chain.first.wf() && self.props@.wf()
    }

    /// The writer for the entry `raw`.
    pub fn from_props(raw: &RawProperties) -> (r: Self)
        requires
            raw@.wf(),
        ensures
            r.wf(),
            r.chain == raw@.chain,
            r.is_dir == raw@.is_dir,
            r.props@ == writer_fields(raw@),
    {
        let attributes = RawAttributes::from_attributes(
            raw.attributes.as_attr_bits().to_attributes(),
            raw.is_dir,
        );
        let mut props = raw.min_properties();
        props.attributes = attributes;
        FatDirSlotWriter { chain: raw.chain, is_dir: raw.is_dir, props }
    }

    /// Apply a patch to the record of this file.
    pub fn write_patch<D: Device>(&mut self, fs: &mut FatVfs<D>, patch: EntryPatch) -> (r: Result<
        (),
        FileError<D::Error>,
    >)
        requires
            old(self).wf(),
            old(fs).wf(),
            patch.wf(),
        ensures
            final(self).wf(),
            final(self).chain == old(self).chain,
            final(self).is_dir == old(self).is_dir,
            final(self).props@ == patched_fields(old(self).props@, old(self).is_dir, patch),
            final(fs).wf(),
            final(fs).keeps(*old(fs)),
            fat_file_ends_as(
                r,
                old(fs).layout.record_rewritten(
                    old(fs).disk(),
                    old(self).chain,
                    patched_fields(old(self).props@, old(self).is_dir, patch),
                ),
                final(fs).disk(),
                old(fs).dev.reliable(),
            ),
    {
        match fs.patch_sfn_record(self.chain, &mut self.props, self.is_dir, patch) {
            Ok(_) => Ok(()),
            Err(e) => Err(FileError::from(e)),
        }
    }
}

/// The fields that an open file writes back: its attribute byte is made anew
/// from the user-visible flags.
pub open spec fn writer_fields(f: FatFields) -> MinFields {
    MinFields {
        attributes: packed_attributes(unpacked_attributes(f.attributes as u16), f.is_dir) as u8,
        ..f.min()
    }
}

/// An open FAT file.
pub struct FatStream {
    pub map: FatClusterMap,
    pub writer: FatDirSlotWriter,
    pub init: StreamInit,
}

impl FatStream {
    /// A file can be worked with from here.
    pub open spec fn wf(self) -> bool {
        &&& self.map.wf()
        &&& self.writer.wf()
        &&& self.init.valid_len <= self.init.len
        &&& self.init.times.wf()
    }
}

/// `s` is the stream of the entry `f`, opened under `key`.
pub open spec fn fat_opened_stream(
    l: FatLayout,
    s: FatStream,
    f: FatFields,
    key: Seq<u16>,
    writable: bool,
    owns_lock: bool,
    update_times: bool,
) -> bool {
    &&& s.map.allocated_len == fat_allocated(
        l.props.cluster_size as int,
        f.file_size as int,
        f.data_cluster as int,
    )
    &&& s.writer.chain == f.chain
    &&& s.writer.is_dir == f.is_dir
    &&& s.writer.props@ == writer_fields(f)
    &&& s.init.first_cluster == f.data_cluster
    // FAT has no ValidDataLength: everything up to `len` is data.
    &&& s.init.len == f.file_size
    &&& s.init.valid_len == f.file_size
    &&& s.init.lock_key@ == key
    &&& s.init.times == (EntryTimes {
        created: f.created,
        modified: Some(f.modified),
        accessed: f.accessed,
    })
    &&& s.init.attributes == unpacked_attributes(f.attributes as u16)
    &&& s.init.writable == writable
    &&& s.init.owns_lock == owns_lock
    &&& s.init.update_times == update_times
    &&& s.init.fat_size_cap
}

/// None of the names holds a character that a file name cannot hold.
pub open spec fn all_valid(names: Seq<Seq<char>>) -> bool {
    forall|i: int| 0 <= i < names.len() ==> valid_path(#[trigger] names[i])
}

/// `a * b`, within 32 bits.
pub open spec fn saturated_product(a: int, b: int) -> int {
    crate::num::saturated32(a * b)
}

impl FatLayout {
    /// The chain from `cur` on holds a file's bytes, `count` clusters having
    /// been counted before. A walk longer than the volume's cluster count is
    /// a cycle.
    pub open spec fn chain_holds(self, img: Seq<u8>, cur: u32, count: int, file_size: int) -> Result<
        bool,
        FsError<()>,
    >
        decreases self.props.max_cluster + 1 - count,
    {
        if saturated_product(count + 1, self.props.cluster_size as int) >= file_size {
            Ok(true)
        } else if count + 1 > self.props.max_cluster {
            Ok(false)
        } else {
            match self.fat_read(img, cur as int) {
                Err(e) => Err(e),
                Ok(FatEntry::Next(n)) => self.chain_holds(img, n, count + 1, file_size),
                Ok(_) => Ok(false),
            }
        }
    }

    /// A file's chain is long enough for its size.
    pub open spec fn chain_healthy(self, img: Seq<u8>, first: u32, file_size: int) -> Result<
        bool,
        FsError<()>,
    > {
        if first < 2 {
            Ok(true)
        } else {
            self.chain_holds(img, first, 0, file_size)
        }
    }

    /// The entry that a path names; the root has none.
    pub open spec fn entry_at(self, img: Seq<u8>, path: Seq<char>) -> Result<
        Option<FatFields>,
        FsError<()>,
    > {
        let c = normalized(components_of(path));
        if !valid_path(path) {
            Err(FsError::InvalidInput)
        } else if c.len() == 0 {
            Ok(None)
        } else {
            match self.descend(img, self.root_dir(), c.drop_last()) {
                Err(e) => Err(e),
                Ok(dir) => match self.child(img, dir, c.last()) {
                    Err(e) => Err(e),
                    Ok(None) => Err(FsError::NotFound),
                    Ok(Some(f)) => Ok(Some(f)),
                },
            }
        }
    }

    /// The file that a path opens. A path that ends in `..` names none.
    pub open spec fn file_at(self, img: Seq<u8>, path: Seq<char>) -> Result<
        FatFields,
        FsError<()>,
    > {
        if valid_path(path) && ends_in_parent(path) {
            Err(FsError::IsADirectory)
        } else {
            match self.entry_at(img, path) {
                Err(e) => Err(e),
                Ok(None) => Err(FsError::IsADirectory),
                Ok(Some(f)) => if f.is_dir {
                    Err(FsError::IsADirectory)
                } else {
                    match self.chain_healthy(img, f.data_cluster, f.file_size as int) {
                        Err(e) => Err(e),
                        Ok(false) => Err(FsError::Corrupt(CorruptKind::ClusterChain)),
                        Ok(true) => Ok(f),
                    }
                },
            }
        }
    }

    /// The entry that a path names, as it is looked up before the path itself is
    /// checked: the directories on the way must have valid names, the last name
    /// is only looked for. The root has no entry.
    pub open spec fn entry_sought(self, img: Seq<u8>, path: Seq<char>) -> Result<
        FatFields,
        FsError<()>,
    > {
        let c = normalized(components_of(path));
        if c.len() == 0 {
            Err(FsError::IsADirectory)
        } else if !all_valid(c.drop_last()) {
            Err(FsError::InvalidInput)
        } else {
            match self.descend(img, self.root_dir(), c.drop_last()) {
                Err(e) => Err(e),
                Ok(dir) => match self.child(img, dir, c.last()) {
                    Err(e) => Err(e),
                    Ok(None) => Err(FsError::NotFound),
                    Ok(Some(f)) => Ok(f),
                },
            }
        }
    }

    /// The file that a path opens for writing. The entry is looked up, and its
    /// read-only attribute looked at, before the path and the chain are checked.
    pub open spec fn writable_at(self, img: Seq<u8>, path: Seq<char>) -> Result<
        FatFields,
        FsError<()>,
    > {
        match self.entry_sought(img, path) {
            Err(e) => Err(e),
            Ok(f) => if f.is_dir {
                Err(FsError::IsADirectory)
            } else if unpacked_attributes(f.attributes as u16).read_only {
                Err(FsError::ReadOnlyFile)
            } else {
                self.file_at(img, path)
            },
        }
    }
}

impl<D: Device> FatVfs<D> {
    /// Everything but the handle table is as in `before`.
    pub open spec fn keeps_all_but_handles(self, before: Self) -> bool {
        &&& self.dev == before.dev
        &&& self.layout == before.layout
        &&& self.fsinfo == before.fsinfo
        &&& self.fsinfo_modified == before.fsinfo_modified
        &&& self.name_policy == before.name_policy
        &&& self.first_free_cluster == before.first_free_cluster
        &&& self.auto_timestamps == before.auto_timestamps
    }

    /// The handle table is that of `before` but for `key`, which has `mode`.
    pub open spec fn handles_set(self, before: Self, key: Seq<u16>, mode: OpenMode) -> bool {
        forall|k: Seq<u16>|
            #[trigger] self.handles.mode(k) == (if k == key {
                Some(mode)
            } else {
                before.handles.mode(k)
            })
    }

    /// The entry that a path names; `None` for the root.
    pub fn find_entry(&self, path: &str) -> (r: Result<Option<RawProperties>, FsError<D::Error>>)
        requires
            self.wf(),
        ensures
            r matches Ok(Some(p)) ==> p@.wf(),
            match r {
                Err(FsError::Io(_)) => !self.dev.reliable(),
                Ok(Some(p)) => self.layout.entry_at(self.dev.contents(), path@) == Ok::<
                    Option<FatFields>,
                    FsError<()>,
                >(Some(p@)),
                Ok(None) => self.layout.entry_at(self.dev.contents(), path@) == Ok::<
                    Option<FatFields>,
                    FsError<()>,
                >(None),
                Err(e) => self.layout.entry_at(self.dev.contents(), path@) == Err::<
                    Option<FatFields>,
                    FsError<()>,
                >(e.kind()),
            },
    {
        if !is_valid_path(path) {
            return Err(FsError::InvalidInput);
        }
        let parts: Vec<String> = normalized_components(path);
        let n: usize = parts.len();
        if n == 0 {
            return Ok(None);
        }
        proof {
            let c = normalized(components_of(path@));
            assert(names_of(parts@).subrange(0, n - 1) =~= c.drop_last());
            assert(c.last() == parts@[n - 1]@);
        }
        let dir = match FatDirectory::open_components(self, &parts, n - 1) {
            Ok(dir) => dir,
            Err(e) => {
                return Err(e);
            },
        };
        match dir.lookup(self, parts[n - 1].as_str()) {
            Ok(Some(p)) => Ok(Some(p)),
            Ok(None) => Err(FsError::NotFound),
            Err(e) => Err(e),
        }
    }

    /// Look up the entry that a path names, before the path itself is checked.
    fn seek_entry(&self, path: &str) -> (r: Result<RawProperties, FsError<D::Error>>)
        requires
            self.wf(),
        ensures
            match r {
                Err(FsError::Io(_)) => !self.dev.reliable(),
                Ok(p) => self.layout.entry_sought(self.dev.contents(), path@) == Ok::<
                    FatFields,
                    FsError<()>,
                >(p@),
                Err(e) => self.layout.entry_sought(self.dev.contents(), path@) == Err::<
                    FatFields,
                    FsError<()>,
                >(e.kind()),
            },
    {
        let parts: Vec<String> = normalized_components(path);
        let n: usize = parts.len();
        if n == 0 {
            return Err(FsError::IsADirectory);
        }
        let ghost c = normalized(components_of(path@));
        proof {
            assert(names_of(parts@).subrange(0, n - 1) =~= c.drop_last());
            assert(c.last() == parts@[n - 1]@);
        }
        let mut i: usize = 0;
        while i < n - 1
            invariant
                n == parts@.len(),
                n > 0,
                i <= n - 1,
                c == names_of(parts@),
                c == normalized(components_of(path@)),
                forall|k: int| 0 <= k < i ==> valid_path(#[trigger] c.drop_last()[k]),
            decreases n - i,
        {
            assert(c.drop_last()[i as int] == parts@[i as int]@);
            if !is_valid_path(parts[i].as_str()) {
                return Err(FsError::InvalidInput);
            }
            i += 1;
        }
        let dir = match FatDirectory::open_components(self, &parts, n - 1) {
            Ok(dir) => dir,
            Err(e) => {
                return Err(e);
            },
        };
        match dir.lookup(self, parts[n - 1].as_str()) {
            Ok(Some(p)) => Ok(p),
            Ok(None) => Err(FsError::NotFound),
            Err(e) => Err(e),
        }
    }

    /// Iterate over the directory at `path`, `.` and `..` left out.
    pub fn read_dir(&self, path: &str) -> (r: Result<FatReadDir, FsError<D::Error>>)
        requires
            self.wf(),
        ensures
            r matches Ok(it) ==> it.wf(),
            ({
                let dir = self.layout.dir_at(self.dev.contents(), path@);
                match r {
                    Err(FsError::Io(_)) => !self.dev.reliable(),
                    Ok(it) => {
                        let all = fat_listing(self.layout, self.dev.contents(), dir->Ok_0);
                        &&& dir is Ok
                        &&& it.rest(self.layout, self.dev.contents()) == (
                            without_dots(all.0),
                            all.1,
                        )
                    },
                    Err(e) => dir == Err::<FatDir, FsError<()>>(e.kind()),
                }
            }),
    {
        match FatDirectory::open_path(self, path) {
            Ok(dir) => Ok(FatReadDir::new(self, dir.anchor)),
            Err(e) => Err(e),
        }
    }

    /// Build a stream from a resolved entry.
    pub fn stream_from_props(&self, raw: &RawProperties, lock_key: Vec<u16>, writable: bool) -> (r:
        FatStream)
        requires
            self.wf(),
            raw@.wf(),
        ensures
            fat_opened_stream(
                self.layout,
                r,
                raw@,
                lock_key@,
                writable,
                false,
                self.auto_timestamps,
            ),
            r.wf(),
    {
        let map = FatClusterMap::new(self, raw.file_size, raw.data_cluster);
        let writer = FatDirSlotWriter::from_props(raw);
        FatStream {
            map,
            writer,
            init: StreamInit {
                first_cluster: raw.data_cluster,
                len: raw.file_size as u64,
                valid_len: raw.file_size as u64,
                lock_key,
                times: EntryTimes {
                    created: raw.created,
                    modified: Some(raw.modified),
                    accessed: raw.accessed,
                },
                attributes: raw.attributes.as_attr_bits().to_attributes(),
                writable,
                owns_lock: false,
                update_times: self.auto_timestamps,
                fat_size_cap: true,
            },
        }
    }

    /// Whether the chain from `first` is long enough for `file_size` bytes.
    pub fn chain_is_healthy(&self, first: u32, file_size: u32) -> (r: Result<
        bool,
        FsError<D::Error>,
    >)
        requires
            self.wf(),
        ensures
            reads_as(
                r,
                self.layout.chain_healthy(self.dev.contents(), first, file_size as int),
                self.dev.reliable(),
            ),
    {
        if first < 2 {
            return Ok(true);
        }
        proof {
            lemma_cluster_size(self.layout);
        }
        let ghost l = self.layout;
        let ghost img = self.dev.contents();
        let cs: u64 = self.layout.props.cluster_size as u64;
        let max: u32 = self.layout.props.max_cluster;
        let mut current: u32 = first;
        let mut count: u32 = 0;
        loop
            invariant
                self.wf(),
                l == self.layout,
                img == self.dev.contents(),
                cs == l.props.cluster_size,
                cs <= 0x10_0000,
                max == l.props.max_cluster,
                first >= 2,
                count <= max,
                l.chain_holds(img, first, 0, file_size as int) == l.chain_holds(
                    img,
                    current,
                    count as int,
                    file_size as int,
                ),
            decreases max - count,
        {
            proof {
                let (a, b) = (count as int + 1, cs as int);
                assert(0 <= a * b <= 0x1_0000_0000 * 0x10_0000) by (nonlinear_arith)
                    requires
                        0 <= a <= 0x1_0000_0000,
                        0 <= b <= 0x10_0000,
                ;
            }
            if (count as u64 + 1) * cs >= file_size as u64 {
                return Ok(true);
            }
            // A walk longer than the volume's cluster count is a cycle.

            if count >= max {
                return Ok(false);
            }
            match self.read_fat(current) {
                Err(e) => {
                    return Err(e);
                },
                Ok(FatEntry::Next(n)) => {
                    current = n;
                },
                Ok(_) => {
                    return Ok(false);
                },
            }
            count += 1;
        }
    }

    /// Stat a path without building a public directory iterator (path-pure).
    pub fn lookup(&self, path: &str) -> (r: Result<Metadata, FsError<D::Error>>)
        requires
            self.wf(),
        ensures
            match r {
                Err(FsError::Io(_)) => !self.dev.reliable(),
                Ok(m) => {
                    let at = self.layout.entry_at(self.dev.contents(), path@);
                    &&& at is Ok
                    &&& m == (match at->Ok_0 {
                        None => root_metadata(),
                        Some(f) => fat_metadata(f),
                    })
                },
                Err(e) => self.layout.entry_at(self.dev.contents(), path@) == Err::<
                    Option<FatFields>,
                    FsError<()>,
                >(e.kind()),
            },
    {
        match self.find_entry(path) {
            Ok(None) => Ok(Metadata::root()),
            Ok(Some(p)) => Ok(FatDirectory::metadata_of(&p)),
            Err(e) => Err(e),
        }
    }

    /// Resolve `path` to a stream without locking; the caller registers the
    /// RO/RW lock.
    pub fn open_stream(&self, path: &str, writable: bool) -> (r: Result<FatStream, FsError<D::Error>>)
        requires
            self.wf(),
        ensures
            r matches Ok(s) ==> s.wf(),
            ({
                let at = self.layout.file_at(self.dev.contents(), path@);
                match r {
                    Err(FsError::Io(_)) => !self.dev.reliable(),
                    Ok(s) => at is Ok && fat_opened_stream(
                        self.layout,
                        s,
                        at->Ok_0,
                        self.name_policy.path_key(path@),
                        writable,
                        false,
                        self.auto_timestamps,
                    ),
                    Err(e) => at == Err::<FatFields, FsError<()>>(e.kind()),
                }
            }),
    {
        if is_valid_path(path) && ends_with_parent(path) {
            return Err(FsError::IsADirectory);
        }
        let raw = match self.find_entry(path) {
            Ok(Some(raw)) => raw,
            Ok(None) => {
                return Err(FsError::IsADirectory);
            },
            Err(e) => {
                return Err(e);
            },
        };
        if raw.is_dir {
            return Err(FsError::IsADirectory);
        }
        match self.chain_is_healthy(raw.data_cluster, raw.file_size) {
            Ok(true) => {},
            Ok(false) => {
                return Err(FsError::Corrupt(CorruptKind::ClusterChain));
            },
            Err(e) => {
                return Err(e);
            },
        }
        let key: Vec<u16> = self.name_policy.fold_path(path);
        Ok(self.stream_from_props(&raw, key, writable))
    }

    /// Open the file at `path` for reading; fails if it isn't an existing file
    pub fn get_ro_file(&mut self, path: &str) -> (r: Result<FatStream, FsError<D::Error>>)
        requires
            old(self).wf(),
            old(self).handles.mode(old(self).name_policy.path_key(path@)) !== Some(
                OpenMode::ReadOnly(u32::MAX),
            ),
        ensures
            final(self).wf(),
            final(self).keeps_all_but_handles(*old(self)),
            r is Err ==> final(self).handles == old(self).handles,
            r matches Ok(s) ==> s.wf(),
            ({
                let key = old(self).name_policy.path_key(path@);
                let at = old(self).layout.file_at(old(self).dev.contents(), path@);
                match r {
                    Err(FsError::Io(_)) => !old(self).dev.reliable(),
                    Ok(s) => {
                        &&& at is Ok
                        &&& fat_opened_stream(
                            old(self).layout,
                            s,
                            at->Ok_0,
                            key,
                            false,
                            true,
                            old(self).auto_timestamps,
                        )
                        &&& match old(self).handles.mode(key) {
                            None => final(self).handles_set(
                                *old(self),
                                key,
                                OpenMode::ReadOnly(1),
                            ),
                            Some(OpenMode::ReadOnly(n)) => final(self).handles_set(
                                *old(self),
                                key,
                                OpenMode::ReadOnly((n + 1) as u32),
                            ),
                            Some(OpenMode::ReadWrite) => false,
                        }
                    },
                    Err(e) => if at is Err {
                        at == Err::<FatFields, FsError<()>>(e.kind())
                    } else {
                        &&& e.kind() == FsError::<()>::FileLocked
                        &&& old(self).handles.mode(key) == Some(OpenMode::ReadWrite)
                    },
                }
            }),
    {
        let mut file = match self.open_stream(path, false) {
            Ok(file) => file,
            Err(e) => {
                return Err(e);
            },
        };
        let key: Vec<u16> = self.name_policy.fold_path(path);
        match self.handles.lock_ro(key.as_slice()) {
            Ok(_) => {},
            Err(e) => {
                return Err(e);
            },
        }
        file.init.owns_lock = true;
        Ok(file)
    }

    /// Open the file at `path` for reading and writing; fails if it isn't an existing file
    pub fn get_rw_file(&mut self, path: &str) -> (r: Result<FatStream, FsError<D::Error>>)
        requires
            old(self).wf(),
        ensures
            final(self).wf(),
            final(self).keeps_all_but_handles(*old(self)),
            r is Err ==> final(self).handles == old(self).handles,
            r matches Ok(s) ==> s.wf(),
            ({
                let key = old(self).name_policy.path_key(path@);
                let at = old(self).layout.writable_at(old(self).dev.contents(), path@);
                match r {
                    Err(FsError::Io(_)) => !old(self).dev.reliable(),
                    Ok(s) => {
                        &&& at is Ok
                        &&& fat_opened_stream(
                            old(self).layout,
                            s,
                            at->Ok_0,
                            key,
                            true,
                            true,
                            old(self).auto_timestamps,
                        )
                        &&& old(self).handles.mode(key) is None
                        &&& final(self).handles_set(*old(self), key, OpenMode::ReadWrite)
                    },
                    Err(e) => if at is Err {
                        at == Err::<FatFields, FsError<()>>(e.kind())
                    } else {
                        &&& e.kind() == FsError::<()>::FileLocked
                        &&& old(self).handles.mode(key) is Some
                    },
                }
            }),
    {
        // Reject RO attribute via a lightweight lookup first.
        match self.seek_entry(path) {
            Ok(raw) => {
                if raw.is_dir {
                    return Err(FsError::IsADirectory);
                }
                if raw.attributes.as_attr_bits().to_attributes().read_only {
                    return Err(FsError::ReadOnlyFile);
                }
            },
            Err(e) => {
                return Err(e);
            },
        }
        let mut file = match self.open_stream(path, true) {
            Ok(file) => file,
            Err(e) => {
                return Err(e);
            },
        };
        let key: Vec<u16> = self.name_policy.fold_path(path);
        match self.handles.lock_rw(key.as_slice()) {
            Ok(_) => {},
            Err(e) => {
                return Err(e);
            },
        }
        file.init.owns_lock = true;
        Ok(file)
    }
}

} // verus!
