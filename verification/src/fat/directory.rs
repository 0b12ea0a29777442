//! Path-pure FAT directory access (no ambient cwd).
//!
//! A [`FatDirectory`] is a view of one directory identified by a [`FatDir`]
//! region. All read and write operations take an explicit directory; the
//! volume does not track a cwd.

use vstd::prelude::*;
use vstd::string::StringExecFns;
use vstd::utf8::encode_utf8;

use super::dir_slots::{FatDir, SlotChain};
use super::entry::{record_image, sfn_record, FatFields, MinFields, MinProperties, RawProperties};
use super::entry_io::{dot_sfn, dotdot_sfn, lemma_sfn_from_raw, patched_fields};
use super::fs::FatVfs;
use super::layout::{fat_comes_to, fat_done, fat_ends_as, fat_failed, FatDisk, FatLayout, FatRun};
use super::rename_laws::{given_back, law_data_given_back};
use super::sfn::{
    as_sfn, digest_of, exact_sfn, name_digest, numbered, numbered_sfn, sfn_stem_ext, tagged,
    tagged_sfn,
};
use super::slot_iter::{fat_listing, listed_from, raw_fields, FatSlotIter};
use crate::attrs::{packed_attributes, unpacked_attributes, Attributes};
use crate::calendar::{epoch_datetime, PrimitiveDateTime};
use crate::codec::fat::dir_entry::RawAttributes;
use crate::codec::fat::sfn_layout::{parent_dir_raw, Sfn};
use crate::codec::fat::types::FatType;
use crate::device::Device;
use crate::dir::Metadata;
use crate::entry_times::EntryTimes;
use crate::error::{CorruptKind, FsError};
use crate::name::NamePolicy;
use crate::path::{
    components_of, is_dot, is_dotdot, is_valid_path, names_of, normalized, normalized_components,
    valid_path,
};
use crate::vfs::{EntryPatch, NewEntry};

verus! {

/// The metadata of a FAT entry; a directory has no length of its own.
pub open spec fn fat_metadata(f: FatFields) -> Metadata {
    Metadata {
        len: if f.is_dir {
            0
        } else {
            f.file_size as u64
        },
        is_dir: f.is_dir,
        attributes: unpacked_attributes(f.attributes as u16),
        created: f.created,
        modified: Some(f.modified),
        accessed: f.accessed,
    }
}

/// `r` is what collecting the entries of `dir` gives: the listing and the error
/// that cuts it short; or, where the storage failed, a first part of it and that
/// failure.
pub open spec fn collected<D: Device>(
    fs: &FatVfs<D>,
    dir: FatDir,
    r: (Vec<RawProperties>, Option<FsError<D::Error>>),
) -> bool {
    let all = fat_listing(fs.layout, fs.dev.contents(), dir);
    match r.1 {
        None => all == (raw_fields(r.0@), None::<FsError<()>>),
        Some(FsError::Io(_)) => {
            &&& !fs.dev.reliable()
            &&& r.0@.len() <= all.0.len()
            &&& raw_fields(r.0@) == all.0.subrange(0, r.0@.len() as int)
        },
        Some(e) => all == (raw_fields(r.0@), Some(e.kind())),
    }
}

/// What is found in a first part of a list is found first in the whole.
proof fn lemma_named_in_part(p: NamePolicy, all: Seq<FatFields>, n: int, name: Seq<char>)
    requires
        0 <= n <= all.len(),
        fat_first_named(p, all.subrange(0, n), name) is Some,
    ensures
        fat_first_named(p, all, name) == fat_first_named(p, all.subrange(0, n), name),
    decreases n,
{
    let part = all.subrange(0, n);
    assert(part.first() == all.first());
    if !p.same_name(all.first().name, name) {
        assert(part.drop_first() =~= all.drop_first().subrange(0, n - 1));
        lemma_named_in_part(p, all.drop_first(), n - 1, name);
    }
}

/// The first entry of a list that goes by `name`.
pub open spec fn fat_first_named(p: NamePolicy, entries: Seq<FatFields>, name: Seq<char>) -> Option<
    FatFields,
>
    decreases entries.len(),
{
    if entries.len() == 0 {
        None
    } else if p.same_name(entries.first().name, name) {
        Some(entries.first())
    } else {
        fat_first_named(p, entries.drop_first(), name)
    }
}

/// Some entry of the list has the short name `raw`.
pub open spec fn has_sfn(entries: Seq<FatFields>, raw: Seq<u8>) -> bool {
    exists|i: int| 0 <= i < entries.len() && (#[trigger] entries[i]).sfn.raw() == raw
}

/// The entry is one of the two that every sub-directory has.
pub open spec fn is_dot_entry(f: FatFields) -> bool {
    f.name == seq!['.'] || f.name == seq!['.', '.']
}

/// The list without `.` and `..`.
pub open spec fn without_dots(entries: Seq<FatFields>) -> Seq<FatFields>
    decreases entries.len(),
{
    if entries.len() == 0 {
        seq![]
    } else if is_dot_entry(entries.last()) {
        without_dots(entries.drop_last())
    } else {
        without_dots(entries.drop_last()).push(entries.last())
    }
}

impl FatLayout {
    /// Looking up `name` in `dir`. An error counts only where the entry was
    /// not found before it.
    pub open spec fn child(self, img: Seq<u8>, dir: FatDir, name: Seq<char>) -> Result<
        Option<FatFields>,
        FsError<()>,
    > {
        let (entries, err) = fat_listing(self, img, dir);
        match fat_first_named(NamePolicy::Ascii, entries, name) {
            Some(f) => Ok(Some(f)),
            None => match err {
                Some(e) => Err(e),
                None => Ok(None),
            },
        }
    }

    /// Whether an entry of `dir` already carries a short name.
    pub open spec fn sfn_used(self, img: Seq<u8>, dir: FatDir, raw: Seq<u8>) -> Result<
        bool,
        FsError<()>,
    > {
        let (entries, err) = fat_listing(self, img, dir);
        if has_sfn(entries, raw) {
            Ok(true)
        } else {
            match err {
                Some(e) => Err(e),
                None => Ok(false),
            }
        }
    }

    /// The first unused of the names with the tails `~n`, `~(n+1)`, … `~4`.
    pub open spec fn numbered_free(self, img: Seq<u8>, dir: FatDir, name: Seq<char>, n: int) -> Result<
        Option<Seq<u8>>,
        FsError<()>,
    >
        decreases 5 - n,
    {
        if n > 4 {
            Ok(None)
        } else {
            match self.sfn_used(img, dir, numbered_sfn(name, n)) {
                Err(e) => Err(e),
                Ok(false) => Ok(Some(numbered_sfn(name, n))),
                Ok(true) => self.numbered_free(img, dir, name, n + 1),
            }
        }
    }

    /// The first unused of the names with hexadecimal tails from `tag` on,
    /// after `k` of them were taken. With all of them taken the directory is
    /// full.
    pub open spec fn tagged_free(
        self,
        img: Seq<u8>,
        dir: FatDir,
        name: Seq<char>,
        tag: int,
        k: int,
    ) -> Result<Seq<u8>, FsError<()>>
        decreases 0x1_0000 - k,
    {
        if k >= 0x1_0000 {
            Err(FsError::StorageFull)
        } else {
            match self.sfn_used(img, dir, tagged_sfn(name, tag)) {
                Err(e) => Err(e),
                Ok(false) => Ok(tagged_sfn(name, tag)),
                Ok(true) => self.tagged_free(img, dir, name, (tag + 1) % 0x1_0000, k + 1),
            }
        }
    }

    /// The alias for `name` in `dir`.
    pub open spec fn alias_chosen(self, img: Seq<u8>, dir: FatDir, name: Seq<char>) -> Result<
        Seq<u8>,
        FsError<()>,
    > {
        match self.numbered_free(img, dir, name, 1) {
            Err(e) => Err(e),
            Ok(Some(raw)) => Ok(raw),
            Ok(None) => self.tagged_free(img, dir, name, name_digest(encode_utf8(name)), 0),
        }
    }

    /// The short name for `name` in `dir`: the exact one if there is one and
    /// it is unused, else an alias.
    pub open spec fn sfn_chosen(self, img: Seq<u8>, dir: FatDir, name: Seq<char>) -> Result<
        Seq<u8>,
        FsError<()>,
    > {
        match exact_sfn(name) {
            Some(raw) => match self.sfn_used(img, dir, raw) {
                Err(e) => Err(e),
                Ok(false) => Ok(raw),
                Ok(true) => self.alias_chosen(img, dir, name),
            },
            None => self.alias_chosen(img, dir, name),
        }
    }

    /// The directory reached from `dir` by the given components.
    pub open spec fn descend(self, img: Seq<u8>, dir: FatDir, components: Seq<Seq<char>>) -> Result<
        FatDir,
        FsError<()>,
    >
        decreases components.len(),
    {
        if components.len() == 0 {
            Ok(dir)
        } else {
            match self.child(img, dir, components.first()) {
                Err(e) => Err(e),
                Ok(None) => Err(FsError::NotFound),
                Ok(Some(f)) => if !f.is_dir {
                    Err(FsError::NotADirectory)
                } else {
                    self.descend(
                        img,
                        FatDir::Clusters(f.data_cluster),
                        components.drop_first(),
                    )
                },
            }
        }
    }

    /// The fields of a new entry once its short name and cluster are known.
    pub open spec fn new_fields(self, entry: NewEntry, sfn: Sfn, cluster: u32) -> MinFields {
        let attrs = if entry.is_dir {
            entry.attrs
        } else {
            // New files get the archive bit.
            Attributes { archive: true, ..entry.attrs }
        };
        MinFields {
            name: entry.name@,
            sfn,
            attributes: packed_attributes(attrs, entry.is_dir) as u8,
            created: entry.times.created,
            modified: match entry.times.modified {
                Some(t) => t,
                None => epoch_datetime(),
            },
            accessed: entry.times.accessed,
            file_size: if entry.size > u32::MAX {
                u32::MAX
            } else {
                entry.size as u32
            },
            data_cluster: cluster,
            nt_res: 0,
            ea_handle: match self.fat_type {
                FatType::FAT32 => None,
                FatType::FAT16 => Some(0),
            },
        }
    }

    /// The cluster of a new entry: a fresh directory gets one of its own.
    pub open spec fn new_cluster(self, d: FatDisk, dir: FatDir, entry: NewEntry) -> FatRun<u32> {
        if entry.is_dir && entry.first_cluster == 0 {
            self.dir_cluster_made(
                d,
                dir,
                match entry.times.modified {
                    Some(t) => t,
                    None => epoch_datetime(),
                },
                dot_sfn(),
                dotdot_sfn(),
            )
        } else {
            fat_done(entry.first_cluster, d)
        }
    }

    /// Inserting a new entry into `dir`. If the slots cannot be had, a
    /// directory's fresh cluster is given back.
    pub open spec fn inserted(self, d: FatDisk, dir: FatDir, entry: NewEntry) -> FatRun<FatFields> {
        match self.child(d.img, dir, entry.name@) {
            Err(e) => fat_failed(e, d),
            Ok(Some(_)) => fat_failed(FsError::AlreadyExists, d),
            Ok(None) => match self.sfn_chosen(d.img, dir, entry.name@) {
                Err(e) => fat_failed(e, d),
                Ok(raw) => {
                    let sfn = sfn_with(raw);
                    let c = self.new_cluster(d, dir, entry);
                    match c.out {
                        Err(e) => fat_failed(e, c.disk),
                        Ok(cluster) => {
                            let p = self.new_fields(entry, sfn, cluster);
                            let i = self.entry_inserted(c.disk, p, dir);
                            match i.out {
                                Ok(chain) => fat_done(p.at(chain), i.disk),
                                Err(e) => fat_failed(
                                    e,
                                    if entry.is_dir && entry.first_cluster == 0 {
                                        self.chain_freed(i.disk, cluster, 0).disk
                                    } else {
                                        i.disk
                                    },
                                ),
                            }
                        },
                    }
                },
            },
        }
    }

    /// Pointing the `..` of the directory at `cluster` to `parent`. The slot
    /// must really hold the `..` entry.
    pub open spec fn dotdot_repointed(
        self,
        d: FatDisk,
        cluster: u32,
        parent: FatDir,
        now: PrimitiveDateTime,
    ) -> FatRun<()> {
        match self.slot_nth(d.img, self.cluster_slot(cluster), 1) {
            Err(e) => fat_failed(e, d),
            Ok(None) => fat_failed(FsError::Corrupt(CorruptKind::DirEntry), d),
            Ok(Some(pos)) => match self.slot_read(d.img, pos) {
                Err(e) => fat_failed(e, d),
                Ok(slot) => if slot.subrange(0, 11) != parent_dir_raw() {
                    fat_failed(FsError::Corrupt(CorruptKind::DirEntry), d)
                } else {
                    self.written(
                        d,
                        pos.offset as int,
                        record_image(
                            sfn_record(
                                self.dot_fields(dotdot_sfn(), self.parent_link(parent), now),
                            ),
                        ),
                    )
                },
            },
        }
    }

    /// The directory that a path names.
    pub open spec fn dir_at(self, img: Seq<u8>, path: Seq<char>) -> Result<FatDir, FsError<()>> {
        if !valid_path(path) {
            Err(FsError::InvalidInput)
        } else {
            self.descend(img, self.root_dir(), normalized(components_of(path)))
        }
    }

    /// Applying a patch to the entry `f`.
    pub open spec fn entry_updated(self, d: FatDisk, f: FatFields, patch: EntryPatch) -> FatRun<()> {
        self.record_rewritten(d, f.chain, patched_fields(f.min(), f.is_dir, patch))
    }

    /// Giving back the clusters that hold the data of `f`.
    pub open spec fn data_freed(self, d: FatDisk, f: FatFields) -> FatRun<()> {
        if f.data_cluster >= 2 {
            self.chain_freed(d, f.data_cluster, 0)
        } else {
            fat_done((), d)
        }
    }

    /// Adding `f` to `dir` under a new name; a moved directory's `..` comes
    /// after, so a failed insert leaves it as it was.
    pub open spec fn linked(
        self,
        d: FatDisk,
        dir: FatDir,
        f: FatFields,
        entry: NewEntry,
        now: PrimitiveDateTime,
    ) -> FatRun<()> {
        let i = self.inserted(d, dir, entry);
        match i.out {
            Err(e) => fat_failed(e, i.disk),
            Ok(_) => if f.is_dir {
                self.dotdot_repointed(i.disk, f.data_cluster, dir, now)
            } else {
                fat_done((), i.disk)
            },
        }
    }
}

/// The entry is a directory for which a cluster has to be made.
pub open spec fn owns_new_cluster(entry: NewEntry) -> bool {
    entry.is_dir && entry.first_cluster == 0
}

/// The short name with the given bytes.
pub open spec fn sfn_with(raw: Seq<u8>) -> Sfn {
    choose|s: Sfn| s.raw() == raw
}

/// `entry` is `f` to be linked under the name `name`: every field and the
/// original timestamps are kept.
pub open spec fn relink_of(f: FatFields, name: Seq<char>, entry: NewEntry) -> bool {
    &&& entry.name@ == name
    &&& entry.attrs == unpacked_attributes(f.attributes as u16)
    &&& entry.is_dir == f.is_dir
    &&& entry.first_cluster == f.data_cluster
    &&& entry.size == f.file_size
    &&& entry.times == (EntryTimes {
        created: f.created,
        modified: Some(f.modified),
        accessed: f.accessed,
    })
    &&& entry.no_fat_chain is None
    &&& entry.allocated_size is None
}

/// View of one FAT directory.
#[derive(Debug, Clone, Copy)]
pub struct FatDirectory {
    pub anchor: FatDir,
}

impl FatDirectory {
    /// Root directory of the volume.
    pub fn root<D: Device>(fs: &FatVfs<D>) -> (r: Self)
        ensures
            r.anchor == fs.layout.root_dir(),
    {
        FatDirectory { anchor: fs.root_dir() }
    }

    #[inline]
    pub fn anchor(&self) -> (r: FatDir)
        ensures
            r == self.anchor,
    {
        self.anchor
    }

    /// Resolve `path` to a directory by walking from the root.
    pub fn open_path<D: Device>(fs: &FatVfs<D>, path: &str) -> (r: Result<Self, FsError<D::Error>>)
        requires
            fs.wf(),
        ensures
            match r {
                Err(FsError::Io(_)) => !fs.dev.reliable(),
                Ok(dir) => fs.layout.dir_at(fs.dev.contents(), path@) == Ok::<FatDir, FsError<()>>(
                    dir.anchor,
                ),
                Err(e) => fs.layout.dir_at(fs.dev.contents(), path@) == Err::<FatDir, FsError<()>>(
                    e.kind(),
                ),
            },
    {
        if !is_valid_path(path) {
            return Err(FsError::InvalidInput);
        }
        let parts: Vec<String> = normalized_components(path);
        let n: usize = parts.len();
        assert(names_of(parts@).subrange(0, n as int) =~= names_of(parts@));
        Self::open_components(fs, &parts, n)
    }

    /// Walk from the root through the first `n` of `parts`.
    pub fn open_components<D: Device>(fs: &FatVfs<D>, parts: &Vec<String>, n: usize) -> (r: Result<
        Self,
        FsError<D::Error>,
    >)
        requires
            fs.wf(),
            n <= parts@.len(),
        ensures
            match r {
                Err(FsError::Io(_)) => !fs.dev.reliable(),
                Ok(dir) => fs.layout.descend(
                    fs.dev.contents(),
                    fs.layout.root_dir(),
                    names_of(parts@).subrange(0, n as int),
                ) == Ok::<FatDir, FsError<()>>(dir.anchor),
                Err(e) => fs.layout.descend(
                    fs.dev.contents(),
                    fs.layout.root_dir(),
                    names_of(parts@).subrange(0, n as int),
                ) == Err::<FatDir, FsError<()>>(e.kind()),
            },
    {
        let ghost l = fs.layout;
        let ghost img = fs.dev.contents();
        let ghost names = names_of(parts@).subrange(0, n as int);
        let mut dir = Self::root(fs);
        let mut i: usize = 0;
        assert(names.subrange(0, n as int) =~= names);
        while i < n
            invariant
                fs.wf(),
                l == fs.layout,
                img == fs.dev.contents(),
                names == names_of(parts@).subrange(0, n as int),
                i <= n <= parts@.len(),
                l.descend(img, l.root_dir(), names) == l.descend(
                    img,
                    dir.anchor,
                    names.subrange(i as int, n as int),
                ),
            decreases n - i,
        {
            proof {
                let rest = names.subrange(i as int, n as int);
                assert(rest.first() == parts@[i as int]@);
                assert(rest.drop_first() =~= names.subrange(i + 1, n as int));
            }
            match dir.lookup(fs, parts[i].as_str()) {
                Ok(Some(entry)) => {
                    if !entry.is_dir {
                        return Err(FsError::NotADirectory);
                    }
                    dir = FatDirectory { anchor: FatDir::Clusters(entry.data_cluster) };
                },
                Ok(None) => {
                    return Err(FsError::NotFound);
                },
                Err(e) => {
                    return Err(e);
                },
            }
            i += 1;
        }
        Ok(dir)
    }

    /// All entries (includes `.` / `..`), and the error that cut the listing
    /// short if there was one.
    pub fn collect_raw<D: Device>(&self, fs: &FatVfs<D>) -> (r: (
        Vec<RawProperties>,
        Option<FsError<D::Error>>,
    ))
        requires
            fs.wf(),
        ensures
            forall|i: int| 0 <= i < r.0@.len() ==> (#[trigger] r.0@[i])@.wf(),
            collected(fs, self.anchor, r),
    {
        let ghost l = fs.layout;
        let ghost img = fs.dev.contents();
        let ghost all = fat_listing(l, img, self.anchor);
        let mut iter = FatSlotIter::new(fs, self.anchor);
        let mut out: Vec<RawProperties> = Vec::new();
        assert(raw_fields(out@) + all.0 =~= all.0);
        loop
            invariant
                fs.wf(),
                iter.wf(),
                l == fs.layout,
                img == fs.dev.contents(),
                all == fat_listing(l, img, self.anchor),
                forall|i: int| 0 <= i < out@.len() ==> (#[trigger] out@[i])@.wf(),
                ({
                    let rest = listed_from(l, img, iter.state());
                    all == (raw_fields(out@) + rest.0, rest.1)
                }),
            decreases super::slot_iter::MAX_DIR_SLOTS - iter.slots_seen,
        {
            let ghost before = raw_fields(out@);
            match iter.next(fs) {
                None => {
                    assert(before + Seq::<FatFields>::empty() =~= before);
                    return (out, None);
                },
                Some(Ok(p)) => {
                    let ghost f = p@;
                    out.push(p);
                    proof {
                        let rest = listed_from(l, img, iter.state());
                        assert(raw_fields(out@) =~= before.push(f));
                        assert(raw_fields(out@) + rest.0 =~= before + (seq![f] + rest.0));
                    }
                },
                Some(Err(e)) => {
                    assert(before + Seq::<FatFields>::empty() =~= before);
                    assert(before =~= all.0.subrange(0, before.len() as int));
                    return (out, Some(e));
                },
            }
        }
    }

    /// Scan this directory for `name` using the volume name policy.
    pub fn lookup<D: Device>(&self, fs: &FatVfs<D>, name: &str) -> (r: Result<
        Option<RawProperties>,
        FsError<D::Error>,
    >)
        requires
            fs.wf(),
        ensures
            r matches Ok(Some(p)) ==> p@.wf(),
            match r {
                Err(FsError::Io(_)) => !fs.dev.reliable(),
                Ok(Some(p)) => fs.layout.child(fs.dev.contents(), self.anchor, name@) == Ok::<
                    Option<FatFields>,
                    FsError<()>,
                >(Some(p@)),
                Ok(None) => fs.layout.child(fs.dev.contents(), self.anchor, name@) == Ok::<
                    Option<FatFields>,
                    FsError<()>,
                >(None),
                Err(e) => fs.layout.child(fs.dev.contents(), self.anchor, name@) == Err::<
                    Option<FatFields>,
                    FsError<()>,
                >(e.kind()),
            },
    {
        let (entries, err) = self.collect_raw(fs);
        let ghost all = raw_fields(entries@);
        let ghost p = fs.name_policy;
        let mut i: usize = 0;
        assert(all.subrange(0, all.len() as int) =~= all);
        while i < entries.len()
            invariant
                fs.wf(),
                p == fs.name_policy,
                i <= entries@.len(),
                all == raw_fields(entries@),
                collected(fs, self.anchor, (entries, err)),
                forall|k: int| 0 <= k < entries@.len() ==> (#[trigger] entries@[k])@.wf(),
                fat_first_named(p, all, name@) == fat_first_named(
                    p,
                    all.subrange(i as int, all.len() as int),
                    name@,
                ),
            decreases entries@.len() - i,
        {
            proof {
                let rest = all.subrange(i as int, all.len() as int);
                assert(rest.first() == entries@[i as int]@);
                assert(rest.drop_first() =~= all.subrange(i + 1, all.len() as int));
            }
            if fs.name_policy.names_equal(entries[i].name.as_str(), name) {
                proof {
                    let whole = fat_listing(fs.layout, fs.dev.contents(), self.anchor).0;
                    assert(whole.subrange(0, all.len() as int) =~= all);
                    lemma_named_in_part(p, whole, all.len() as int, name@);
                }
                return Ok(Some(entries[i].copied()));
            }
            i += 1;
        }
        match err {
            Some(e) => Err(e),
            None => Ok(None),
        }
    }

    /// The metadata of an entry.
    pub fn metadata_of(raw: &RawProperties) -> (r: Metadata)
        ensures
            r == fat_metadata(raw@),
    {
        Metadata {
            len: if raw.is_dir {
                0
            } else {
                raw.file_size as u64
            },
            is_dir: raw.is_dir,
            attributes: raw.attributes.as_attr_bits().to_attributes(),
            created: raw.created,
            modified: Some(raw.modified),
            accessed: raw.accessed,
        }
    }

    /// All entries but `.` and `..`, with their names and metadata.
    pub fn list_entries<D: Device>(&self, fs: &FatVfs<D>) -> (r: Result<
        Vec<(RawProperties, String, Metadata)>,
        FsError<D::Error>,
    >)
        requires
            fs.wf(),
        ensures
            r matches Ok(v) ==> forall|i: int|
                0 <= i < v@.len() ==> (#[trigger] v@[i]).1@ == v@[i].0@.name && v@[i].2
                    == fat_metadata(v@[i].0@) && v@[i].0@.wf(),
            ({
                let all = fat_listing(fs.layout, fs.dev.contents(), self.anchor);
                match r {
                    Err(FsError::Io(_)) => !fs.dev.reliable(),
                    Ok(v) => all.1 is None && Seq::new(v@.len(), |i: int| v@[i].0@)
                        == without_dots(all.0),
                    Err(e) => all.1 == Some(e.kind()),
                }
            }),
    {
        let (entries, err) = self.collect_raw(fs);
        if let Some(e) = err {
            return Err(e);
        }
        let ghost all = raw_fields(entries@);
        let mut out: Vec<(RawProperties, String, Metadata)> = Vec::new();
        let mut i: usize = 0;
        let ghost mut sofar: Seq<FatFields> = seq![];
        assert(all.subrange(0, 0) =~= seq![]);
        while i < entries.len()
            invariant
                i <= entries@.len(),
                all == raw_fields(entries@),
                forall|k: int| 0 <= k < entries@.len() ==> (#[trigger] entries@[k])@.wf(),
                forall|k: int|
                    0 <= k < out@.len() ==> (#[trigger] out@[k]).1@ == out@[k].0@.name && out@[k].2
                        == fat_metadata(out@[k].0@) && out@[k].0@.wf(),
                sofar =~= Seq::new(out@.len(), |k: int| out@[k].0@),
                sofar == without_dots(all.subrange(0, i as int)),
            decreases entries@.len() - i,
        {
            proof {
                assert(all.subrange(0, i + 1).drop_last() =~= all.subrange(0, i as int));
                assert(all.subrange(0, i + 1).last() == entries@[i as int]@);
            }
            let name: &str = entries[i].name.as_str();
            if !is_dot(name) && !is_dotdot(name) {
                let meta = Self::metadata_of(&entries[i]);
                out.push((entries[i].copied(), entries[i].name.clone(), meta));
                proof {
                    sofar = sofar.push(entries@[i as int]@);
                }
            }
            i += 1;
        }
        assert(all.subrange(0, all.len() as int) =~= all);
        Ok(out)
    }

    /// Whether some entry already carries short name `sfn`.
    fn sfn_taken<D: Device>(&self, fs: &FatVfs<D>, sfn: &Sfn) -> (r: Result<bool, FsError<D::Error>>)
        requires
            fs.wf(),
        ensures
            match r {
                Err(FsError::Io(_)) => !fs.dev.reliable(),
                Ok(b) => fs.layout.sfn_used(fs.dev.contents(), self.anchor, sfn.raw()) == Ok::<
                    bool,
                    FsError<()>,
                >(b),
                Err(e) => fs.layout.sfn_used(fs.dev.contents(), self.anchor, sfn.raw()) == Err::<
                    bool,
                    FsError<()>,
                >(e.kind()),
            },
    {
        let (entries, err) = self.collect_raw(fs);
        let ghost all = raw_fields(entries@);
        let mut i: usize = 0;
        while i < entries.len()
            invariant
                i <= entries@.len(),
                all == raw_fields(entries@),
                collected(fs, self.anchor, (entries, err)),
                forall|k: int| 0 <= k < i ==> (#[trigger] all[k]).sfn.raw() != sfn.raw(),
            decreases entries@.len() - i,
        {
            if entries[i].sfn.same(sfn) {
                proof {
                    let whole = fat_listing(fs.layout, fs.dev.contents(), self.anchor).0;
                    assert(whole.subrange(0, all.len() as int) =~= all);
                    assert(all[i as int].sfn.raw() == sfn.raw());
                    assert(whole[i as int] == all[i as int]);
                }
                return Ok(true);
            }
            assert(all[i as int].sfn == entries@[i as int].sfn);
            i += 1;
        }
        match err {
            Some(e) => Err(e),
            None => Ok(false),
        }
    }

    /// A generated alias for `long_name`.
    fn gen_alias<D: Device>(&self, fs: &FatVfs<D>, long_name: &str) -> (r: Result<
        Sfn,
        FsError<D::Error>,
    >)
        requires
            fs.wf(),
        ensures
            match r {
                Err(FsError::Io(_)) => !fs.dev.reliable(),
                Ok(sfn) => fs.layout.alias_chosen(
                    fs.dev.contents(),
                    self.anchor,
                    long_name@,
                ) == Ok::<Seq<u8>, FsError<()>>(sfn.raw()),
                Err(e) => fs.layout.alias_chosen(
                    fs.dev.contents(),
                    self.anchor,
                    long_name@,
                ) == Err::<Seq<u8>, FsError<()>>(e.kind()),
            },
    {
        let ghost l = fs.layout;
        let ghost img = fs.dev.contents();
        let ghost name = long_name@;
        let (stem, ext) = sfn_stem_ext(long_name);
        let mut n: u8 = 1;
        while n <= 4
            invariant
                fs.wf(),
                l == fs.layout,
                img == fs.dev.contents(),
                name == long_name@,
                stem@ == super::sfn::alias_stem(name),
                ext@ == super::sfn::alias_ext(name),
                1 <= n <= 5,
                l.numbered_free(img, self.anchor, name, 1)
                    == l.numbered_free(img, self.anchor, name, n as int),
            decreases 5 - n,
        {
            let candidate = numbered(stem.as_slice(), ext, n);
            match self.sfn_taken(fs, &candidate) {
                Ok(false) => {
                    return Ok(candidate);
                },
                Ok(true) => {},
                Err(e) => {
                    return Err(e);
                },
            }
            n += 1;
        }
        let mut tag: u16 = digest_of(long_name);
        let mut k: u32 = 0;
        let ghost tag0 = tag as int;
        while k < 0x1_0000
            invariant
                fs.wf(),
                l == fs.layout,
                img == fs.dev.contents(),
                name == long_name@,
                stem@ == super::sfn::alias_stem(name),
                ext@ == super::sfn::alias_ext(name),
                k <= 0x1_0000,
                tag0 == name_digest(encode_utf8(name)),
                l.numbered_free(img, self.anchor, name, 1) == Ok::<
                    Option<Seq<u8>>,
                    FsError<()>,
                >(None),
                l.tagged_free(img, self.anchor, name, tag0, 0)
                    == l.tagged_free(img, self.anchor, name, tag as int, k as int),
            decreases 0x1_0000 - k,
        {
            let candidate = tagged(stem.as_slice(), ext, tag);
            match self.sfn_taken(fs, &candidate) {
                Ok(false) => {
                    return Ok(candidate);
                },
                Ok(true) => {},
                Err(e) => {
                    return Err(e);
                },
            }
            tag = tag.wrapping_add(1);
            k += 1;
        }
        // Every one of the 65536 hex tails collided — the directory is full.
        Err(FsError::StorageFull)
    }

    /// Generate a unique 8.3 short name for `long_name`.
    ///
    /// A name that is already valid 8.3 is used verbatim if free. Otherwise a
    /// short numeric tail (`STEM~1`..`~4`) is tried first, then — to avoid an
    /// O(collisions) sweep in a crowded directory — a name-derived hex tail
    /// (`ST~HHHH`).
    pub fn gen_sfn<D: Device>(&self, fs: &FatVfs<D>, long_name: &str) -> (r: Result<
        Sfn,
        FsError<D::Error>,
    >)
        requires
            fs.wf(),
        ensures
            match r {
                Err(FsError::Io(_)) => !fs.dev.reliable(),
                Ok(sfn) => fs.layout.sfn_chosen(
                    fs.dev.contents(),
                    self.anchor,
                    long_name@,
                ) == Ok::<Seq<u8>, FsError<()>>(sfn.raw()),
                Err(e) => fs.layout.sfn_chosen(
                    fs.dev.contents(),
                    self.anchor,
                    long_name@,
                ) == Err::<Seq<u8>, FsError<()>>(e.kind()),
            },
    {
        if let Some(sfn) = as_sfn(long_name) {
            match self.sfn_taken(fs, &sfn) {
                Ok(false) => {
                    return Ok(sfn);
                },
                Ok(true) => {},
                Err(e) => {
                    return Err(e);
                },
            }
        }
        self.gen_alias(fs, long_name)
    }

    /// The properties of a new entry.
    fn new_properties<D: Device>(fs: &FatVfs<D>, entry: &NewEntry, sfn: Sfn, cluster: u32) -> (r:
        MinProperties)
        requires
            entry.times.wf(),
        ensures
            r@ == fs.layout.new_fields(*entry, sfn, cluster),
            r@.wf(),
    {
        let mut attrs = entry.attrs;
        if !entry.is_dir {
            // New files get the archive bit (Windows convention).
            attrs.archive = true;
        }
        MinProperties {
            name: entry.name.clone(),
            sfn,
            attributes: RawAttributes::from_attributes(attrs, entry.is_dir),
            created: entry.times.created,
            modified: entry.times.modified_or_epoch(),
            accessed: entry.times.accessed,
            file_size: if entry.size > 0xFFFF_FFFF {
                u32::MAX
            } else {
                entry.size as u32
            },
            data_cluster: cluster,
            nt_res: 0,
            ea_handle: match fs.layout.fat_type {
                FatType::FAT32 => None,
                FatType::FAT16 => Some(0),
            },
        }
    }

    /// The cluster of a new entry: the one it comes with, or for a directory
    /// without one a cluster made for it.
    fn cluster_for<D: Device>(&self, fs: &mut FatVfs<D>, entry: &NewEntry) -> (r: Result<
        u32,
        FsError<D::Error>,
    >)
        requires
            old(fs).wf(),
            entry.times.wf(),
        ensures
            final(fs).wf(),
            final(fs).keeps(*old(fs)),
            fat_comes_to(
                r,
                old(fs).layout.new_cluster(old(fs).disk(), self.anchor, *entry),
                final(fs).disk(),
                old(fs).dev.reliable(),
            ),
            r is Ok && owns_new_cluster(*entry) ==> final(fs).dev.durable()
                == final(fs).dev.contents(),
    {
        if !(entry.is_dir && entry.first_cluster == 0) {
            return Ok(entry.first_cluster);
        }
        let c: u32 = match fs.create_dir_cluster(self.anchor, entry.times.modified_or_epoch()) {
            Ok(c) => c,
            Err(e) => {
                return Err(e);
            },
        };
        // Allocate-before-link on the device: a new directory's cluster
        // must be durable before the entry that points at it becomes
        // visible.
        match fs.metadata_barrier() {
            Ok(_) => Ok(c),
            Err(e) => Err(e),
        }
    }

    /// Store a new entry. A cluster that was made for it must be durable before.
    fn show_entry<D: Device>(
        &self,
        fs: &mut FatVfs<D>,
        entry: &NewEntry,
        props: &MinProperties,
    ) -> (r: Result<SlotChain, FsError<D::Error>>)
        requires
            old(fs).wf(),
            props@.wf(),
            owns_new_cluster(*entry) ==> old(fs).dev.durable() == old(fs).dev.contents(),
        ensures
            final(fs).wf(),
            final(fs).keeps(*old(fs)),
            r matches Ok(c) ==> c.first.wf(),
            fat_comes_to(
                r,
                old(fs).layout.entry_inserted(old(fs).disk(), props@, self.anchor),
                final(fs).disk(),
                old(fs).dev.reliable(),
            ),
    {
        fs.insert_entry(props, self.anchor)
    }

    /// Create an entry.
    pub fn insert<D: Device>(&mut self, fs: &mut FatVfs<D>, entry: &NewEntry) -> (r: Result<
        RawProperties,
        FsError<D::Error>,
    >)
        requires
            old(fs).wf(),
            entry.times.wf(),
        ensures
            *final(self) == *old(self),
            final(fs).wf(),
            final(fs).keeps(*old(fs)),
            r matches Ok(p) ==> p@.wf(),
            ({
                let run = old(fs).layout.inserted(old(fs).disk(), old(self).anchor, *entry);
                match r {
                    Ok(p) => {
                        &&& run.out == Ok::<FatFields, FsError<()>>(p@)
                        &&& final(fs).disk() == run.disk
                    },
                    Err(FsError::Io(_)) => !old(fs).dev.reliable(),
                    Err(e) => {
                        &&& run.out == Err::<FatFields, FsError<()>>(e.kind())
                        &&& old(fs).dev.reliable() ==> final(fs).disk() == run.disk
                    },
                }
            }),
    {
        match self.lookup(fs, entry.name.as_str()) {
            Ok(Some(_)) => {
                return Err(FsError::AlreadyExists);
            },
            Ok(None) => {},
            Err(e) => {
                return Err(e);
            },
        }
        let sfn: Sfn = match self.gen_sfn(fs, entry.name.as_str()) {
            Ok(sfn) => sfn,
            Err(e) => {
                return Err(e);
            },
        };
        proof {
            lemma_sfn_from_raw(sfn, sfn_with(sfn.raw()));
        }
        // A fresh directory allocates and seeds its `.`/`..` cluster here
        // (after the duplicate check, so a failure can't leak it).
        let owns_cluster: bool = entry.is_dir && entry.first_cluster == 0;
        let data_cluster: u32 = match self.cluster_for(fs, entry) {
            Ok(c) => c,
            Err(e) => {
                return Err(e);
            },
        };
        let props: MinProperties = Self::new_properties(fs, entry, sfn, data_cluster);
        match self.show_entry(fs, entry, &props) {
            Ok(chain) => Ok(RawProperties::from_chain(props, chain)),
            Err(e) => {
                if owns_cluster {
                    // Don't leak the freshly seeded directory cluster when
                    // the insert itself fails (e.g. no free slots).
                    let _ = fs.free_cluster_chain(data_cluster);
                }
                Err(e)
            },
        }
    }

    /// Unlink `entry`; its data stays.
    pub fn remove<D: Device>(&mut self, fs: &mut FatVfs<D>, entry: &RawProperties) -> (r: Result<
        (),
        FsError<D::Error>,
    >)
        requires
            old(fs).wf(),
            entry@.wf(),
        ensures
            *final(self) == *old(self),
            final(fs).wf(),
            final(fs).keeps(*old(fs)),
            fat_ends_as(
                r,
                old(fs).layout.slots_deleted(
                    old(fs).disk(),
                    entry@.chain.first,
                    entry@.chain.len as int,
                ),
                final(fs).disk(),
                old(fs).dev.reliable(),
            ),
    {
        fs.remove_entry_set(&entry.chain)
    }

    /// Free the clusters of `entry`.
    pub fn free_data<D: Device>(&mut self, fs: &mut FatVfs<D>, entry: &RawProperties) -> (r: Result<
        (),
        FsError<D::Error>,
    >)
        requires
            old(fs).wf(),
        ensures
            *final(self) == *old(self),
            final(fs).wf(),
            final(fs).keeps(*old(fs)),
            fat_ends_as(
                r,
                old(fs).layout.data_freed(old(fs).disk(), entry@),
                final(fs).disk(),
                old(fs).dev.reliable(),
            ),
            old(fs).layout.sound() && old(fs).layout.volume_end() <= old(fs).dev.contents().len()
                && entry@.data_cluster >= 2 ==> forall|cs: Seq<u32>|
                cs.len() > 0 && entry@.data_cluster == cs[0] && #[trigger] old(fs).layout.file_chain(
                    old(fs).dev.contents(),
                    entry@.data_cluster,
                    cs,
                ) && r is Ok ==> given_back(
                    old(fs).layout,
                    old(fs).dev.contents(),
                    final(fs).dev.contents(),
                    cs,
                ),
    {
        proof {
            let l = fs.layout;
            let x = fs.dev.contents();
            if l.sound() && l.volume_end() <= x.len() {
                assert forall|cs: Seq<u32>|
                    cs.len() > 0 && entry@.data_cluster == cs[0] && #[trigger] l.file_chain(
                        x,
                        entry@.data_cluster,
                        cs,
                    ) implies given_back(l, x, l.data_freed(fs.disk(), entry@).disk.img, cs) by {
                    law_data_given_back(l, fs.disk(), entry@, cs);
                }
            }
        }
        if entry.data_cluster >= 2 {
            return fs.free_cluster_chain(entry.data_cluster);
        }
        Ok(())
    }

    /// Point the `..` of the directory at `cluster` to this directory —
    /// after verifying the slot really holds the dotdot entry, so a
    /// non-compliant volume can't trick us into overwriting a real entry.
    fn repoint_dotdot<D: Device>(&self, fs: &mut FatVfs<D>, cluster: u32, now: PrimitiveDateTime) -> (r:
        Result<(), FsError<D::Error>>)
        requires
            old(fs).wf(),
            now.wf(),
        ensures
            final(fs).wf(),
            final(fs).keeps(*old(fs)),
            fat_ends_as(
                r,
                old(fs).layout.dotdot_repointed(old(fs).disk(), cluster, self.anchor, now),
                final(fs).disk(),
                old(fs).dev.reliable(),
            ),
    {
        let first = fs.dir_first_slot(FatDir::Clusters(cluster));
        let dotdot = match fs.nth_slot(first, 1) {
            Ok(Some(pos)) => pos,
            Ok(None) => {
                return Err(FsError::Corrupt(CorruptKind::DirEntry));
            },
            Err(e) => {
                return Err(e);
            },
        };
        let existing: [u8; 32] = match fs.read_slot(dotdot) {
            Ok(slot) => slot,
            Err(e) => {
                return Err(e);
            },
        };
        let found = Sfn {
            name: crate::codec::bytes(&existing, 0),
            ext: crate::codec::bytes(&existing, 8),
        };
        let parent = Sfn::parent_dir();
        proof {
            assert(found.raw() =~= existing@.subrange(0, 11));
            lemma_sfn_from_raw(parent, dotdot_sfn());
        }
        if !found.same(&parent) {
            return Err(FsError::Corrupt(CorruptKind::DirEntry));
        }
        let link: u32 = fs.parent_link_cluster(self.anchor);
        let bytes: [u8; 32] = fs.dot_entry(parent, link, now);
        fs.write_slot(dotdot, &bytes)
    }

    /// Add `entry` to this directory under a new name. The insert comes
    /// first: it is the fallible step, and rewriting the moved directory's
    /// `..` before it would leave a failed rename with `..` pointing at the
    /// destination parent. A move preserves the original timestamps.
    pub fn link<D: Device>(
        &mut self,
        fs: &mut FatVfs<D>,
        entry: &RawProperties,
        new_name: &str,
        now: PrimitiveDateTime,
    ) -> (r: Result<(), FsError<D::Error>>)
        requires
            old(fs).wf(),
            entry@.wf(),
            now.wf(),
        ensures
            *final(self) == *old(self),
            final(fs).wf(),
            final(fs).keeps(*old(fs)),
            exists|e: NewEntry|
                #![trigger relink_of(entry@, new_name@, e)]
                relink_of(entry@, new_name@, e) && fat_comes_to(
                    r,
                    old(fs).layout.linked(old(fs).disk(), old(self).anchor, entry@, e, now),
                    final(fs).disk(),
                    old(fs).dev.reliable(),
                ),
    {
        let new = NewEntry {
            name: String::from_str(new_name),
            attrs: entry.attributes.as_attr_bits().to_attributes(),
            is_dir: entry.is_dir,
            first_cluster: entry.data_cluster,
            size: entry.file_size as u64,
            times: EntryTimes {
                created: entry.created,
                modified: Some(entry.modified),
                accessed: entry.accessed,
            },
            no_fat_chain: None,
            allocated_size: None,
        };
        assert(relink_of(entry@, new_name@, new));
        match self.insert(fs, &new) {
            Ok(_) => {},
            Err(e) => {
                return Err(e);
            },
        }
        if entry.is_dir {
            return self.repoint_dotdot(fs, entry.data_cluster, now);
        }
        Ok(())
    }

    /// Apply a patch to `entry`.
    pub fn update<D: Device>(
        &mut self,
        fs: &mut FatVfs<D>,
        entry: &RawProperties,
        patch: EntryPatch,
    ) -> (r: Result<(), FsError<D::Error>>)
        requires
            old(fs).wf(),
            entry@.wf(),
            patch.wf(),
        ensures
            *final(self) == *old(self),
            final(fs).wf(),
            final(fs).keeps(*old(fs)),
            fat_ends_as(
                r,
                old(fs).layout.entry_updated(old(fs).disk(), entry@, patch),
                final(fs).disk(),
                old(fs).dev.reliable(),
            ),
    {
        let mut props = entry.min_properties();
        fs.patch_sfn_record(entry.chain, &mut props, entry.is_dir, patch)
    }
}

} // verus!
