//! Path resolution and directory listing over [`DirExtent`].

use vstd::prelude::*;

use super::chains::law_stream_read;
use super::dir_edit::lemma_dir_stream_len;
use super::direntry::{
    decoded_at, decoded_set, lemma_decoded_set_shape, next_entry, set_len, DirExtent, EntryFields,
    ExfatDirEntry, SetLoc,
};
use super::layout::{cluster_count_for, clusters_for, lemma_unit_sizes, ExfatLayout};
use super::readdir::{
    fits_volume, lemma_next_entry_bounds, lemma_next_listed_bounds, listed, listed_from,
    next_listed, placed, DirWalk, ExfatReadDir,
};
use super::volume::ExfatVfs;
use crate::attrs::{has_bits, DIRECTORY};
use crate::bytes::le64;
use crate::codec::FixedCodec;
use crate::codec::exfat::boot::ExfatBootRecord;
use crate::codec::exfat::consts::{ENTRY_TYPE_STREAM_EXTENSION, EXFAT_ENTRY_SIZE};
use crate::codec::exfat::raw_entry::{no_fat_chain_bit, ExfatStreamExtension};
use crate::device::Device;
use crate::error::FsError;
use crate::name::NamePolicy;
use crate::path::{components_of, names_of, split_components};

verus! {

/// What the entries of a list say.
pub open spec fn fields_of(v: Seq<ExfatDirEntry>) -> Seq<EntryFields> {
    Seq::new(v.len(), |i: int| v[i]@)
}

/// `r` is the listing `out`, unless the storage failed.
pub open spec fn lists_as<E>(
    r: Result<Vec<ExfatDirEntry>, FsError<E>>,
    out: Result<Seq<EntryFields>, FsError<()>>,
    reliable: bool,
) -> bool {
    match r {
        Ok(v) => out == Ok::<Seq<EntryFields>, FsError<()>>(fields_of(v@)),
        Err(FsError::Io(_)) => !reliable,
        Err(e) => out == Err::<Seq<EntryFields>, FsError<()>>(e.kind()),
    }
}

/// `r` is the entry `out`, unless the storage failed.
pub open spec fn finds_as<E>(
    r: Result<ExfatDirEntry, FsError<E>>,
    out: Result<EntryFields, FsError<()>>,
    reliable: bool,
) -> bool {
    match r {
        Ok(e) => out == Ok::<EntryFields, FsError<()>>(e@),
        Err(FsError::Io(_)) => !reliable,
        Err(e) => out == Err::<EntryFields, FsError<()>>(e.kind()),
    }
}

/// The first entry of a list that goes by `name`.
pub open spec fn first_named(p: NamePolicy, entries: Seq<EntryFields>, name: Seq<char>) -> Option<
    EntryFields,
>
    decreases entries.len(),
{
    if entries.len() == 0 {
        None
    } else if p.same_name(entries.first().name, name) {
        Some(entries.first())
    } else {
        first_named(p, entries.drop_first(), name)
    }
}

/// The entry is a directory.
pub open spec fn names_dir(e: EntryFields) -> bool {
    has_bits(e.attributes, DIRECTORY)
}

/// An entry as the listing yields it: real stamps, a usable place.
pub open spec fn entry_sound(e: EntryFields) -> bool {
    &&& e.times_wf()
    &&& e.loc matches Some(loc) ==> loc.wf()
}

/// What holds of every listed entry: it is sound, and its clusters fit the
/// volume.
pub open spec fn entry_usable(boot: ExfatBootRecord, e: EntryFields) -> bool {
    entry_sound(e) && fits_volume(boot, e)
}

impl ExfatLayout {
    /// The walk limit of a directory of `data_length` bytes.
    pub open spec fn walk_limit(self, data_length: int) -> int {
        if data_length == 0 {
            1
        } else {
            clusters_for(data_length, self.boot.cluster_bytes())
        }
    }

    /// Length and contiguity as the Stream Extension on disk has them now.
    pub open spec fn stream_now(self, img: Seq<u8>, loc: SetLoc) -> Option<(u64, bool)> {
        match self.set_read(img, loc) {
            Err(_) => None,
            Ok(set) => if set[32] == ENTRY_TYPE_STREAM_EXTENSION {
                Some((le64(set, 56) as u64, no_fat_chain_bit(set[33])))
            } else {
                None
            },
        }
    }

    /// The extent with its walk parameters brought up to date from the
    /// directory's entry in its parent, where that can be read.
    pub open spec fn refreshed(self, img: Seq<u8>, ext: DirExtent) -> DirExtent {
        match ext.parent_entry {
            None => ext,
            Some(loc) => match self.stream_now(img, loc) {
                None => ext,
                Some((data_length, no_fat_chain)) => DirExtent {
                    first_cluster: ext.first_cluster,
                    no_fat_chain,
                    max_clusters: self.walk_limit(data_length as int) as u32,
                    parent_entry: ext.parent_entry,
                },
            },
        }
    }

    /// What an operation on the directory `ext` may go by: the extent brought up
    /// to date, or, where the storage can fail, the extent as it was given.
    pub open spec fn may_use(
        self,
        img: Seq<u8>,
        ext: DirExtent,
        now: DirExtent,
        reliable: bool,
    ) -> bool {
        now == self.refreshed(img, ext) || (!reliable && now == ext)
    }

    /// The entry says of its data what its Stream Extension on disk does.
    pub open spec fn entry_fresh(self, img: Seq<u8>, e: EntryFields) -> bool {
        e.loc matches Some(loc) ==> self.stream_now(img, loc) == Some(
            (e.data_length, e.no_fat_chain),
        )
    }

    /// The extent of the sub-directory `e`, going by what `e` says.
    pub open spec fn extent_held(self, e: EntryFields) -> DirExtent {
        DirExtent {
            first_cluster: e.first_cluster,
            no_fat_chain: e.no_fat_chain,
            max_clusters: self.walk_limit(e.data_length as int) as u32,
            parent_entry: e.loc,
        }
    }

    /// The extent of the sub-directory `e`.
    pub open spec fn extent_of(self, img: Seq<u8>, e: EntryFields) -> DirExtent {
        let (data_length, no_fat_chain) = match e.loc {
            Some(loc) => match self.stream_now(img, loc) {
                Some(p) => p,
                None => (e.data_length, e.no_fat_chain),
            },
            None => (e.data_length, e.no_fat_chain),
        };
        DirExtent {
            first_cluster: e.first_cluster,
            no_fat_chain,
            max_clusters: self.walk_limit(data_length as int) as u32,
            parent_entry: e.loc,
        }
    }

    /// The root directory: FAT-chained, unbounded, no parent entry.
    pub open spec fn root(self) -> DirExtent {
        DirExtent {
            first_cluster: self.boot.root_dir_cluster,
            no_fat_chain: false,
            max_clusters: u32::MAX,
            parent_entry: None,
        }
    }

    /// Listing a directory whose walk parameters are up to date.
    pub open spec fn listing(self, img: Seq<u8>, ext: DirExtent) -> Result<
        Seq<EntryFields>,
        FsError<()>,
    > {
        match self.dir_read(img, ext.first_cluster, ext.no_fat_chain, ext.max_clusters as int) {
            Err(e) => Err(e),
            Ok((_, buf)) => Ok(
                listed(
                    self.boot,
                    (DirWalk {
                        first_cluster: ext.first_cluster,
                        no_fat_chain: ext.no_fat_chain,
                        max_clusters: ext.max_clusters,
                    }),
                    buf,
                ),
            ),
        }
    }

    /// The child `name` of a directory.
    pub open spec fn child(
        self,
        p: NamePolicy,
        img: Seq<u8>,
        ext: DirExtent,
        name: Seq<char>,
    ) -> Result<EntryFields, FsError<()>> {
        self.child_in(p, img, self.refreshed(img, ext), name)
    }

    /// The child `name` of a directory whose walk parameters are given.
    pub open spec fn child_in(
        self,
        p: NamePolicy,
        img: Seq<u8>,
        ext: DirExtent,
        name: Seq<char>,
    ) -> Result<EntryFields, FsError<()>> {
        match self.listing(img, ext) {
            Err(e) => Err(e),
            Ok(entries) => match first_named(p, entries, name) {
                Some(e) => Ok(e),
                None => Err(FsError::NotFound),
            },
        }
    }

    /// The directory reached from `ext` by the given components.
    pub open spec fn descend(
        self,
        p: NamePolicy,
        img: Seq<u8>,
        ext: DirExtent,
        components: Seq<Seq<char>>,
    ) -> Result<DirExtent, FsError<()>>
        decreases components.len(),
    {
        if components.len() == 0 {
            Ok(ext)
        } else {
            match self.child(p, img, ext, components.first()) {
                Err(e) => Err(e),
                Ok(e) => if !names_dir(e) {
                    Err(FsError::NotADirectory)
                } else {
                    self.descend(p, img, self.extent_of(img, e), components.drop_first())
                },
            }
        }
    }

    /// The directory that holds the last component of a path, and that
    /// component.
    pub open spec fn parent_of(self, p: NamePolicy, img: Seq<u8>, path: Seq<char>) -> Result<
        (DirExtent, Seq<char>),
        FsError<()>,
    > {
        let components = components_of(path);
        if components.len() == 0 {
            Err(FsError::InvalidInput)
        } else {
            match self.descend(p, img, self.root(), components.drop_last()) {
                Err(e) => Err(e),
                Ok(ext) => Ok((ext, components.last())),
            }
        }
    }

    /// The entry that a path names, with the directory that holds it.
    pub open spec fn entry_at(self, p: NamePolicy, img: Seq<u8>, path: Seq<char>) -> Result<
        (DirExtent, EntryFields),
        FsError<()>,
    > {
        match self.parent_of(p, img, path) {
            Err(e) => Err(e),
            Ok((ext, name)) => match self.child(p, img, ext, name) {
                Err(e) => Err(e),
                Ok(e) => Ok((ext, e)),
            },
        }
    }
}

/// The entry that decoding finds next stands as decoded where it is placed.
proof fn lemma_next_listed_placed(boot: ExfatBootRecord, w: DirWalk, buf: Seq<u8>, pos: int)
    requires
        0 <= pos,
    ensures
        next_listed(boot, w, buf, pos) matches Some((x, p)) ==> {
            let at = p - x.entry_set_len;
            &&& 0 <= at
            &&& p <= buf.len()
            &&& decoded_at(buf, at) matches Some(e) && x == placed(e, w, at)
        },
    decreases buf.len() - pos,
{
    lemma_next_entry_bounds(buf, pos);
    match next_entry(buf, pos) {
        Some((e, p)) => {
            if !fits_volume(boot, e) {
                lemma_next_listed_placed(boot, w, buf, p);
            }
        },
        None => {},
    }
}

/// Every entry of a listing is fresh.
proof fn lemma_listed_fresh(
    l: ExfatLayout,
    img: Seq<u8>,
    w: DirWalk,
    cs: Seq<u32>,
    buf: Seq<u8>,
    pos: int,
)
    requires
        l.wf(),
        l.dir_read(img, w.first_cluster, w.no_fat_chain, w.max_clusters as int) == Ok::<
            (Seq<u32>, Seq<u8>),
            FsError<()>,
        >((cs, buf)),
        buf.len() <= u64::MAX,
        0 <= pos,
    ensures
        forall|i: int|
            0 <= i < listed_from(l.boot, w, buf, pos).len() ==> l.entry_fresh(
                img,
                #[trigger] listed_from(l.boot, w, buf, pos)[i],
            ),
    decreases buf.len() - pos,
{
    lemma_next_listed_placed(l.boot, w, buf, pos);
    lemma_next_listed_bounds(l.boot, w, buf, pos);
    if let Some((x, p)) = next_listed(l.boot, w, buf, pos) {
        let at = p - x.entry_set_len;
        let n = set_len(buf.subrange(at, at + 32));
        let set = buf.subrange(at, at + n);
        lemma_decoded_set_shape(set);
        lemma_unit_sizes(l.boot);
        law_stream_read(l, img, cs, at, n);
        assert(l.set_read(img, x.loc->0) == Ok::<Seq<u8>, FsError<()>>(set));
        assert(l.entry_fresh(img, x)) by {
            reveal(decoded_set);
        }
        lemma_listed_fresh(l, img, w, cs, buf, p);
        let rest = listed_from(l.boot, w, buf, p);
        assert forall|i: int| 0 <= i < listed_from(l.boot, w, buf, pos).len() implies l.entry_fresh(
            img,
            #[trigger] listed_from(l.boot, w, buf, pos)[i],
        ) by {
            if i > 0 {
                assert(listed_from(l.boot, w, buf, pos)[i] == rest[i - 1]);
            }
        }
    }
}

/// Every entry of a directory's listing is fresh.
pub proof fn lemma_listing_fresh(l: ExfatLayout, img: Seq<u8>, ext: DirExtent)
    requires
        l.wf(),
    ensures
        l.listing(img, ext) matches Ok(entries) ==> forall|i: int|
            0 <= i < entries.len() ==> l.entry_fresh(img, #[trigger] entries[i]),
{
    let w = DirWalk {
        first_cluster: ext.first_cluster,
        no_fat_chain: ext.no_fat_chain,
        max_clusters: ext.max_clusters,
    };
    if let Ok((cs, buf)) = l.dir_read(img, w.first_cluster, w.no_fat_chain, w.max_clusters as int) {
        lemma_dir_stream_len(l, img, ext.first_cluster, ext.no_fat_chain, ext.max_clusters);
        lemma_listed_fresh(l, img, w, cs, buf, 0);
    }
}

impl<D: Device> ExfatVfs<D> {
    /// Root-directory layout: FAT-chained, unbounded, no parent entry.
    pub fn root_extent(&self) -> (r: DirExtent)
        ensures
            r == self.layout.root(),
            r.wf(),
    {
        DirExtent {
            first_cluster: self.layout.boot.root_dir_cluster,
            no_fat_chain: false,
            max_clusters: u32::MAX,
            parent_entry: None,
        }
    }

    /// Re-read the Stream Extension fields of the set at `loc`; in-memory
    /// copies go stale when directory growth updates the entry. `None` where
    /// it cannot be read.
    fn refresh_stream_extension(&self, loc: &SetLoc) -> (r: Option<(u64, bool)>)
        requires
            self.wf(),
            loc.wf(),
        ensures
            r == self.layout.stream_now(self.dev.contents(), *loc) || (!self.dev.reliable()
                && r is None),
    {
        let set: Vec<u8> = match self.read_set(loc) {
            Ok(set) => set,
            Err(_) => {
                return None;
            },
        };
        let slot: &[u8] = &set.as_slice()[EXFAT_ENTRY_SIZE..2 * EXFAT_ENTRY_SIZE];
        assert(slot@[0] == set@[32] && slot@[1] == set@[33]);
        assert(le64(slot@, 24) == le64(set@, 56));
        match ExfatStreamExtension::parse(slot) {
            Some(stream) => Some((stream.data_length, stream.no_fat_chain())),
            None => None,
        }
    }

    fn walk_limit_for(&self, data_length: u64) -> (r: u32)
        requires
            self.wf(),
        ensures
            r == self.layout.walk_limit(data_length as int),
    {
        proof {
            lemma_unit_sizes(self.layout.boot);
        }
        if data_length == 0 {
            1
        } else {
            cluster_count_for(data_length, self.layout.boot.bytes_per_cluster())
        }
    }

    /// Re-derive a directory's walk parameters from its on-disk entry in
    /// the parent. A held `DirExtent` goes stale when the directory grows
    /// (growth bumps `DataLength` and clears `NoFatChain` on disk); the
    /// root has no parent entry and is FAT-chained/unbounded, so growth
    /// is followed naturally. A failed read keeps the extent as it is.
    pub fn refreshed_extent(&self, ext: &DirExtent) -> (r: DirExtent)
        requires
            self.wf(),
            ext.wf(),
        ensures
            r.wf(),
            r.parent_entry == ext.parent_entry,
            r.first_cluster == ext.first_cluster,
            self.layout.may_use(self.dev.contents(), *ext, r, self.dev.reliable()),
    {
        let loc = match ext.parent_entry {
            Some(loc) => loc,
            None => {
                return *ext;
            },
        };
        match self.refresh_stream_extension(&loc) {
            None => *ext,
            Some((data_length, no_fat_chain)) => DirExtent {
                first_cluster: ext.first_cluster,
                no_fat_chain,
                max_clusters: self.walk_limit_for(data_length),
                parent_entry: ext.parent_entry,
            },
        }
    }

    /// Cluster-layout descriptor for a sub-directory. `data_length` and
    /// `no_fat_chain` are re-read from disk when possible so long-lived
    /// entries stay correct after directory growth.
    pub fn dir_extent(&self, entry: &ExfatDirEntry) -> (r: DirExtent)
        requires
            self.wf(),
            entry_sound(entry@),
        ensures
            r.wf(),
            r == self.layout.extent_of(self.dev.contents(), entry@) || (!self.dev.reliable() && r
                == self.layout.extent_held(entry@)),
    {
        let now = match entry.loc {
            Some(loc) => self.refresh_stream_extension(&loc),
            None => None,
        };
        let (data_length, no_fat_chain) = match now {
            Some(p) => p,
            None => (entry.data_length, entry.no_fat_chain),
        };
        DirExtent {
            first_cluster: entry.first_cluster,
            no_fat_chain,
            max_clusters: self.walk_limit_for(data_length),
            parent_entry: entry.loc,
        }
    }

    /// Drain a directory's entries into an owned `Vec`.
    pub fn list_entries_in(&self, ext: &DirExtent) -> (r: Result<
        Vec<ExfatDirEntry>,
        FsError<D::Error>,
    >)
        requires
            self.wf(),
            ext.wf(),
        ensures
            r matches Ok(v) ==> forall|i: int|
                0 <= i < v@.len() ==> entry_usable(self.layout.boot, (#[trigger] v@[i])@),
            r matches Ok(v) ==> forall|i: int|
                0 <= i < v@.len() ==> self.layout.entry_fresh(
                    self.dev.contents(),
                    (#[trigger] v@[i])@,
                ),
            exists|now: DirExtent| #[trigger]
                self.layout.may_use(self.dev.contents(), *ext, now, self.dev.reliable())
                    && lists_as(
                    r,
                    self.layout.listing(self.dev.contents(), now),
                    self.dev.reliable(),
                ),
    {
        let now = self.refreshed_extent(ext);
        assert(self.layout.may_use(self.dev.contents(), *ext, now, self.dev.reliable()));
        let walk = DirWalk {
            first_cluster: now.first_cluster,
            no_fat_chain: now.no_fat_chain,
            max_clusters: now.max_clusters,
        };
        let mut iter = match ExfatReadDir::new(self, walk) {
            Ok(iter) => iter,
            Err(e) => {
                return Err(e);
            },
        };
        let mut out: Vec<ExfatDirEntry> = Vec::new();
        let ghost buf = iter.decoder.buf@;
        let ghost whole = listed(self.layout.boot, walk, buf);
        assert(fields_of(out@) + whole =~= whole);
        loop
            invariant
                iter.wf(),
                iter.boot == self.layout.boot,
                iter.walk == walk,
                iter.decoder.buf@ == buf,
                whole == listed(self.layout.boot, walk, buf),
                fields_of(out@) + iter.rest() == whole,
                forall|i: int|
                    0 <= i < out@.len() ==> entry_usable(self.layout.boot, (#[trigger] out@[i])@),
            ensures
                fields_of(out@) == whole,
            decreases buf.len() - iter.decoder.pos,
        {
            proof {
                lemma_next_listed_bounds(iter.boot, walk, buf, iter.decoder.pos as int);
            }
            let ghost done = fields_of(out@);
            let ghost before = iter.rest();
            match iter.next() {
                None => {
                    assert(done + Seq::<EntryFields>::empty() =~= done);
                    break ;
                },
                Some(entry) => {
                    let ghost e = entry@;
                    out.push(entry);
                    proof {
                        assert(fields_of(out@) =~= done.push(e));
                        assert(fields_of(out@) + iter.rest() =~= done + (seq![e] + iter.rest()));
                    }
                },
            }
        }
        proof {
            lemma_listing_fresh(self.layout, self.dev.contents(), now);
            let entries = self.layout.listing(self.dev.contents(), now)->Ok_0;
            assert(entries == fields_of(out@));
            assert forall|i: int| 0 <= i < out@.len() implies self.layout.entry_fresh(
                self.dev.contents(),
                (#[trigger] out@[i])@,
            ) by {
                assert(entries[i] == out@[i]@);
            }
        }
        Ok(out)
    }

    /// The first of `entries` that goes by `name`.
    pub fn find_named(&self, entries: &Vec<ExfatDirEntry>, name: &str) -> (r: Option<usize>)
        requires
            self.wf(),
        ensures
            match r {
                Some(i) => {
                    &&& i < entries@.len()
                    &&& first_named(self.name_policy, fields_of(entries@), name@) == Some(
                        entries@[i as int]@,
                    )
                },
                None => first_named(self.name_policy, fields_of(entries@), name@) is None,
            },
    {
        let ghost all = fields_of(entries@);
        let mut i: usize = 0;
        assert(all.subrange(0, all.len() as int) =~= all);
        while i < entries.len()
            invariant
                self.wf(),
                i <= entries@.len(),
                all == fields_of(entries@),
                first_named(self.name_policy, all, name@) == first_named(
                    self.name_policy,
                    all.subrange(i as int, all.len() as int),
                    name@,
                ),
            decreases entries@.len() - i,
        {
            let ghost rest = all.subrange(i as int, all.len() as int);
            proof {
                assert(rest.first() == entries@[i as int]@);
                assert(rest.drop_first() =~= all.subrange(i + 1, all.len() as int));
            }
            if self.names_equal(entries[i].name.as_str(), name) {
                return Some(i);
            }
            i += 1;
        }
        None
    }

    /// Find the child named `name` in directory `ext`, or [`FsError::NotFound`].
    pub fn child_entry(&self, ext: &DirExtent, name: &str) -> (r: Result<
        ExfatDirEntry,
        FsError<D::Error>,
    >)
        requires
            self.wf(),
            ext.wf(),
        ensures
            r matches Ok(e) ==> entry_usable(self.layout.boot, e@) && self.layout.entry_fresh(
                self.dev.contents(),
                e@,
            ),
            exists|now: DirExtent| #[trigger]
                self.layout.may_use(self.dev.contents(), *ext, now, self.dev.reliable())
                    && finds_as(
                    r,
                    self.layout.child_in(self.name_policy, self.dev.contents(), now, name@),
                    self.dev.reliable(),
                ),
    {
        let entries = match self.list_entries_in(ext) {
            Ok(entries) => entries,
            Err(e) => {
                return Err(e);
            },
        };
        match self.find_named(&entries, name) {
            Some(i) => {
                assert(entry_usable(self.layout.boot, entries@[i as int]@));
                assert(self.layout.entry_fresh(self.dev.contents(), entries@[i as int]@));
                Ok(entries[i].copied())
            },
            None => Err(FsError::NotFound),
        }
    }

    /// Walk from `start` through the first `n` of `components`.
    fn descend_from(&self, start: DirExtent, components: &Vec<String>, n: usize) -> (r: Result<
        DirExtent,
        FsError<D::Error>,
    >)
        requires
            self.wf(),
            start.wf(),
            self.layout.refreshed(self.dev.contents(), start) == start,
            n <= components@.len(),
        ensures
            r matches Ok(ext) ==> ext.wf() && self.layout.refreshed(self.dev.contents(), ext) == ext,
            match r {
                Err(FsError::Io(_)) => !self.dev.reliable(),
                Ok(ext) => self.layout.descend(
                    self.name_policy,
                    self.dev.contents(),
                    start,
                    names_of(components@).subrange(0, n as int),
                ) == Ok::<DirExtent, FsError<()>>(ext),
                Err(e) => self.layout.descend(
                    self.name_policy,
                    self.dev.contents(),
                    start,
                    names_of(components@).subrange(0, n as int),
                ) == Err::<DirExtent, FsError<()>>(e.kind()),
            },
    {
        let ghost img = self.dev.contents();
        let ghost l = self.layout;
        let ghost p = self.name_policy;
        let ghost names = names_of(components@).subrange(0, n as int);
        let mut extent = start;
        let mut i: usize = 0;
        assert(names.subrange(0, n as int) =~= names);
        while i < n
            invariant
                self.wf(),
                img == self.dev.contents(),
                l == self.layout,
                p == self.name_policy,
                names == names_of(components@).subrange(0, n as int),
                i <= n <= components@.len(),
                extent.wf(),
                l.refreshed(img, extent) == extent,
                l.descend(p, img, start, names) == l.descend(
                    p,
                    img,
                    extent,
                    names.subrange(i as int, n as int),
                ),
            decreases n - i,
        {
            let ghost rest = names.subrange(i as int, n as int);
            proof {
                assert(rest.first() == components@[i as int]@);
                assert(rest.drop_first() =~= names.subrange(i + 1, n as int));
            }
            let entry = match self.child_entry(&extent, components[i].as_str()) {
                Ok(entry) => entry,
                Err(e) => {
                    return Err(e);
                },
            };
            if !entry.is_dir() {
                return Err(FsError::NotADirectory);
            }
            extent = self.dir_extent(&entry);
            i += 1;
        }
        Ok(extent)
    }

    /// Resolve a path to the directory it names ("" / `/` / `\` = root).
    /// Missing components yield [`FsError::NotFound`]; non-directory
    /// components yield [`FsError::NotADirectory`].
    pub fn resolve_dir(&self, path: &str) -> (r: Result<DirExtent, FsError<D::Error>>)
        requires
            self.wf(),
        ensures
            r matches Ok(ext) ==> ext.wf() && self.layout.refreshed(self.dev.contents(), ext) == ext,
            match r {
                Err(FsError::Io(_)) => !self.dev.reliable(),
                Ok(ext) => self.layout.descend(
                    self.name_policy,
                    self.dev.contents(),
                    self.layout.root(),
                    components_of(path@),
                ) == Ok::<DirExtent, FsError<()>>(ext),
                Err(e) => self.layout.descend(
                    self.name_policy,
                    self.dev.contents(),
                    self.layout.root(),
                    components_of(path@),
                ) == Err::<DirExtent, FsError<()>>(e.kind()),
            },
    {
        let components: Vec<String> = split_components(path);
        let n: usize = components.len();
        assert(names_of(components@).subrange(0, n as int) =~= components_of(path@));
        self.descend_from(self.root_extent(), &components, n)
    }

    /// Resolve a path into its parent directory and final component.
    /// An empty or root-only path yields [`FsError::InvalidInput`].
    pub fn resolve_parent(&self, path: &str) -> (r: Result<(DirExtent, String), FsError<D::Error>>)
        requires
            self.wf(),
        ensures
            r matches Ok(p) ==> p.0.wf() && self.layout.refreshed(self.dev.contents(), p.0) == p.0,
            match r {
                Err(FsError::Io(_)) => !self.dev.reliable(),
                Ok((ext, name)) => self.layout.parent_of(
                    self.name_policy,
                    self.dev.contents(),
                    path@,
                ) == Ok::<(DirExtent, Seq<char>), FsError<()>>((ext, name@)),
                Err(e) => self.layout.parent_of(self.name_policy, self.dev.contents(), path@)
                    == Err::<(DirExtent, Seq<char>), FsError<()>>(e.kind()),
            },
    {
        let components: Vec<String> = split_components(path);
        let n: usize = components.len();
        if n == 0 {
            return Err(FsError::InvalidInput);
        }
        proof {
            assert(names_of(components@).subrange(0, n - 1) =~= components_of(path@).drop_last());
            assert(components_of(path@).last() == components@[n - 1]@);
        }
        match self.descend_from(self.root_extent(), &components, n - 1) {
            Ok(extent) => Ok((extent, components[n - 1].clone())),
            Err(e) => Err(e),
        }
    }

    /// Resolve a path to the entry it names, or [`FsError::NotFound`].
    pub fn resolve_entry(&self, path: &str) -> (r: Result<
        (DirExtent, ExfatDirEntry),
        FsError<D::Error>,
    >)
        requires
            self.wf(),
        ensures
            r matches Ok(p) ==> p.0.wf() && entry_usable(self.layout.boot, p.1@)
                && self.layout.refreshed(self.dev.contents(), p.0) == p.0,
            match r {
                Err(FsError::Io(_)) => !self.dev.reliable(),
                Ok((ext, e)) => self.layout.entry_at(
                    self.name_policy,
                    self.dev.contents(),
                    path@,
                ) == Ok::<(DirExtent, EntryFields), FsError<()>>((ext, e@)),
                Err(e) => self.layout.entry_at(self.name_policy, self.dev.contents(), path@) == Err::<
                    (DirExtent, EntryFields),
                    FsError<()>,
                >(e.kind()),
            },
    {
        let (parent, name) = match self.resolve_parent(path) {
            Ok(p) => p,
            Err(e) => {
                return Err(e);
            },
        };
        match self.child_entry(&parent, name.as_str()) {
            Ok(entry) => Ok((parent, entry)),
            Err(e) => Err(e),
        }
    }
}

} // verus!
