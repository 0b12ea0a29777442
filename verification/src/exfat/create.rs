//! Create file/directory entry sets under a parent [`DirExtent`].

use vstd::prelude::*;

use super::compose::{
    compose_file_entry_set_full, composed, law_composed_unique, set_bytes, SetFields,
};
use super::direntry::{DirExtent, ExfatAttributes, ExfatDirEntry};
use super::layout::{done, ends_as, failed, lemma_unit_sizes, Disk, ExfatLayout, Run};
use super::resolve::{first_named, lists_as};
use super::volume::ExfatVfs;
use crate::attrs::{has_bits, packed_attributes, with_bits, AttrBits, ARCHIVE, DIRECTORY};
use crate::calendar::PrimitiveDateTime;
use crate::codec::exfat::name_hash_of;
use crate::codec::exfat::consts::FAT_EOC;
use crate::device::Device;
use crate::entry_times::EntryTimes;
use crate::error::FsError;
use crate::name::NamePolicy;
use crate::num::{ceil_div, div_ceil_u64};
use crate::text::{encode_utf16, utf16_of};
use crate::vfs::NewEntry;

verus! {

/// The stamps of a new entry: the caller's, or the clock reading where the
/// caller gave none at all.
pub open spec fn effective_times(t: EntryTimes, now: PrimitiveDateTime) -> EntryTimes {
    if t.created is None && t.modified is None && t.accessed is None {
        EntryTimes { created: Some(now), modified: Some(now), accessed: Some(now.date) }
    } else {
        t
    }
}

/// The attribute mask of a new entry. New files get the archive bit.
pub open spec fn new_attributes(entry: NewEntry) -> u16 {
    let m = packed_attributes(entry.attrs, entry.is_dir);
    if entry.is_dir {
        with_bits(m, DIRECTORY, true)
    } else if !has_bits(m, ARCHIVE) {
        with_bits(m, ARCHIVE, true)
    } else {
        m
    }
}

/// The fields of a new entry's set once its allocation is known.
pub open spec fn new_set(
    p: NamePolicy,
    entry: NewEntry,
    now: PrimitiveDateTime,
    first_cluster: u32,
    valid_data_length: u64,
    data_length: u64,
    no_fat_chain: bool,
) -> SetFields {
    SetFields {
        units: utf16_of(entry.name@),
        name_hash: name_hash_of(p.folded(entry.name@)) as u16,
        attributes: new_attributes(entry),
        first_cluster,
        valid_data_length,
        data_length,
        no_fat_chain,
        times: effective_times(entry.times, now),
    }
}

/// `o`, or `default` where there is none.
pub open spec fn or_else<T>(o: Option<T>, default: T) -> T {
    match o {
        Some(v) => v,
        None => default,
    }
}

/// Bytes of data on disk for a new directory that has its clusters already.
pub open spec fn dir_length(entry: NewEntry, cluster_bytes: int) -> u64 {
    match entry.allocated_size {
        Some(n) => n,
        None => if entry.size < cluster_bytes {
            cluster_bytes as u64
        } else {
            entry.size
        },
    }
}

/// The entry is a directory for which a cluster has to be made.
pub open spec fn makes_dir_cluster(entry: NewEntry) -> bool {
    entry.is_dir && entry.first_cluster < 2
}

impl ExfatLayout {
    /// Taking `n` free clusters one by one.
    pub open spec fn scattered(self, d: Disk, n: int) -> Run<Seq<u32>>
        decreases n,
    {
        if n <= 0 {
            done(seq![], d)
        } else {
            match self.free_search(d.img) {
                Err(e) => failed(e, d),
                Ok(None) => failed(FsError::StorageFull, d),
                Ok(Some(c)) => {
                    let m = self.marked(d, c as int, true);
                    match m.out {
                        Err(e) => failed(e, m.disk),
                        Ok(_) => {
                            let rest = self.scattered(m.disk, n - 1);
                            match rest.out {
                                Err(e) => rest,
                                Ok(more) => done(seq![c] + more, rest.disk),
                            }
                        },
                    }
                },
            }
        }
    }

    /// Allocating `count` clusters: contiguously where a run is free, else
    /// scattered and chained through the FAT.
    pub open spec fn extent_allocated(self, d: Disk, count: int) -> Run<(u32, bool)> {
        if count == 0 {
            done((0u32, false), d)
        } else {
            match self.run_search(d.img, count) {
                Err(e) => failed(e, d),
                Ok(Some(s)) => {
                    let m = self.range_marked(d, s as int, s + count, true);
                    match m.out {
                        Err(e) => failed(e, m.disk),
                        Ok(_) => done((s, true), m.disk),
                    }
                },
                Ok(None) => {
                    let t = self.scattered(d, count);
                    match t.out {
                        Err(e) => failed(e, t.disk),
                        Ok(chain) => {
                            let w = self.chain_linked(t.disk, chain, 0);
                            match w.out {
                                Err(e) => failed(e, w.disk),
                                Ok(_) => {
                                    let z = self.fat_written(w.disk, chain.last() as int, FAT_EOC);
                                    match z.out {
                                        Err(e) => failed(e, z.disk),
                                        Ok(_) => done((chain[0], false), z.disk),
                                    }
                                },
                            }
                        },
                    }
                },
            }
        }
    }

    /// Preparing the one zeroed cluster of a new directory.
    pub open spec fn dir_cluster_made(self, d: Disk) -> Run<u32> {
        match self.free_search(d.img) {
            Err(e) => failed(e, d),
            Ok(None) => failed(FsError::StorageFull, d),
            Ok(Some(c)) => {
                let z = self.cluster_filled(
                    d,
                    c as int,
                    Seq::new(self.boot.cluster_bytes() as nat, |i: int| 0u8),
                );
                match z.out {
                    Err(e) => failed(e, z.disk),
                    Ok(_) => {
                        let m = self.marked(z.disk, c as int, true);
                        match m.out {
                            Err(e) => failed(e, m.disk),
                            Ok(_) => done(c, m.disk),
                        }
                    },
                }
            },
        }
    }

    /// The allocation of a new entry: first cluster, valid length, length,
    /// contiguity.
    pub open spec fn new_allocation(self, d: Disk, entry: NewEntry) -> Run<(u32, u64, u64, bool)> {
        let cb = self.boot.cluster_bytes();
        if entry.is_dir {
            if entry.first_cluster >= 2 {
                let n = dir_length(entry, cb);
                done((entry.first_cluster, n, n, or_else(entry.no_fat_chain, true)), d)
            } else {
                let c = self.dir_cluster_made(d);
                match c.out {
                    Err(e) => failed(e, c.disk),
                    Ok(c0) => done(
                        (c0, cb as u64, cb as u64, or_else(entry.no_fat_chain, true)),
                        c.disk,
                    ),
                }
            }
        } else if entry.first_cluster >= 2 {
            done(
                (
                    entry.first_cluster,
                    entry.size,
                    or_else(entry.allocated_size, entry.size),
                    or_else(entry.no_fat_chain, false),
                ),
                d,
            )
        } else if entry.size == 0 {
            done((0u32, 0u64, 0u64, or_else(entry.no_fat_chain, false)), d)
        } else if ceil_div(entry.size as int, cb) > u32::MAX {
            failed(FsError::StorageFull, d)
        } else {
            // The range reads as zeros: nothing of it is valid yet.
            let x = self.extent_allocated(d, ceil_div(entry.size as int, cb));
            match x.out {
                Err(e) => failed(e, x.disk),
                Ok((first, contiguous)) => done((first, 0u64, entry.size, contiguous), x.disk),
            }
        }
    }

    /// Inserting a new entry under `parent`.
    pub open spec fn inserted(
        self,
        p: NamePolicy,
        d: Disk,
        parent: DirExtent,
        entry: NewEntry,
        now: PrimitiveDateTime,
    ) -> Run<()> {
        self.inserted_via(
            p,
            d,
            self.refreshed(d.img, parent),
            self.refreshed(self.new_allocation(d, entry).disk.img, parent),
            entry,
            now,
        )
    }

    /// Inserting a new entry into a directory that is listed as `looked` and
    /// appended to as `used`.
    pub open spec fn inserted_via(
        self,
        p: NamePolicy,
        d: Disk,
        looked: DirExtent,
        used: DirExtent,
        entry: NewEntry,
        now: PrimitiveDateTime,
    ) -> Run<()> {
        let units = utf16_of(entry.name@);
        if units.len() == 0 || units.len() > 255 {
            failed(FsError::InvalidInput, d)
        } else {
            match self.listing(d.img, looked) {
                Err(e) => failed(e, d),
                Ok(entries) => if first_named(p, entries, entry.name@) is Some {
                    failed(FsError::AlreadyExists, d)
                } else {
                    let a = self.new_allocation(d, entry);
                    match a.out {
                        Err(e) => failed(e, a.disk),
                        Ok((first, valid, length, contiguous)) => self.set_appended(
                            a.disk,
                            used,
                            set_bytes(new_set(p, entry, now, first, valid, length, contiguous)),
                        ),
                    }
                },
            }
        }
    }

    /// `run` is an insertion under `parent`: each time the directory is gone to,
    /// its extent is brought up to date, where the storage lets that be read.
    pub open spec fn inserts(
        self,
        p: NamePolicy,
        d: Disk,
        parent: DirExtent,
        entry: NewEntry,
        now: PrimitiveDateTime,
        run: Run<()>,
        reliable: bool,
    ) -> bool {
        exists|looked: DirExtent, used: DirExtent|
            #![trigger self.inserted_via(p, d, looked, used, entry, now)]
            {
                &&& self.may_use(d.img, parent, looked, reliable)
                &&& self.may_use(self.new_allocation(d, entry).disk.img, parent, used, reliable)
                &&& run == self.inserted_via(p, d, looked, used, entry, now)
            }
    }
}

/// The scattered allocation hands out exactly as many clusters as asked for.
proof fn lemma_scattered_len(l: ExfatLayout, d: Disk, n: int)
    requires
        n >= 0,
    ensures
        l.scattered(d, n).out matches Ok(v) ==> v.len() == n,
    decreases n,
{
    if n > 0 {
        match l.free_search(d.img) {
            Ok(Some(c)) => {
                let m = l.marked(d, c as int, true);
                lemma_scattered_len(l, m.disk, n - 1);
            },
            _ => {},
        }
    }
}

/// A free run that a search found ends within 32 bits.
proof fn lemma_run_search_bound(l: ExfatLayout, img: Seq<u8>, count: int)
    requires
        l.wf(),
        count >= 1,
    ensures
        l.run_search(img, count) matches Ok(Some(s)) ==> s + count <= u32::MAX + 1 && s >= 2,
{
    super::bitmap::lemma_run_from_found(l, img, 2, count);
}

impl<D: Device> ExfatVfs<D> {
    /// Take `count` free clusters, wherever they are.
    fn take_scattered(&mut self, count: u32) -> (r: Result<Vec<u32>, FsError<D::Error>>)
        requires
            old(self).wf(),
        ensures
            final(self).wf(),
            final(self).keeps(*old(self)),
            match r {
                Ok(v) => {
                    let run = old(self).layout.scattered(old(self).disk(), count as int);
                    &&& run.out == Ok::<Seq<u32>, FsError<()>>(v@)
                    &&& final(self).disk() == run.disk
                },
                Err(FsError::Io(_)) => !old(self).dev.reliable(),
                Err(e) => {
                    let run = old(self).layout.scattered(old(self).disk(), count as int);
                    &&& run.out == Err::<Seq<u32>, FsError<()>>(e.kind())
                    &&& final(self).disk() == run.disk
                },
            },
    {
        let ghost l = self.layout;
        let ghost whole = l.scattered(self.disk(), count as int);
        let mut chain: Vec<u32> = Vec::new();
        let mut k: u32 = 0;
        proof {
            match whole.out {
                Ok(more) => {
                    assert(chain@ + more =~= more);
                },
                Err(_) => {},
            }
        }
        while k < count
            invariant
                self.wf(),
                self.keeps(*old(self)),
                l == old(self).layout,
                whole == l.scattered(old(self).disk(), count as int),
                k <= count,
                whole == (match l.scattered(self.disk(), count - k).out {
                    Ok(more) => done(chain@ + more, l.scattered(self.disk(), count - k).disk),
                    Err(e) => l.scattered(self.disk(), count - k),
                }),
            decreases count - k,
        {
            let c: u32 = match self.find_free_cluster() {
                Ok(Some(c)) => c,
                Ok(None) => {
                    return Err(FsError::StorageFull);
                },
                Err(e) => {
                    return Err(e);
                },
            };
            match self.mark_cluster_allocated(c) {
                Ok(_) => {},
                Err(e) => {
                    return Err(e);
                },
            }
            let ghost before = chain@;
            chain.push(c);
            proof {
                match l.scattered(self.disk(), count - k - 1).out {
                    Ok(more) => {
                        assert(chain@ + more =~= before + (seq![c] + more));
                    },
                    Err(_) => {},
                }
            }
            k += 1;
        }
        proof {
            assert(chain@ + Seq::<u32>::empty() =~= chain@);
        }
        Ok(chain)
    }

    /// Allocate `count` clusters: a contiguous run when available
    /// (`NoFatChain`), else scattered clusters FAT-chained together.
    /// Returns `(first_cluster, no_fat_chain)`.
    pub fn allocate_extent(&mut self, count: u32) -> (r: Result<(u32, bool), FsError<D::Error>>)
        requires
            old(self).wf(),
        ensures
            final(self).wf(),
            final(self).keeps(*old(self)),
            ends_as(
                r,
                old(self).layout.extent_allocated(old(self).disk(), count as int),
                final(self).disk(),
                old(self).dev.reliable(),
            ),
    {
        if count == 0 {
            return Ok((0, false));
        }
        proof {
            lemma_run_search_bound(self.layout, self.dev.contents(), count as int);
            lemma_scattered_len(self.layout, self.disk(), count as int);
        }
        match self.find_free_contiguous_run(count) {
            Err(e) => {
                return Err(e);
            },
            Ok(Some(start)) => {
                return match self.mark_cluster_range_allocated(start, count) {
                    Ok(_) => Ok((start, true)),
                    Err(e) => Err(e),
                };
            },
            Ok(None) => {},
        }
        let chain: Vec<u32> = match self.take_scattered(count) {
            Ok(chain) => chain,
            Err(e) => {
                return Err(e);
            },
        };
        match self.link_chain(&chain) {
            Ok(_) => {},
            Err(e) => {
                return Err(e);
            },
        }
        match self.write_fat_entry(chain[chain.len() - 1], FAT_EOC) {
            Ok(_) => Ok((chain[0], false)),
            Err(e) => Err(e),
        }
    }

    /// Prepare the one zeroed cluster of a new directory.
    fn make_dir_cluster(&mut self) -> (r: Result<u32, FsError<D::Error>>)
        requires
            old(self).wf(),
        ensures
            final(self).wf(),
            final(self).keeps(*old(self)),
            ends_as(
                r,
                old(self).layout.dir_cluster_made(old(self).disk()),
                final(self).disk(),
                old(self).dev.reliable(),
            ),
            // Allocate-before-link: cluster and bitmap are durable before an
            // entry set that refers to them becomes visible.
            r is Ok ==> final(self).dev.durable() == final(self).dev.contents(),
    {
        proof {
            lemma_unit_sizes(self.layout.boot);
        }
        let cluster: u32 = match self.find_free_cluster() {
            Ok(Some(c)) => c,
            Ok(None) => {
                return Err(FsError::StorageFull);
            },
            Err(e) => {
                return Err(e);
            },
        };
        let n: usize = self.layout.boot.bytes_per_cluster() as usize;
        let zeros: Vec<u8> = vec![0u8; n];
        assert(zeros@ =~= Seq::new(self.layout.boot.cluster_bytes() as nat, |i: int| 0u8));
        match self.write_cluster(cluster, zeros.as_slice()) {
            Ok(_) => {},
            Err(e) => {
                return Err(e);
            },
        }
        match self.mark_cluster_allocated(cluster) {
            Ok(_) => {},
            Err(e) => {
                return Err(e);
            },
        }
        match self.sync() {
            Ok(_) => Ok(cluster),
            Err(e) => Err(e),
        }
    }

    /// The allocation of a new entry:
    ///
    /// - **Dir, no cluster** → one zeroed cluster.
    /// - **Dir/file with `first_cluster >= 2`** → the caller already owns the
    ///   allocation.
    /// - **File, zero cluster, empty size** → no clusters.
    /// - **File, zero cluster, non-zero size** → preallocated clusters with
    ///   `ValidDataLength = 0` (the range reads as zeros).
    fn allocate_for(&mut self, entry: &NewEntry) -> (r: Result<
        (u32, u64, u64, bool),
        FsError<D::Error>,
    >)
        requires
            old(self).wf(),
        ensures
            final(self).wf(),
            final(self).keeps(*old(self)),
            ends_as(
                r,
                old(self).layout.new_allocation(old(self).disk(), *entry),
                final(self).disk(),
                old(self).dev.reliable(),
            ),
            r is Ok && makes_dir_cluster(*entry) ==> final(self).dev.durable()
                == final(self).dev.contents(),
    {
        proof {
            lemma_unit_sizes(self.layout.boot);
        }
        let cluster_bytes: u64 = self.layout.boot.bytes_per_cluster() as u64;
        if entry.is_dir {
            let no_fat: bool = match entry.no_fat_chain {
                Some(b) => b,
                None => true,
            };
            if entry.first_cluster >= 2 {
                let length: u64 = match entry.allocated_size {
                    Some(n) => n,
                    None => if entry.size < cluster_bytes {
                        cluster_bytes
                    } else {
                        entry.size
                    },
                };
                return Ok((entry.first_cluster, length, length, no_fat));
            }
            return match self.make_dir_cluster() {
                Ok(cluster) => Ok((cluster, cluster_bytes, cluster_bytes, no_fat)),
                Err(e) => Err(e),
            };
        }
        let no_fat: bool = match entry.no_fat_chain {
            Some(b) => b,
            None => false,
        };
        if entry.first_cluster >= 2 {
            let allocated: u64 = match entry.allocated_size {
                Some(n) => n,
                None => entry.size,
            };
            return Ok((entry.first_cluster, entry.size, allocated, no_fat));
        }
        if entry.size == 0 {
            return Ok((0, 0, 0, no_fat));
        }
        let count: u64 = div_ceil_u64(entry.size, cluster_bytes);
        if count > 0xFFFF_FFFF {
            return Err(FsError::StorageFull);
        }
        match self.allocate_extent(count as u32) {
            Ok((first, contiguous)) => Ok((first, 0, entry.size, contiguous)),
            Err(e) => Err(e),
        }
    }

    /// Append the entry set of a new entry. What the entry refers to must be
    /// durable before the set becomes visible, where it was made for it.
    fn show_new_set(&mut self, parent: &DirExtent, entry: &NewEntry, entry_set: &[u8]) -> (r: Result<
        (),
        FsError<D::Error>,
    >)
        requires
            old(self).wf(),
            parent.wf(),
            entry_set@.len() <= 0x1_0000,
            makes_dir_cluster(*entry) ==> old(self).dev.durable() == old(self).dev.contents(),
        ensures
            final(self).wf(),
            final(self).keeps(*old(self)),
            exists|now: DirExtent| #[trigger]
                old(self).layout.may_use(
                    old(self).dev.contents(),
                    *parent,
                    now,
                    old(self).dev.reliable(),
                ) && ends_as(
                    r,
                    old(self).layout.set_appended(old(self).disk(), now, entry_set@),
                    final(self).disk(),
                    old(self).dev.reliable(),
                ),
    {
        self.append_entry_set_in(parent, entry_set)
    }

    /// The attribute mask of a new entry.
    fn attributes_for(entry: &NewEntry) -> (r: ExfatAttributes)
        ensures
            r.0 == new_attributes(*entry),
    {
        let mut attrs = AttrBits::from_attributes(entry.attrs, entry.is_dir);
        if entry.is_dir {
            attrs.set(DIRECTORY, true);
        } else if !attrs.contains(ARCHIVE) {
            // New files get the archive bit (Windows convention).
            attrs.set(ARCHIVE, true);
        }
        attrs
    }

    /// Insert a [`NewEntry`] under `parent`, honouring pre-allocated cluster,
    /// size, `no_fat_chain`, and `allocated_size` when provided. `now` is the
    /// clock reading that stamps an entry without stamps of its own.
    pub fn insert_new_entry_in_extent(
        &mut self,
        parent: DirExtent,
        entry: &NewEntry,
        now: PrimitiveDateTime,
    ) -> (r: Result<(), FsError<D::Error>>)
        requires
            old(self).wf(),
            parent.wf(),
            entry.times.wf(),
            now.wf(),
        ensures
            final(self).wf(),
            final(self).keeps(*old(self)),
            exists|run: Run<()>| #[trigger]
                old(self).layout.inserts(
                    old(self).name_policy,
                    old(self).disk(),
                    parent,
                    *entry,
                    now,
                    run,
                    old(self).dev.reliable(),
                ) && ends_as(r, run, final(self).disk(), old(self).dev.reliable()),
            r is Ok ==> final(self).dev.durable() == final(self).dev.contents(),
    {
        let ghost l = self.layout;
        let ghost p = self.name_policy;
        let ghost d = self.disk();
        let ghost reliable = self.dev.reliable();
        let ghost fresh = l.refreshed(d.img, parent);
        let ghost then = l.refreshed(l.new_allocation(d, *entry).disk.img, parent);
        let ghost mut run = l.inserted_via(p, d, fresh, then, *entry, now);
        proof {
            assert(l.may_use(d.img, parent, fresh, reliable));
            assert(l.may_use(l.new_allocation(d, *entry).disk.img, parent, then, reliable));
            assert(l.inserts(p, d, parent, *entry, now, run, reliable));
        }
        // 255 UCS-2 units, not bytes — non-ASCII names are longer in UTF-8.
        let units: usize = encode_utf16(entry.name.as_str()).len();
        if units == 0 || units > 255 {
            return Err(FsError::InvalidInput);
        }
        let listed = self.list_entries_in(&parent);
        let ghost looked = choose|x: DirExtent| #[trigger]
            l.may_use(d.img, parent, x, reliable) && lists_as(
                listed,
                l.listing(d.img, x),
                reliable,
            );
        proof {
            run = l.inserted_via(p, d, looked, then, *entry, now);
            assert(l.inserts(p, d, parent, *entry, now, run, reliable));
        }
        let entries: Vec<ExfatDirEntry> = match listed {
            Ok(entries) => entries,
            Err(e) => {
                return Err(e);
            },
        };
        if self.find_named(&entries, entry.name.as_str()).is_some() {
            return Err(FsError::AlreadyExists);
        }
        // Prefer caller stamps; fall back to the clock if all absent.

        let t = entry.times;
        let times = if t.created.is_none() && t.modified.is_none() && t.accessed.is_none() {
            EntryTimes::now(now)
        } else {
            t
        };
        assert(times == effective_times(entry.times, now));
        let attrs = Self::attributes_for(entry);
        let (first, valid, length, contiguous) = match self.allocate_for(entry) {
            Ok(a) => a,
            Err(e) => {
                return Err(e);
            },
        };
        let hash: u16 = self.name_hash(entry.name.as_str());
        let entry_set: Vec<u8> = compose_file_entry_set_full(
            entry.name.as_str(),
            hash,
            attrs,
            first,
            valid,
            length,
            contiguous,
            times,
        );
        proof {
            let f = new_set(self.name_policy, *entry, now, first, valid, length, contiguous);
            assert(composed(f, entry_set@));
            law_composed_unique(f, entry_set@, set_bytes(f));
        }
        let ghost mid = self.disk();
        let stored = self.show_new_set(&parent, entry, entry_set.as_slice());
        proof {
            let used = choose|x: DirExtent| #[trigger]
                l.may_use(mid.img, parent, x, reliable) && ends_as(
                    stored,
                    l.set_appended(mid, x, entry_set@),
                    self.disk(),
                    reliable,
                );
            run = l.inserted_via(p, d, looked, used, *entry, now);
            assert(l.inserts(p, d, parent, *entry, now, run, reliable));
        }
        match stored {
            Ok(_) => {},
            Err(e) => {
                return Err(e);
            },
        }
        self.sync()
    }
}

} // verus!
