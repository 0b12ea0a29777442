//! FAT cluster allocation and directory entry-set mutation.

use vstd::prelude::*;

use super::dir_slots::{FatDir, SlotChain, SlotPos, SLOT_DELETED, SLOT_END};
use super::entry::{
    compose_entry, entry_slots, record_image, sfn_record, slots_view, MinFields, MinProperties,
};
use super::fs::FatVfs;
use super::layout::{
    fat_comes_to, fat_done, fat_ends_as, fat_failed, lemma_cluster_size, FatDisk, FatLayout, FatRun,
    FatWrite,
};
use crate::attrs::packed_attributes;
use crate::calendar::PrimitiveDateTime;
use crate::codec::fat::bpb::Ebr;
use crate::codec::fat::dir_entry::{RawAttributes, RAW_DIRECTORY};
use crate::codec::fat::sfn_layout::{current_dir_raw, parent_dir_raw, Sfn};
use crate::codec::fat::types::{ClusterIndex, EntryCount, FatType};
use crate::device::Device;
use crate::error::{CorruptKind, FsError};
use crate::num::{ceil_div, div_ceil_u64};
use crate::vfs::EntryPatch;

verus! {

/// How claiming clusters ends: the clusters claimed so far come with it, the one
/// whose claim failed included, and whether the cluster linked from was gone to.
pub struct Claim {
    pub out: Result<(), FsError<()>>,
    pub disk: FatDisk,
    pub claimed: Seq<u32>,
    pub linked: bool,
}

/// Where a search for a run of free slots ends: at a long enough run, or at
/// the directory's end with the run in progress there.
pub struct SlotRun {
    pub found: Option<SlotPos>,
    pub last: SlotPos,
    pub start: Option<SlotPos>,
    pub len: int,
}

/// Whether a slot is free to be written.
pub open spec fn slot_free(first_byte: u8) -> bool {
    first_byte == SLOT_END || first_byte == SLOT_DELETED
}

/// The properties as a patch leaves them. FAT has no `ValidDataLength` or
/// `NoFatChain`; those patch fields are ignored.
pub open spec fn patched_fields(p: MinFields, is_dir: bool, patch: EntryPatch) -> MinFields {
    let a = MinFields {
        file_size: match patch.size {
            Some(n) => if n > u32::MAX {
                u32::MAX
            } else {
                n as u32
            },
            None => p.file_size,
        },
        data_cluster: match patch.first_cluster {
            Some(c) => c,
            None => p.data_cluster,
        },
        attributes: match patch.attrs {
            Some(a) => packed_attributes(a, is_dir) as u8,
            None => p.attributes,
        },
        ..p
    };
    match patch.times {
        None => a,
        Some(t) => MinFields {
            created: match t.created {
                Some(c) => Some(c),
                None => a.created,
            },
            modified: match t.modified {
                Some(m) => m,
                None => a.modified,
            },
            accessed: match t.accessed {
                Some(d) => Some(d),
                None => a.accessed,
            },
            ..a
        },
    }
}

impl FatLayout {
    /// Claiming `n` clusters one by one, each linked behind the one before. A
    /// cluster counts as claimed before its cell is written, so that a claim
    /// that fails half-way is undone too.
    pub open spec fn claimed(
        self,
        d: FatDisk,
        n: int,
        prev: Option<u32>,
        got: Seq<u32>,
        linked: bool,
    ) -> Claim
        decreases n,
    {
        if n <= 0 {
            Claim { out: Ok(()), disk: d, claimed: got, linked }
        } else {
            let f = self.free_search(d);
            match f.out {
                Err(e) => Claim { out: Err(e), disk: f.disk, claimed: got, linked },
                Ok(None) => Claim {
                    out: Err(FsError::StorageFull),
                    disk: f.disk,
                    claimed: got,
                    linked,
                },
                Ok(Some(c)) => {
                    let more = got.push(c);
                    let w = self.fat_written(f.disk, c, FatWrite::End);
                    match w.out {
                        Err(e) => Claim { out: Err(e), disk: w.disk, claimed: more, linked },
                        Ok(_) => {
                            let k = match prev {
                                Some(p) => self.fat_written(w.disk, p, FatWrite::Next(c)),
                                None => w,
                            };
                            match k.out {
                                Err(e) => Claim {
                                    out: Err(e),
                                    disk: k.disk,
                                    claimed: more,
                                    linked: true,
                                },
                                Ok(_) => self.claimed(k.disk, n - 1, Some(c), more, true),
                            }
                        },
                    }
                },
            }
        }
    }

    /// Giving clusters back, whatever becomes of each attempt.
    pub open spec fn given_back(self, d: FatDisk, clusters: Seq<u32>) -> FatDisk
        decreases clusters.len(),
    {
        if clusters.len() == 0 {
            d
        } else {
            self.given_back(
                self.fat_written(d, clusters.first(), FatWrite::Free).disk,
                clusters.drop_first(),
            )
        }
    }

    /// Allocating `n` clusters as one chain, behind `link_from` if given. If
    /// that fails, what was claimed is given back and `link_from` ends its
    /// chain again: nothing leaks.
    pub open spec fn allocated(self, d: FatDisk, n: int, link_from: Option<u32>) -> FatRun<
        Seq<u32>,
    > {
        let c = self.claimed(d, n, link_from, seq![], false);
        match c.out {
            Ok(_) => fat_done(c.claimed, c.disk),
            Err(e) => {
                let b = self.given_back(c.disk, c.claimed);
                let u = match link_from {
                    Some(p) => if c.linked {
                        self.fat_written(b, p, FatWrite::End).disk
                    } else {
                        b
                    },
                    None => b,
                };
                fat_failed(e, u)
            },
        }
    }

    /// Freeing the chain from `cur` on. A walk longer than the volume's
    /// cluster count goes in circles.
    pub open spec fn chain_freed(self, d: FatDisk, cur: u32, steps: int) -> FatRun<()>
        decreases self.props.max_cluster + 1 - steps,
    {
        if steps > self.props.max_cluster {
            fat_failed(FsError::Corrupt(CorruptKind::ClusterChain), d)
        } else {
            // The link is read before freeing overwrites it.
            match self.successor(d.img, cur as int) {
                Err(e) => fat_failed(e, d),
                Ok(next) => {
                    let w = self.fat_written(d, cur, FatWrite::Free);
                    match (w.out, next) {
                        (Ok(_), Some(n)) => self.chain_freed(w.disk, n, steps + 1),
                        _ => w,
                    }
                },
            }
        }
    }

    /// Zeroing the sectors of `cluster` from sector `i` on.
    pub open spec fn zeroed(self, d: FatDisk, cluster: u32, i: int) -> FatRun<()>
        decreases self.props.sec_per_clus - i,
    {
        if i >= self.props.sec_per_clus {
            fat_done((), d)
        } else {
            let w = self.written(
                d,
                self.cluster_pos(cluster as int) + i * self.props.sector_size,
                Seq::new(self.props.sector_size as nat, |k: int| 0u8),
            );
            if w.out is Err {
                w
            } else {
                self.zeroed(w.disk, cluster, i + 1)
            }
        }
    }

    /// Zeroing each of `clusters`.
    pub open spec fn all_zeroed(self, d: FatDisk, clusters: Seq<u32>) -> FatRun<()>
        decreases clusters.len(),
    {
        if clusters.len() == 0 {
            fat_done((), d)
        } else {
            let z = self.zeroed(d, clusters.first(), 0);
            if z.out is Err {
                z
            } else {
                self.all_zeroed(z.disk, clusters.drop_first())
            }
        }
    }

    /// Searching for a run of `needed` free slots from `pos` on. A directory
    /// cannot hold more than 65535 slots.
    pub open spec fn slots_searched(
        self,
        img: Seq<u8>,
        pos: SlotPos,
        start: Option<SlotPos>,
        len: int,
        examined: int,
        needed: int,
    ) -> Result<SlotRun, FsError<()>>
        decreases 65535 - examined,
    {
        if examined >= 65535 {
            Err(FsError::StorageFull)
        } else {
            match self.slot_read(img, pos) {
                Err(e) => Err(e),
                Ok(slot) => {
                    let free = slot_free(slot[0]);
                    let s = if !free {
                        None
                    } else if start is None {
                        Some(pos)
                    } else {
                        start
                    };
                    let n = if free {
                        len + 1
                    } else {
                        0
                    };
                    if free && n >= needed {
                        Ok(SlotRun { found: s, last: pos, start: s, len: n })
                    } else {
                        match self.slot_after(img, pos) {
                            Err(e) => Err(e),
                            Ok(None) => Ok(SlotRun { found: None, last: pos, start: s, len: n }),
                            Ok(Some(next)) => self.slots_searched(
                                img,
                                next,
                                s,
                                n,
                                examined + 1,
                                needed,
                            ),
                        }
                    }
                },
            }
        }
    }

    /// Slots per cluster, at least one.
    pub open spec fn slots_in_cluster(self) -> int {
        self.props.cluster_size as int / 32
    }

    /// Finding room for `needed` slots in `dir`. A directory made of clusters
    /// grows where its last run is too short; a fixed root cannot.
    pub open spec fn slots_reserved(self, d: FatDisk, dir: FatDir, needed: int) -> FatRun<SlotPos> {
        match self.slots_searched(d.img, self.first_slot(dir), None, 0, 0, needed) {
            Err(e) => fat_failed(e, d),
            Ok(run) => match run.found {
                Some(pos) => fat_done(pos, d),
                None => match (dir, run.last.cluster) {
                    (FatDir::FixedRoot, _) => fat_failed(FsError::RootDirectoryFull, d),
                    (_, None) => fat_failed(FsError::Corrupt(CorruptKind::DirEntry), d),
                    (_, Some(tail)) => {
                        let a = self.allocated(
                            d,
                            ceil_div(needed - run.len, self.slots_in_cluster()),
                            Some(tail),
                        );
                        match a.out {
                            Err(e) => fat_failed(e, a.disk),
                            Ok(new) => {
                                let z = self.all_zeroed(a.disk, new);
                                match z.out {
                                    Err(e) => fat_failed(e, z.disk),
                                    Ok(_) => fat_done(
                                        match run.start {
                                            Some(s) => s,
                                            None => self.cluster_slot(new[0]),
                                        },
                                        z.disk,
                                    ),
                                }
                            },
                        }
                    },
                },
            },
        }
    }

    /// Writing slots one after the other from `pos` on.
    pub open spec fn slots_written(self, d: FatDisk, pos: SlotPos, slots: Seq<Seq<u8>>) -> FatRun<
        (),
    >
        decreases slots.len(),
    {
        if slots.len() == 0 {
            fat_done((), d)
        } else {
            let w = self.written(d, pos.offset as int, slots.first());
            if w.out is Err || slots.len() == 1 {
                w
            } else {
                match self.slot_after(w.disk.img, pos) {
                    Err(e) => fat_failed(e, w.disk),
                    Ok(None) => fat_failed(FsError::Corrupt(CorruptKind::DirEntry), w.disk),
                    Ok(Some(next)) => self.slots_written(w.disk, next, slots.drop_first()),
                }
            }
        }
    }

    /// Number of slots of an entry, as a directory counts them.
    pub open spec fn slot_count(self, p: MinFields) -> int {
        if entry_slots(p).len() > u16::MAX {
            u16::MAX as int
        } else {
            entry_slots(p).len() as int
        }
    }

    /// Inserting an entry into `dir`.
    pub open spec fn entry_inserted(self, d: FatDisk, p: MinFields, dir: FatDir) -> FatRun<
        SlotChain,
    > {
        let n = self.slot_count(p);
        let r = self.slots_reserved(d, dir, n);
        match r.out {
            Err(e) => fat_failed(e, r.disk),
            Ok(first) => {
                let w = self.slots_written(r.disk, first, entry_slots(p));
                match w.out {
                    Err(e) => fat_failed(e, w.disk),
                    Ok(_) => fat_done((SlotChain { first, len: n as u16 }), w.disk),
                }
            },
        }
    }

    /// Marking `n` slots from `pos` on as deleted.
    pub open spec fn slots_deleted(self, d: FatDisk, pos: SlotPos, n: int) -> FatRun<()>
        decreases n,
    {
        if n <= 0 {
            fat_done((), d)
        } else {
            let w = self.written(d, pos.offset as int, seq![SLOT_DELETED]);
            if w.out is Err || n == 1 {
                w
            } else {
                match self.slot_after(w.disk.img, pos) {
                    Err(e) => fat_failed(e, w.disk),
                    Ok(None) => w,
                    Ok(Some(next)) => self.slots_deleted(w.disk, next, n - 1),
                }
            }
        }
    }

    /// Cluster value for a `..` entry pointing at `parent`: 0 whenever the
    /// parent is the root.
    pub open spec fn parent_link(self, parent: FatDir) -> u32 {
        match parent {
            FatDir::FixedRoot => 0,
            FatDir::Clusters(c) => match self.boot.ebr {
                Ebr::Fat32(e, _) => if e.root_cluster == c {
                    0
                } else {
                    c
                },
                Ebr::Fat16(_) => c,
            },
        }
    }

    /// The fields of a `.` or `..` entry.
    pub open spec fn dot_fields(self, sfn: Sfn, cluster: u32, at: PrimitiveDateTime) -> MinFields {
        MinFields {
            name: seq![],
            sfn,
            attributes: RAW_DIRECTORY,
            created: Some(at),
            modified: at,
            accessed: Some(at.date),
            file_size: 0,
            data_cluster: cluster,
            nt_res: 0,
            ea_handle: match self.fat_type {
                FatType::FAT32 => None,
                FatType::FAT16 => Some(0),
            },
        }
    }

    /// Making the cluster of a new directory: zeroed, with `.` and `..`.
    pub open spec fn dir_cluster_made(
        self,
        d: FatDisk,
        parent: FatDir,
        at: PrimitiveDateTime,
        dot: Sfn,
        dotdot: Sfn,
    ) -> FatRun<u32> {
        let a = self.allocated(d, 1, None);
        match a.out {
            Err(e) => fat_failed(e, a.disk),
            Ok(new) => {
                let c = new[0];
                let z = self.zeroed(a.disk, c, 0);
                match z.out {
                    Err(e) => fat_failed(e, z.disk),
                    Ok(_) => {
                        let w = self.slots_written(
                            z.disk,
                            self.cluster_slot(c),
                            seq![
                                record_image(sfn_record(self.dot_fields(dot, c, at))),
                                record_image(
                                    sfn_record(
                                        self.dot_fields(dotdot, self.parent_link(parent), at),
                                    ),
                                ),
                            ],
                        );
                        match w.out {
                            Err(e) => fat_failed(e, w.disk),
                            Ok(_) => fat_done(c, w.disk),
                        }
                    },
                }
            },
        }
    }

    /// Rewriting the short-name record of a slot set.
    pub open spec fn record_rewritten(self, d: FatDisk, chain: SlotChain, p: MinFields) -> FatRun<
        (),
    > {
        let last = if chain.len == 0 {
            0
        } else {
            chain.len - 1
        };
        match self.slot_nth(d.img, chain.first, last) {
            Err(e) => fat_failed(e, d),
            Ok(None) => fat_failed(FsError::Corrupt(CorruptKind::DirEntry), d),
            Ok(Some(pos)) => self.written(d, pos.offset as int, record_image(sfn_record(p))),
        }
    }
}

/// `.` as a short name.
pub open spec fn dot_sfn() -> Sfn {
    choose|s: Sfn| s.raw() == current_dir_raw()
}

/// `..` as a short name.
pub open spec fn dotdot_sfn() -> Sfn {
    choose|s: Sfn| s.raw() == parent_dir_raw()
}

/// A short name is determined by its bytes.
pub proof fn lemma_sfn_from_raw(a: Sfn, b: Sfn)
    requires
        a.raw() == b.raw(),
    ensures
        a == b,
{
    assert forall|i: int| 0 <= i < 8 implies a.name@[i] == b.name@[i] by {
        assert(a.raw()[i] == a.name@[i] && b.raw()[i] == b.name@[i]);
    }
    assert forall|i: int| 0 <= i < 3 implies a.ext@[i] == b.ext@[i] by {
        assert(a.raw()[8 + i] == a.ext@[i] && b.raw()[8 + i] == b.ext@[i]);
    }
    assert(a.name =~= b.name);
    assert(a.ext =~= b.ext);
}

/// Claiming succeeds with as many clusters as asked for.
proof fn lemma_claimed_len(
    l: FatLayout,
    d: FatDisk,
    n: int,
    prev: Option<u32>,
    got: Seq<u32>,
    linked: bool,
)
    requires
        n >= 0,
    ensures
        l.claimed(d, n, prev, got, linked).out is Ok ==> l.claimed(
            d,
            n,
            prev,
            got,
            linked,
        ).claimed.len() == got.len() + n,
    decreases n,
{
    if n > 0 {
        let f = l.free_search(d);
        if let Ok(Some(c)) = f.out {
            let w = l.fat_written(f.disk, c, FatWrite::End);
            let k = match prev {
                Some(p) => l.fat_written(w.disk, p, FatWrite::Next(c)),
                None => w,
            };
            lemma_claimed_len(l, k.disk, n - 1, Some(c), got.push(c), true);
        }
    }
}

impl<D: Device> FatVfs<D> {
    /// Claim `n` clusters, collecting them in `claimed`; `linked` tells whether
    /// the cluster linked from was gone to.
    fn claim_clusters(
        &mut self,
        n: u32,
        link_from: Option<ClusterIndex>,
        claimed: &mut Vec<ClusterIndex>,
        linked: &mut bool,
    ) -> (r: Result<(), FsError<D::Error>>)
        requires
            old(self).wf(),
            old(claimed)@.len() == 0,
            !*old(linked),
        ensures
            final(self).wf(),
            final(self).keeps(*old(self)),
            ({
                let run = old(self).layout.claimed(
                    old(self).disk(),
                    n as int,
                    link_from,
                    seq![],
                    false,
                );
                match r {
                    Ok(_) => {
                        &&& run.out is Ok
                        &&& final(self).disk() == run.disk
                        &&& final(claimed)@ == run.claimed
                        &&& *final(linked) == run.linked
                    },
                    Err(FsError::Io(_)) => !old(self).dev.reliable(),
                    Err(e) => {
                        &&& run.out == Err::<(), FsError<()>>(e.kind())
                        &&& final(self).disk() == run.disk
                        &&& final(claimed)@ == run.claimed
                        &&& *final(linked) == run.linked
                    },
                }
            }),
    {
        let ghost l = self.layout;
        let ghost whole = l.claimed(self.disk(), n as int, link_from, seq![], false);
        assert(claimed@ =~= Seq::<u32>::empty());
        let mut prev: Option<u32> = link_from;
        let mut k: u32 = 0;
        while k < n
            invariant
                self.wf(),
                self.keeps(*old(self)),
                l == old(self).layout,
                whole == l.claimed(old(self).disk(), n as int, link_from, seq![], false),
                k <= n,
                whole == l.claimed(self.disk(), n - k, prev, claimed@, *linked),
            decreases n - k,
        {
            let cluster: u32 = match self.next_free_cluster() {
                Ok(Some(c)) => c,
                Ok(None) => {
                    return Err(FsError::StorageFull);
                },
                Err(e) => {
                    return Err(e);
                },
            };
            // Claim it immediately (End) so the next scan can't hand it
            // out again. On the list first: a claim that fails half-way is
            // undone like any other.
            claimed.push(cluster);
            match self.write_fat(cluster, FatWrite::End) {
                Ok(_) => {},
                Err(e) => {
                    return Err(e);
                },
            }
            *linked = true;
            if let Some(p) = prev {
                match self.write_fat(p, FatWrite::Next(cluster)) {
                    Ok(_) => {},
                    Err(e) => {
                        return Err(e);
                    },
                }
            }
            prev = Some(cluster);
            k += 1;
        }
        Ok(())
    }

    /// Give clusters back, whatever becomes of each attempt.
    fn give_back(&mut self, clusters: &Vec<ClusterIndex>)
        requires
            old(self).wf(),
        ensures
            final(self).wf(),
            final(self).keeps(*old(self)),
            old(self).dev.reliable() ==> final(self).disk() == old(self).layout.given_back(
                old(self).disk(),
                clusters@,
            ),
    {
        let ghost l = self.layout;
        let ghost start = self.disk();
        let mut i: usize = 0;
        assert(clusters@.subrange(0, clusters@.len() as int) =~= clusters@);
        while i < clusters.len()
            invariant
                self.wf(),
                self.keeps(*old(self)),
                l == old(self).layout,
                start == old(self).disk(),
                i <= clusters@.len(),
                old(self).dev.reliable() ==> l.given_back(start, clusters@) == l.given_back(
                    self.disk(),
                    clusters@.subrange(i as int, clusters@.len() as int),
                ),
            decreases clusters@.len() - i,
        {
            proof {
                let rest = clusters@.subrange(i as int, clusters@.len() as int);
                assert(rest.first() == clusters@[i as int]);
                assert(rest.drop_first() =~= clusters@.subrange(i + 1, clusters@.len() as int));
            }
            let _ = self.write_fat(clusters[i], FatWrite::Free);
            i += 1;
        }
    }

    /// Allocate `n` clusters, returning them in chain order. When `link_from`
    /// is given, its cell is pointed at the new run so an existing chain is
    /// extended. The run is chained but **not necessarily contiguous** —
    /// callers must address the returned clusters individually, never
    /// `first + i`. On any mid-run failure every claimed cluster is freed
    /// and `link_from` is restored to end-of-chain, so nothing leaks and no
    /// half-linked garbage stays reachable.
    pub fn allocate_clusters(&mut self, n: u32, link_from: Option<ClusterIndex>) -> (r: Result<
        Vec<ClusterIndex>,
        FsError<D::Error>,
    >)
        requires
            old(self).wf(),
        ensures
            final(self).wf(),
            final(self).keeps(*old(self)),
            ({
                let run = old(self).layout.allocated(old(self).disk(), n as int, link_from);
                match r {
                    Ok(v) => {
                        &&& run.out == Ok::<Seq<u32>, FsError<()>>(v@)
                        &&& v@.len() == n
                        &&& final(self).disk() == run.disk
                    },
                    Err(FsError::Io(_)) => !old(self).dev.reliable(),
                    Err(e) => {
                        &&& run.out == Err::<Seq<u32>, FsError<()>>(e.kind())
                        &&& old(self).dev.reliable() ==> final(self).disk() == run.disk
                    },
                }
            }),
    {
        let mut claimed: Vec<u32> = Vec::new();
        let mut linked: bool = false;
        proof {
            lemma_claimed_len(self.layout, self.disk(), n as int, link_from, seq![], false);
        }
        match self.claim_clusters(n, link_from, &mut claimed, &mut linked) {
            Ok(_) => Ok(claimed),
            Err(e) => {
                // Unwind: free the partial run and unhook it from the chain.
                self.give_back(&claimed);
                if let Some(p) = link_from {
                    if linked {
                        let _ = self.write_fat(p, FatWrite::End);
                    }
                }
                Err(e)
            },
        }
    }

    /// Free every cluster of the chain starting at `first_cluster`.
    pub fn free_cluster_chain(&mut self, first_cluster: ClusterIndex) -> (r: Result<
        (),
        FsError<D::Error>,
    >)
        requires
            old(self).wf(),
        ensures
            final(self).wf(),
            final(self).keeps(*old(self)),
            fat_ends_as(
                r,
                old(self).layout.chain_freed(old(self).disk(), first_cluster, 0),
                final(self).disk(),
                old(self).dev.reliable(),
            ),
    {
        let ghost l = self.layout;
        let ghost start = self.disk();
        let max: u32 = self.layout.props.max_cluster;
        let mut cluster: u32 = first_cluster;
        let mut left: u32 = max;
        loop
            invariant
                self.wf(),
                self.keeps(*old(self)),
                l == old(self).layout,
                start == old(self).disk(),
                max == l.props.max_cluster,
                left <= max,
                l.chain_freed(start, first_cluster, 0) == l.chain_freed(
                    self.disk(),
                    cluster,
                    max - left,
                ),
            decreases left,
        {
            // Read the link before freeing overwrites it.
            let next = match self.next_cluster(cluster) {
                Ok(next) => next,
                Err(e) => {
                    return Err(e);
                },
            };
            match self.write_fat(cluster, FatWrite::Free) {
                Ok(_) => {},
                Err(e) => {
                    return Err(e);
                },
            }
            match next {
                Some(n) => {
                    // More steps than clusters: the chain goes in circles.
                    if left == 0 {
                        assert(l.chain_freed(self.disk(), n, max + 1).out is Err);
                        return Err(FsError::Corrupt(CorruptKind::ClusterChain));
                    }
                    cluster = n;
                    left -= 1;
                },
                None => {
                    return Ok(());
                },
            }
        }
    }

    /// Zero every sector of `cluster` (required for a fresh directory cluster).
    pub fn zero_cluster(&mut self, cluster: ClusterIndex) -> (r: Result<(), FsError<D::Error>>)
        requires
            old(self).wf(),
        ensures
            final(self).wf(),
            final(self).keeps(*old(self)),
            fat_ends_as(
                r,
                old(self).layout.zeroed(old(self).disk(), cluster, 0),
                final(self).disk(),
                old(self).dev.reliable(),
            ),
    {
        let ghost l = self.layout;
        let ghost start = self.disk();
        let size: u64 = self.layout.props.sector_size as u64;
        let n: usize = self.layout.props.sector_size as usize;
        let zeros: Vec<u8> = vec![0u8; n];
        assert(zeros@ =~= Seq::new(l.props.sector_size as nat, |k: int| 0u8));
        let base: u64 = self.layout.cluster_offset(cluster);
        let sectors: u8 = self.layout.props.sec_per_clus;
        let mut i: u8 = 0;
        while i < sectors
            invariant
                self.wf(),
                self.keeps(*old(self)),
                l == old(self).layout,
                start == old(self).disk(),
                size == l.props.sector_size,
                size <= 4096,
                sectors == l.props.sec_per_clus,
                base == l.cluster_pos(cluster as int),
                base <= 0xFFFF_FFFF * 4096,
                zeros@ == Seq::new(l.props.sector_size as nat, |k: int| 0u8),
                i <= sectors,
                l.zeroed(start, cluster, 0) == l.zeroed(self.disk(), cluster, i as int),
            decreases sectors - i,
        {
            proof {
                let (a, b) = (i, size);
                assert(0 <= a * b <= 0xFF * 4096) by (nonlinear_arith)
                    requires
                        0 <= a <= 0xFF,
                        0 <= b <= 4096,
                ;
            }
            match self.write_bytes(base + i as u64 * size, zeros.as_slice()) {
                Ok(_) => {},
                Err(e) => {
                    return Err(e);
                },
            }
            i += 1;
        }
        Ok(())
    }

    /// Zero each of `clusters`.
    fn zero_clusters(&mut self, clusters: &Vec<ClusterIndex>) -> (r: Result<(), FsError<D::Error>>)
        requires
            old(self).wf(),
        ensures
            final(self).wf(),
            final(self).keeps(*old(self)),
            fat_ends_as(
                r,
                old(self).layout.all_zeroed(old(self).disk(), clusters@),
                final(self).disk(),
                old(self).dev.reliable(),
            ),
    {
        let ghost l = self.layout;
        let ghost start = self.disk();
        let mut i: usize = 0;
        assert(clusters@.subrange(0, clusters@.len() as int) =~= clusters@);
        while i < clusters.len()
            invariant
                self.wf(),
                self.keeps(*old(self)),
                l == old(self).layout,
                start == old(self).disk(),
                i <= clusters@.len(),
                l.all_zeroed(start, clusters@) == l.all_zeroed(
                    self.disk(),
                    clusters@.subrange(i as int, clusters@.len() as int),
                ),
            decreases clusters@.len() - i,
        {
            proof {
                let rest = clusters@.subrange(i as int, clusters@.len() as int);
                assert(rest.first() == clusters@[i as int]);
                assert(rest.drop_first() =~= clusters@.subrange(i + 1, clusters@.len() as int));
            }
            match self.zero_cluster(clusters[i]) {
                Ok(_) => {},
                Err(e) => {
                    return Err(e);
                },
            }
            i += 1;
        }
        Ok(())
    }

    /// Search `dir` for a run of `needed` free slots.
    fn search_slots(&self, dir: FatDir, needed: EntryCount) -> (r: Result<
        (Option<SlotPos>, SlotPos, Option<SlotPos>, EntryCount),
        FsError<D::Error>,
    >)
        requires
            self.wf(),
            needed > 0,
        ensures
            ({
                let s = self.layout.slots_searched(
                    self.dev.contents(),
                    self.layout.first_slot(dir),
                    None,
                    0,
                    0,
                    needed as int,
                );
                match r {
                    Ok((found, last, start, len)) => {
                        &&& s == Ok::<SlotRun, FsError<()>>(
                            SlotRun { found, last, start, len: len as int },
                        )
                        &&& found matches Some(p) ==> p.wf()
                        &&& start matches Some(p) ==> p.wf()
                        &&& found is None ==> len < needed
                    },
                    Err(FsError::Io(_)) => !self.dev.reliable(),
                    Err(e) => s == Err::<SlotRun, FsError<()>>(e.kind()),
                }
            }),
    {
        let ghost l = self.layout;
        let ghost img = self.dev.contents();
        let ghost whole = l.slots_searched(img, l.first_slot(dir), None, 0, 0, needed as int);
        let mut pos: SlotPos = self.dir_first_slot(dir);
        let mut run_start: Option<SlotPos> = None;
        let mut run_len: u16 = 0;
        let mut examined: u32 = 0;
        loop
            invariant
                self.wf(),
                l == self.layout,
                img == self.dev.contents(),
                pos.wf(),
                run_start matches Some(p) ==> p.wf(),
                run_len < needed,
                run_len <= examined,
                examined <= 65535,
                whole == l.slots_searched(img, l.first_slot(dir), None, 0, 0, needed as int),
                whole == l.slots_searched(
                    img,
                    pos,
                    run_start,
                    run_len as int,
                    examined as int,
                    needed as int,
                ),
            decreases 65535 - examined,
        {
            // A directory can't hold more than u16::MAX slots; bail out well
            // before that (also fences a crafted cyclic chain).
            if examined >= 65535 {
                return Err(FsError::StorageFull);
            }
            examined += 1;
            let slot: [u8; 32] = match self.read_slot(pos) {
                Ok(slot) => slot,
                Err(e) => {
                    return Err(e);
                },
            };
            let free: bool = slot[0] == SLOT_END || slot[0] == SLOT_DELETED;
            if free {
                if run_start.is_none() {
                    run_start = Some(pos);
                }
                run_len += 1;
                if run_len >= needed {
                    return Ok((run_start, pos, run_start, run_len));
                }
            } else {
                run_start = None;
                run_len = 0;
            }
            match self.next_slot(pos) {
                Ok(Some(next)) => {
                    pos = next;
                },
                Ok(None) => {
                    return Ok((None, pos, run_start, run_len));
                },
                Err(e) => {
                    return Err(e);
                },
            }
        }
    }

    /// Locate a run of `needed` consecutive free slots in `dir`, growing a
    /// cluster-backed directory (and zeroing the new clusters) when the tail
    /// run is too short. A full fixed root yields [`FsError::RootDirectoryFull`].
    pub fn reserve_slots(&mut self, dir: FatDir, needed: EntryCount) -> (r: Result<
        SlotPos,
        FsError<D::Error>,
    >)
        requires
            old(self).wf(),
            needed > 0,
        ensures
            final(self).wf(),
            final(self).keeps(*old(self)),
            r matches Ok(p) ==> p.wf(),
            // Allocate-before-link: where the directory grew, its new clusters
            // are durable before an entry is written into them.
            r is Ok ==> final(self).disk() == old(self).disk() || final(self).dev.durable()
                == final(self).dev.contents(),
            fat_comes_to(
                r,
                old(self).layout.slots_reserved(old(self).disk(), dir, needed as int),
                final(self).disk(),
                old(self).dev.reliable(),
            ),
    {
        proof {
            lemma_cluster_size(self.layout);
        }
        let (found, last, run_start, run_len) = match self.search_slots(dir, needed) {
            Ok(s) => s,
            Err(e) => {
                return Err(e);
            },
        };
        if let Some(pos) = found {
            return Ok(pos);
        }
        // Ran off the end without a long-enough run.

        if dir == FatDir::FixedRoot {
            return Err(FsError::RootDirectoryFull);
        }
        let tail: u32 = match last.cluster() {
            Some(c) => c,
            None => {
                return Err(FsError::Corrupt(CorruptKind::DirEntry));
            },
        };
        let missing: u64 = (needed - run_len) as u64;
        let per_cluster: u64 = (self.layout.props.cluster_size / 32) as u64;
        let extra: u64 = div_ceil_u64(missing, per_cluster);
        proof {
            let (m, p) = (missing as int, per_cluster as int);
            vstd::arithmetic::div_mod::lemma_fundamental_div_mod(m + p - 1, p);
            vstd::arithmetic::div_mod::lemma_mod_bound(m + p - 1, p);
            assert(1 <= extra <= m) by (nonlinear_arith)
                requires
                    m + p - 1 == p * (extra as int) + (m + p - 1) % p,
                    0 <= (m + p - 1) % p < p,
                    m >= 1,
                    p >= 1,
            ;
        }
        let new: Vec<u32> = match self.allocate_clusters(extra as u32, Some(tail)) {
            Ok(new) => new,
            Err(e) => {
                return Err(e);
            },
        };
        // Zero the clusters actually allocated — the run is chained,
        // not contiguous, so `first + i` could hit a foreign cluster.
        match self.zero_clusters(&new) {
            Ok(_) => {},
            Err(e) => {
                return Err(e);
            },
        }
        // Allocate-before-link: the extended, zeroed chain must be
        // durable before entries written into it become visible.
        match self.metadata_barrier() {
            Ok(_) => {},
            Err(e) => {
                return Err(e);
            },
        }
        // The run continues into the new clusters; if there was no tail
        // run, it starts at the first new cluster's first slot.
        match run_start {
            Some(s) => Ok(s),
            None => Ok(self.dir_first_slot(FatDir::Clusters(new[0]))),
        }
    }

    /// Write `slots` sequentially starting at `start`, following the directory
    /// across sector/cluster boundaries.
    pub fn write_slot_run(&mut self, start: SlotPos, slots: &[[u8; 32]]) -> (r: Result<
        (),
        FsError<D::Error>,
    >)
        requires
            old(self).wf(),
            start.wf(),
        ensures
            final(self).wf(),
            final(self).keeps(*old(self)),
            fat_ends_as(
                r,
                old(self).layout.slots_written(old(self).disk(), start, slots_view(slots@)),
                final(self).disk(),
                old(self).dev.reliable(),
            ),
    {
        let ghost l = self.layout;
        let ghost before = self.disk();
        let ghost all = slots_view(slots@);
        let n: usize = slots.len();
        let mut pos = start;
        let mut i: usize = 0;
        assert(all.subrange(0, n as int) =~= all);
        while i < n
            invariant
                self.wf(),
                self.keeps(*old(self)),
                l == old(self).layout,
                before == old(self).disk(),
                all == slots_view(slots@),
                n == slots@.len(),
                pos.wf(),
                i <= n,
                l.slots_written(before, start, all) == l.slots_written(
                    self.disk(),
                    pos,
                    all.subrange(i as int, n as int),
                ),
            decreases n - i,
        {
            let ghost rest = all.subrange(i as int, n as int);
            proof {
                assert(rest.first() == slots@[i as int]@);
                assert(rest.drop_first() =~= all.subrange(i + 1, n as int));
            }
            match self.write_slot(pos, &slots[i]) {
                Ok(_) => {},
                Err(e) => {
                    return Err(e);
                },
            }
            if i + 1 < n {
                pos = match self.next_slot(pos) {
                    Ok(Some(next)) => next,
                    Ok(None) => {
                        return Err(FsError::Corrupt(CorruptKind::DirEntry));
                    },
                    Err(e) => {
                        return Err(e);
                    },
                };
            }
            i += 1;
        }
        Ok(())
    }

    /// Insert one entry into `dir`, returning the slot set it occupies.
    pub fn insert_entry(&mut self, props: &MinProperties, dir: FatDir) -> (r: Result<
        SlotChain,
        FsError<D::Error>,
    >)
        requires
            old(self).wf(),
            props@.wf(),
        ensures
            final(self).wf(),
            final(self).keeps(*old(self)),
            r matches Ok(c) ==> c.first.wf(),
            fat_comes_to(
                r,
                old(self).layout.entry_inserted(old(self).disk(), props@, dir),
                final(self).disk(),
                old(self).dev.reliable(),
            ),
    {
        let slots: Vec<[u8; 32]> = compose_entry(props);
        assert(slots_view(slots@).len() == slots@.len());
        let len: u16 = if slots.len() > 65535 {
            u16::MAX
        } else {
            slots.len() as u16
        };
        let first = match self.reserve_slots(dir, len) {
            Ok(first) => first,
            Err(e) => {
                return Err(e);
            },
        };
        match self.write_slot_run(first, slots.as_slice()) {
            Ok(_) => Ok(SlotChain { first, len }),
            Err(e) => Err(e),
        }
    }

    /// Mark every slot of `chain` free (does not touch data clusters).
    pub fn remove_entry_set(&mut self, chain: &SlotChain) -> (r: Result<(), FsError<D::Error>>)
        requires
            old(self).wf(),
            chain.first.wf(),
        ensures
            final(self).wf(),
            final(self).keeps(*old(self)),
            fat_ends_as(
                r,
                old(self).layout.slots_deleted(old(self).disk(), chain.first, chain.len as int),
                final(self).disk(),
                old(self).dev.reliable(),
            ),
    {
        let ghost l = self.layout;
        let ghost start = self.disk();
        let mut pos = chain.first;
        let mut left: u16 = chain.len;
        while left > 0
            invariant
                self.wf(),
                self.keeps(*old(self)),
                l == old(self).layout,
                start == old(self).disk(),
                pos.wf(),
                l.slots_deleted(start, chain.first, chain.len as int) == l.slots_deleted(
                    self.disk(),
                    pos,
                    left as int,
                ),
            decreases left,
        {
            match self.free_slot(pos, false) {
                Ok(_) => {},
                Err(e) => {
                    return Err(e);
                },
            }
            if left == 1 {
                return Ok(());
            }
            match self.next_slot(pos) {
                Ok(Some(next)) => {
                    pos = next;
                },
                Ok(None) => {
                    return Ok(());
                },
                Err(e) => {
                    return Err(e);
                },
            }
            left -= 1;
        }
        Ok(())
    }

    /// Cluster value for a `..` entry pointing at `parent`. It is 0 whenever
    /// the parent is the root — including FAT32, whose root is an ordinary
    /// cluster chain.
    pub fn parent_link_cluster(&self, parent: FatDir) -> (r: ClusterIndex)
        ensures
            r == self.layout.parent_link(parent),
    {
        match parent {
            FatDir::FixedRoot => 0,
            FatDir::Clusters(c) => match &self.layout.boot.ebr {
                Ebr::Fat32(e, _) => if e.root_cluster == c {
                    0
                } else {
                    c
                },
                Ebr::Fat16(_) => c,
            },
        }
    }

    /// Encode a `.`/`..` SFN slot (no LFN — these always fit 8.3).
    pub fn dot_entry(&self, sfn: Sfn, cluster: ClusterIndex, datetime: PrimitiveDateTime) -> (r: [u8;
        32])
        requires
            datetime.wf(),
        ensures
            r@ == record_image(sfn_record(self.layout.dot_fields(sfn, cluster, datetime))),
    {
        let props = MinProperties {
            name: String::new(),
            sfn,
            attributes: RawAttributes(RAW_DIRECTORY),
            created: Some(datetime),
            modified: datetime,
            accessed: Some(datetime.date),
            file_size: 0,
            data_cluster: cluster,
            nt_res: 0,
            ea_handle: match self.layout.fat_type {
                FatType::FAT32 => None,
                FatType::FAT16 => Some(0),
            },
        };
        assert(props@.name =~= Seq::<char>::empty());
        props.record_bytes()
    }

    /// Create a sub-directory cluster seeded with `.` and `..`. The two
    /// entries share the parent's timestamps; `parent` supplies `..`'s
    /// cluster (0 when the parent is the root, on FAT16 and FAT32 alike).
    pub fn create_dir_cluster(&mut self, parent: FatDir, datetime: PrimitiveDateTime) -> (r: Result<
        ClusterIndex,
        FsError<D::Error>,
    >)
        requires
            old(self).wf(),
            datetime.wf(),
        ensures
            final(self).wf(),
            final(self).keeps(*old(self)),
            fat_comes_to(
                r,
                old(self).layout.dir_cluster_made(
                    old(self).disk(),
                    parent,
                    datetime,
                    dot_sfn(),
                    dotdot_sfn(),
                ),
                final(self).disk(),
                old(self).dev.reliable(),
            ),
    {
        let new: Vec<u32> = match self.allocate_clusters(1, None) {
            Ok(new) => new,
            Err(e) => {
                return Err(e);
            },
        };
        let dir_cluster: u32 = new[0];
        match self.zero_cluster(dir_cluster) {
            Ok(_) => {},
            Err(e) => {
                return Err(e);
            },
        }
        let parent_cluster: u32 = self.parent_link_cluster(parent);
        let (s1, s2) = (Sfn::current_dir(), Sfn::parent_dir());
        proof {
            lemma_sfn_from_raw(s1, dot_sfn());
            lemma_sfn_from_raw(s2, dotdot_sfn());
        }
        let dot: [u8; 32] = self.dot_entry(s1, dir_cluster, datetime);
        let dotdot: [u8; 32] = self.dot_entry(s2, parent_cluster, datetime);
        let start = self.dir_first_slot(FatDir::Clusters(dir_cluster));
        let slots: [[u8; 32]; 2] = [dot, dotdot];
        assert(slots_view(slots@) =~= seq![dot@, dotdot@]);
        match self.write_slot_run(start, &slots) {
            Ok(_) => Ok(dir_cluster),
            Err(e) => Err(e),
        }
    }

    /// Apply `patch` to `props` and rewrite the set's SFN record (the
    /// last slot of the LFN+SFN chain). FAT has no `ValidDataLength` or
    /// `NoFatChain`; those exFAT-only patch fields are ignored.
    pub fn patch_sfn_record(
        &mut self,
        chain: SlotChain,
        props: &mut MinProperties,
        is_dir: bool,
        patch: EntryPatch,
    ) -> (r: Result<(), FsError<D::Error>>)
        requires
            old(self).wf(),
            chain.first.wf(),
            old(props)@.wf(),
            patch.wf(),
        ensures
            final(self).wf(),
            final(self).keeps(*old(self)),
            final(props)@ == patched_fields(old(props)@, is_dir, patch),
            final(props)@.wf(),
            fat_ends_as(
                r,
                old(self).layout.record_rewritten(
                    old(self).disk(),
                    chain,
                    patched_fields(old(props)@, is_dir, patch),
                ),
                final(self).disk(),
                old(self).dev.reliable(),
            ),
    {
        if let Some(size) = patch.size {
            props.file_size = if size > 0xFFFF_FFFF {
                u32::MAX
            } else {
                size as u32
            };
        }
        if let Some(cluster) = patch.first_cluster {
            props.data_cluster = cluster;
        }
        if let Some(times) = patch.times {
            if let Some(c) = times.created {
                props.created = Some(c);
            }
            if let Some(m) = times.modified {
                props.modified = m;
            }
            if let Some(a) = times.accessed {
                props.accessed = Some(a);
            }
        }
        if let Some(attrs) = patch.attrs {
            props.attributes = RawAttributes::from_attributes(attrs, is_dir);
        }
        assert(props@ == patched_fields(old(props)@, is_dir, patch));
        let bytes: [u8; 32] = props.record_bytes();
        // The SFN is the last slot of the LFN+SFN set.
        let pos = match self.nth_slot(chain.first, chain.len.saturating_sub(1)) {
            Ok(Some(pos)) => pos,
            Ok(None) => {
                return Err(FsError::Corrupt(CorruptKind::DirEntry));
            },
            Err(e) => {
                return Err(e);
            },
        };
        self.write_slot(pos, &bytes)
    }
}

} // verus!
