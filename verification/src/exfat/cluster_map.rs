//! [`ExfatClusterMap`]: per-open-stream cluster geometry (owns NoFatChain).

use vstd::prelude::*;

use super::layout::{
    cluster_count_for, clusters_for, done, ends_as, failed, lemma_unit_sizes, reads_as, Disk,
    ExfatLayout, Run,
};
use super::volume::ExfatVfs;
use crate::codec::exfat::consts::FAT_EOC;
use crate::device::Device;
use crate::error::{file_error_of, CorruptKind, FileError, FsError};
use crate::vfs::{ExtendResult, FreeTailResult};

verus! {

/// Cluster map for one open exFAT stream.
#[derive(Debug, Clone, Copy, PartialEq, Eq, Structural)]
pub struct ExfatClusterMap {
    /// First cluster of this stream (0 if empty).
    pub first: u32,
    pub no_fat_chain: bool,
    pub allocated_len: u64,
    pub cluster_size: u32,
}

/// How a change of the map ends: its result, the disk and the map it leaves.
pub struct MapRun<T> {
    pub out: Result<T, FsError<()>>,
    pub disk: Disk,
    pub map: ExfatClusterMap,
}

/// `r`, the disk and the map are what `run` says, unless the storage failed.
pub open spec fn map_ends_as<T, E>(
    r: Result<T, FileError<E>>,
    run: MapRun<T>,
    after: Disk,
    map: ExfatClusterMap,
    reliable: bool,
) -> bool {
    match r {
        Ok(v) => run.out == Ok::<T, FsError<()>>(v) && after == run.disk && map == run.map,
        Err(FileError::Io(_)) => !reliable,
        Err(e) => {
            &&& run.out is Err
            &&& e.kind() == file_error_of(run.out->Err_0)
            &&& after == run.disk
            &&& map == run.map
        },
    }
}

/// The cluster number, where it is one.
pub open spec fn real_cluster(c: Option<u32>) -> Option<u32> {
    match c {
        Some(c) => if c >= 2 {
            Some(c)
        } else {
            None
        },
        None => None,
    }
}

impl ExfatLayout {
    /// The last cluster of the chain that `c` belongs to. A walk longer than
    /// the volume's cluster count is cyclic.
    pub open spec fn tail_of(self, img: Seq<u8>, c: u32, steps: int) -> Result<u32, FsError<()>>
        decreases self.boot.cluster_count - steps,
    {
        match self.successor(img, c as int, false) {
            Err(e) => Err(e),
            Ok(None) => Ok(c),
            Ok(Some(n)) => if steps + 1 > self.boot.cluster_count {
                Err(FsError::Corrupt(CorruptKind::ClusterChain))
            } else {
                self.tail_of(img, n, steps + 1)
            },
        }
    }

    /// Linking the clusters `from..to` to their right neighbours.
    pub open spec fn neighbours_linked(self, d: Disk, from: int, to: int) -> Run<()>
        decreases to - from,
    {
        if from >= to {
            done((), d)
        } else {
            let w = self.fat_written(d, from, (from + 1) as u32);
            if w.out is Err {
                w
            } else {
                self.neighbours_linked(w.disk, from + 1, to)
            }
        }
    }

    /// Writing the FAT chain of a contiguous run.
    pub open spec fn materialized(self, d: Disk, first: int, count: int) -> Run<()> {
        if count == 0 {
            done((), d)
        } else {
            let w = self.neighbours_linked(d, first, first + count - 1);
            if w.out is Err {
                w
            } else {
                self.fat_written(w.disk, first + count - 1, FAT_EOC)
            }
        }
    }

    /// Taking one free cluster as the only cluster of a chain.
    pub open spec fn chain_started(self, d: Disk) -> Run<u32> {
        match self.free_search(d.img) {
            Err(e) => failed(e, d),
            Ok(None) => failed(FsError::StorageFull, d),
            Ok(Some(c)) => {
                let m = self.marked(d, c as int, true);
                match m.out {
                    Err(e) => failed(e, m.disk),
                    Ok(_) => {
                        let w = self.fat_written(m.disk, c as int, FAT_EOC);
                        match w.out {
                            Err(e) => failed(e, w.disk),
                            Ok(_) => done(c, w.disk),
                        }
                    },
                }
            },
        }
    }

    /// Taking one free cluster as the new end of the chain that ends at
    /// `tail`.
    pub open spec fn chain_extended(self, d: Disk, tail: u32) -> Run<u32> {
        match self.free_search(d.img) {
            Err(e) => failed(e, d),
            Ok(None) => failed(FsError::StorageFull, d),
            Ok(Some(c)) => {
                let m = self.marked(d, c as int, true);
                match m.out {
                    Err(e) => failed(e, m.disk),
                    Ok(_) => {
                        let w = self.fat_written(m.disk, tail as int, c);
                        match w.out {
                            Err(e) => failed(e, w.disk),
                            Ok(_) => {
                                let z = self.fat_written(w.disk, c as int, FAT_EOC);
                                match z.out {
                                    Err(e) => failed(e, z.disk),
                                    Ok(_) => done(c, z.disk),
                                }
                            },
                        }
                    },
                }
            },
        }
    }

    /// Writing out the FAT chain of a contiguous stream, and its last cluster.
    pub open spec fn unrolled(self, d: Disk, first: u32, count: int) -> Run<u32> {
        let m = self.materialized(d, first as int, count);
        match m.out {
            Err(e) => failed(e, m.disk),
            Ok(_) => match self.tail_of(m.disk.img, first, 0) {
                Err(e) => failed(e, m.disk),
                Ok(t) => done(t, m.disk),
            },
        }
    }

    /// Growing a stream by one cluster. A contiguous stream is written out
    /// as a FAT chain first, and is chained from then on.
    #[verifier::opaque]
    pub open spec fn grown_by_one(
        self,
        d: Disk,
        map: ExfatClusterMap,
        first: u32,
        tail: u32,
    ) -> MapRun<u32> {
        let count = clusters_for(map.allocated_len as int, map.cluster_size as int);
        let u = if map.no_fat_chain {
            self.unrolled(d, first, count)
        } else {
            done(tail, d)
        };
        let chained = if map.no_fat_chain && (self.materialized(d, first as int, count).out is Err
            || count == 0) {
            map
        } else {
            ExfatClusterMap { no_fat_chain: false, ..map }
        };
        match u.out {
            Err(e) => MapRun { out: Err(e), disk: u.disk, map: chained },
            Ok(t) => {
                let x = self.chain_extended(u.disk, t);
                match x.out {
                    Err(e) => MapRun { out: Err(e), disk: x.disk, map: chained },
                    Ok(c) => MapRun { out: Ok(c), disk: x.disk, map: map.longer() },
                }
            },
        }
    }

    /// Growing a stream cluster by cluster until it has `needed` bytes.
    pub open spec fn grown(
        self,
        d: Disk,
        map: ExfatClusterMap,
        first: u32,
        tail: u32,
        needed: int,
    ) -> MapRun<ExtendResult>
        decreases
            (if map.allocated_len >= needed {
                0
            } else {
                needed - map.allocated_len
            }),
    {
        if map.allocated_len >= needed || map.cluster_size == 0 || map.allocated_len == u64::MAX {
            MapRun { out: Ok(ExtendResult { first_cluster: first, tail }), disk: d, map }
        } else {
            let s = self.grown_by_one(d, map, first, tail);
            match s.out {
                Err(e) => MapRun { out: Err(e), disk: s.disk, map: s.map },
                Ok(c) => self.grown(s.disk, map.longer(), first, c, needed),
            }
        }
    }

    /// Extending a stream to `needed` allocated bytes. An empty stream gets
    /// its first cluster; a chained stream whose last cluster is not known is
    /// walked to its end before anything is linked.
    pub open spec fn stream_extended(
        self,
        d: Disk,
        map: ExfatClusterMap,
        first: Option<u32>,
        tail: Option<u32>,
        needed: int,
    ) -> MapRun<ExtendResult> {
        match real_cluster(first) {
            None => {
                let s = self.chain_started(d);
                match s.out {
                    Err(e) => MapRun { out: Err(e), disk: s.disk, map },
                    Ok(c) => self.grown(
                        s.disk,
                        ExfatClusterMap {
                            first: c,
                            no_fat_chain: false,
                            allocated_len: map.cluster_size as u64,
                            cluster_size: map.cluster_size,
                        },
                        c,
                        c,
                        needed,
                    ),
                }
            },
            Some(f) => match real_cluster(tail) {
                Some(t) => self.grown(d, map, f, t, needed),
                None => if !map.no_fat_chain && map.allocated_len < needed {
                    match self.tail_of(d.img, f, 0) {
                        Err(e) => MapRun { out: Err(e), disk: d, map },
                        Ok(t) => self.grown(d, map, f, t, needed),
                    }
                } else {
                    self.grown(d, map, f, f, needed)
                },
            },
        }
    }

    /// The cluster `n` steps along the chain from `c`, or the last one before.
    pub open spec fn steps_along(self, img: Seq<u8>, c: u32, n: int) -> Result<u32, FsError<()>>
        decreases n,
    {
        if n <= 0 {
            Ok(c)
        } else {
            match self.successor(img, c as int, false) {
                Err(e) => Err(e),
                Ok(None) => Ok(c),
                Ok(Some(next)) => self.steps_along(img, next, n - 1),
            }
        }
    }

    /// Ending a chain after its first `keep` clusters and freeing the rest.
    pub open spec fn chain_cut(self, d: Disk, first: u32, keep: int, freed: int) -> Run<()> {
        match self.steps_along(d.img, first, keep - 1) {
            Err(e) => failed(e, d),
            Ok(cur) => match self.successor(d.img, cur as int, false) {
                Err(e) => failed(e, d),
                Ok(rest) => {
                    let w = self.fat_written(d, cur as int, FAT_EOC);
                    match (w.out, rest) {
                        (Ok(_), Some(r)) => self.clusters_freed(
                            w.disk,
                            r as int,
                            freed,
                            false,
                        ),
                        _ => w,
                    }
                },
            },
        }
    }

    /// Freeing everything of a stream past its first `keep_len` bytes, in
    /// whole clusters.
    pub open spec fn tail_freed(self, d: Disk, map: ExfatClusterMap, first: u32, keep_len: int) -> MapRun<
        FreeTailResult,
    > {
        let cs = map.cluster_size as int;
        let have = clusters_for(map.allocated_len as int, cs);
        let keep = clusters_for(keep_len, cs);
        if first < 2 {
            MapRun {
                out: Ok(FreeTailResult { first_cluster: 0 }),
                disk: d,
                map: ExfatClusterMap { allocated_len: 0, ..map },
            }
        } else if have <= keep {
            MapRun { out: Ok(FreeTailResult { first_cluster: first }), disk: d, map }
        } else if keep == 0 {
            let f = self.clusters_freed(d, first as int, have, map.no_fat_chain);
            match f.out {
                Err(e) => MapRun { out: Err(e), disk: f.disk, map },
                // A contiguous stream must have clusters.
                Ok(_) => MapRun {
                    out: Ok(FreeTailResult { first_cluster: 0 }),
                    disk: f.disk,
                    map: ExfatClusterMap { allocated_len: 0, no_fat_chain: false, ..map },
                },
            }
        } else {
            let f = if map.no_fat_chain {
                self.clusters_freed(d, first + keep, have - keep, true)
            } else {
                self.chain_cut(d, first, keep, have - keep)
            };
            match f.out {
                Err(e) => MapRun { out: Err(e), disk: f.disk, map },
                Ok(_) => MapRun {
                    out: Ok(FreeTailResult { first_cluster: first }),
                    disk: f.disk,
                    map: ExfatClusterMap { allocated_len: (keep * cs) as u64, ..map },
                },
            }
        }
    }
}

impl ExfatClusterMap {
    /// The cluster size is the volume's, and a contiguous stream ends within
    /// 32-bit cluster numbers.
    pub open spec fn wf(self, l: ExfatLayout) -> bool {
        &&& self.cluster_size == l.boot.cluster_bytes()
        &&& self.cluster_size > 0
        &&& self.no_fat_chain && self.first >= 2 ==> self.run_ok(self.first as int)
    }

    /// The map of a chained stream that is one cluster longer.
    pub open spec fn longer(self) -> ExfatClusterMap {
        ExfatClusterMap {
            no_fat_chain: false,
            allocated_len: if self.allocated_len + self.cluster_size > u64::MAX {
                u64::MAX
            } else {
                (self.allocated_len + self.cluster_size) as u64
            },
            ..self
        }
    }

    /// A contiguous stream of this length can start at `first`.
    pub open spec fn run_ok(self, first: int) -> bool {
        first + clusters_for(self.allocated_len as int, self.cluster_size as int) <= u32::MAX + 1
    }

    pub fn new<D: Device>(
        vol: &ExfatVfs<D>,
        first: u32,
        allocated_len: u64,
        no_fat_chain: bool,
    ) -> (r: Self)
        requires
            vol.wf(),
        ensures
            r.first == first,
            r.allocated_len == allocated_len,
            r.no_fat_chain == no_fat_chain,
            r.cluster_size == vol.layout.boot.cluster_bytes(),
            r.cluster_size > 0,
    {
        proof {
            lemma_unit_sizes(vol.layout.boot);
        }
        ExfatClusterMap {
            first,
            no_fat_chain,
            allocated_len,
            cluster_size: vol.layout.boot.bytes_per_cluster(),
        }
    }

    /// Walk to the chain's last cluster, bounded by the volume's cluster
    /// count so a corrupt cyclic chain errors instead of looping forever.
    fn walk_to_tail<D: Device>(vol: &ExfatVfs<D>, first: u32) -> (r: Result<u32, FsError<D::Error>>)
        requires
            vol.wf(),
        ensures
            reads_as(r, vol.layout.tail_of(vol.dev.contents(), first, 0), vol.dev.reliable()),
    {
        let ghost img = vol.dev.contents();
        let mut c: u32 = first;
        let mut steps: u32 = 0;
        loop
            invariant
                vol.wf(),
                img == vol.dev.contents(),
                steps <= vol.layout.boot.cluster_count,
                vol.layout.tail_of(img, first, 0) == vol.layout.tail_of(img, c, steps as int),
            decreases vol.layout.boot.cluster_count - steps,
        {
            match vol.next_cluster(c, false) {
                Err(e) => {
                    return Err(e);
                },
                Ok(None) => {
                    return Ok(c);
                },
                Ok(Some(n)) => {
                    if steps >= vol.layout.boot.cluster_count {
                        return Err(FsError::Corrupt(CorruptKind::ClusterChain));
                    }
                    steps += 1;
                    c = n;
                },
            }
        }
    }

    /// Write the FAT chain of the contiguous run of `count` clusters.
    fn materialize_fat_chain<D: Device>(vol: &mut ExfatVfs<D>, first: u32, count: u32) -> (r:
        Result<(), FsError<D::Error>>)
        requires
            old(vol).wf(),
            first + count <= u32::MAX + 1,
        ensures
            final(vol).wf(),
            final(vol).keeps(*old(vol)),
            ends_as(
                r,
                old(vol).layout.materialized(old(vol).disk(), first as int, count as int),
                final(vol).disk(),
                old(vol).dev.reliable(),
            ),
    {
        if count == 0 {
            return Ok(());
        }
        let ghost l = vol.layout;
        let ghost start = vol.disk();
        let last: u32 = first + (count - 1);
        let mut c: u32 = first;
        while c < last
            invariant
                vol.wf(),
                vol.keeps(*old(vol)),
                l == old(vol).layout,
                start == old(vol).disk(),
                count > 0,
                last == first + count - 1,
                first <= c <= last,
                l.neighbours_linked(start, first as int, last as int) == l.neighbours_linked(
                    vol.disk(),
                    c as int,
                    last as int,
                ),
            decreases last - c,
        {
            match vol.write_fat_entry(c, c + 1) {
                Ok(_) => {},
                Err(e) => {
                    return Err(e);
                },
            }
            c += 1;
        }
        vol.write_fat_entry(last, FAT_EOC)
    }

    /// Take one free cluster and link it behind `tail`, or start a chain.
    fn take_next<D: Device>(vol: &mut ExfatVfs<D>, tail: Option<u32>) -> (r: Result<
        u32,
        FsError<D::Error>,
    >)
        requires
            old(vol).wf(),
        ensures
            final(vol).wf(),
            final(vol).keeps(*old(vol)),
            ends_as(
                r,
                match tail {
                    None => old(vol).layout.chain_started(old(vol).disk()),
                    Some(t) => old(vol).layout.chain_extended(old(vol).disk(), t),
                },
                final(vol).disk(),
                old(vol).dev.reliable(),
            ),
    {
        let new: u32 = match vol.find_free_cluster() {
            Ok(Some(c)) => c,
            Ok(None) => {
                return Err(FsError::StorageFull);
            },
            Err(e) => {
                return Err(e);
            },
        };
        match vol.mark_cluster_allocated(new) {
            Ok(_) => {},
            Err(e) => {
                return Err(e);
            },
        }
        if let Some(t) = tail {
            match vol.write_fat_entry(t, new) {
                Ok(_) => {},
                Err(e) => {
                    return Err(e);
                },
            }
        }
        match vol.write_fat_entry(new, FAT_EOC) {
            Ok(_) => Ok(new),
            Err(e) => Err(e),
        }
    }

    /// The cluster after `cluster` in this stream.
    pub fn next<D: Device>(&self, vol: &ExfatVfs<D>, cluster: u32) -> (r: Result<
        Option<u32>,
        FileError<D::Error>,
    >)
        requires
            vol.wf(),
            self.wf(vol.layout),
        ensures
            self.no_fat_chain ==> {
                let have = clusters_for(self.allocated_len as int, self.cluster_size as int);
                r == Ok::<Option<u32>, FileError<D::Error>>(
                    if self.first >= 2 && self.first <= cluster && cluster - self.first + 1 < have {
                        Some((cluster + 1) as u32)
                    } else {
                        None
                    },
                )
            },
            !self.no_fat_chain ==> match r {
                Ok(v) => vol.layout.successor(vol.dev.contents(), cluster as int, false) == Ok::<
                    Option<u32>,
                    FsError<()>,
                >(v),
                Err(FileError::Io(_)) => !vol.dev.reliable(),
                Err(e) => {
                    let s = vol.layout.successor(vol.dev.contents(), cluster as int, false);
                    s is Err && e.kind() == file_error_of(s->Err_0)
                },
            },
    {
        if self.no_fat_chain {
            let have: u32 = cluster_count_for(self.allocated_len, self.cluster_size);
            proof {
                lemma_no_clusters_for_nothing(self.cluster_size as int);
            }
            if self.first < 2 || self.allocated_len == 0 || cluster < self.first {
                return Ok(None);
            }
            let index: u32 = cluster - self.first;
            if index + 1 < have {
                return Ok(Some(cluster + 1));
            }
            return Ok(None);
        }
        match vol.next_cluster(cluster, false) {
            Ok(v) => Ok(v),
            Err(e) => Err(FileError::from(e)),
        }
    }

    /// Grow this stream by one cluster; the new last cluster.
    fn grow_by_one<D: Device>(&mut self, vol: &mut ExfatVfs<D>, first: u32, tail: u32) -> (r:
        Result<u32, FsError<D::Error>>)
        requires
            old(vol).wf(),
            old(self).cluster_size > 0,
            old(self).no_fat_chain ==> old(self).run_ok(first as int),
        ensures
            final(vol).wf(),
            final(vol).keeps(*old(vol)),
            final(self).cluster_size == old(self).cluster_size,
            final(self).no_fat_chain ==> *final(self) == *old(self),
            match r {
                Ok(c) => {
                    let run = old(vol).layout.grown_by_one(
                        old(vol).disk(),
                        *old(self),
                        first,
                        tail,
                    );
                    &&& run.out == Ok::<u32, FsError<()>>(c)
                    &&& final(vol).disk() == run.disk
                    &&& *final(self) == run.map
                    &&& run.map == old(self).longer()
                },
                Err(FsError::Io(_)) => !old(vol).dev.reliable(),
                Err(e) => {
                    let run = old(vol).layout.grown_by_one(
                        old(vol).disk(),
                        *old(self),
                        first,
                        tail,
                    );
                    &&& run.out == Err::<u32, FsError<()>>(e.kind())
                    &&& final(vol).disk() == run.disk
                    &&& *final(self) == run.map
                },
            },
    {
        proof {
            reveal(ExfatLayout::grown_by_one);
        }
        let mut end: u32 = tail;
        // Materialize the contiguous run before FAT-linking growth.
        if self.no_fat_chain {
            let count: u32 = cluster_count_for(self.allocated_len, self.cluster_size);
            match Self::materialize_fat_chain(vol, first, count) {
                Ok(_) => {},
                Err(e) => {
                    return Err(e);
                },
            }
            if count > 0 {
                self.no_fat_chain = false;
            }
            end = match Self::walk_to_tail(vol, first) {
                Ok(t) => t,
                Err(e) => {
                    return Err(e);
                },
            };
        }
        match Self::take_next(vol, Some(end)) {
            Ok(c) => {
                self.no_fat_chain = false;
                self.allocated_len = self.allocated_len.saturating_add(self.cluster_size as u64);
                Ok(c)
            },
            Err(e) => Err(e),
        }
    }

    /// Grow this stream to at least `needed_allocated_len` bytes of clusters.
    pub fn extend<D: Device>(
        &mut self,
        vol: &mut ExfatVfs<D>,
        first: Option<u32>,
        tail: Option<u32>,
        needed_allocated_len: u64,
    ) -> (r: Result<ExtendResult, FileError<D::Error>>)
        requires
            old(vol).wf(),
            old(self).wf(old(vol).layout),
            real_cluster(first) matches Some(f) ==> old(self).no_fat_chain ==> old(self).run_ok(
                f as int,
            ),
        ensures
            final(vol).wf(),
            final(vol).keeps(*old(vol)),
            final(self).wf(old(vol).layout),
            final(self).no_fat_chain ==> *final(self) == *old(self),
            r matches Ok(x) ==> final(self).no_fat_chain ==> first == Some(x.first_cluster),
            map_ends_as(
                r,
                old(vol).layout.stream_extended(
                    old(vol).disk(),
                    *old(self),
                    first,
                    tail,
                    needed_allocated_len as int,
                ),
                final(vol).disk(),
                *final(self),
                old(vol).dev.reliable(),
            ),
    {
        let given_tail: Option<u32> = match tail {
            Some(t) => if t >= 2 {
                Some(t)
            } else {
                None
            },
            None => None,
        };
        let mut first_out: u32 = match first {
            Some(f) => if f >= 2 {
                f
            } else {
                0
            },
            None => 0,
        };
        let mut tail_out: u32 = match given_tail {
            Some(t) => t,
            None => first_out,
        };
        if first_out < 2 {
            // Empty file: allocate first cluster.
            let new: u32 = match Self::take_next(vol, None) {
                Ok(c) => c,
                Err(e) => {
                    return Err(FileError::from(e));
                },
            };
            first_out = new;
            tail_out = new;
            self.first = new;
            self.no_fat_chain = false;
            self.allocated_len = self.cluster_size as u64;
        } else if !self.no_fat_chain && given_tail.is_none() && self.allocated_len
            < needed_allocated_len {
            // Growing an existing FAT-chained file with an unknown tail: walk
            // to the true end of the chain before linking. Linking from
            // `first` would overwrite its FAT cell and orphan every cluster
            // after it.
            tail_out = match Self::walk_to_tail(vol, first_out) {
                Ok(t) => t,
                Err(e) => {
                    return Err(FileError::from(e));
                },
            };
        }
        match self.grow_to(vol, first_out, tail_out, needed_allocated_len) {
            Ok(x) => Ok(x),
            Err(e) => Err(FileError::from(e)),
        }
    }

    /// Grow this stream cluster by cluster to `needed` bytes.
    fn grow_to<D: Device>(&mut self, vol: &mut ExfatVfs<D>, first: u32, tail: u32, needed: u64) -> (r:
        Result<ExtendResult, FsError<D::Error>>)
        requires
            old(vol).wf(),
            old(self).cluster_size > 0,
            old(self).no_fat_chain ==> old(self).run_ok(first as int),
        ensures
            final(vol).wf(),
            final(vol).keeps(*old(vol)),
            final(self).cluster_size == old(self).cluster_size,
            final(self).no_fat_chain ==> *final(self) == *old(self),
            r matches Ok(x) ==> x.first_cluster == first,
            match r {
                Ok(x) => {
                    let run = old(vol).layout.grown(
                        old(vol).disk(),
                        *old(self),
                        first,
                        tail,
                        needed as int,
                    );
                    &&& run.out == Ok::<ExtendResult, FsError<()>>(x)
                    &&& final(vol).disk() == run.disk
                    &&& *final(self) == run.map
                },
                Err(FsError::Io(_)) => !old(vol).dev.reliable(),
                Err(e) => {
                    let run = old(vol).layout.grown(
                        old(vol).disk(),
                        *old(self),
                        first,
                        tail,
                        needed as int,
                    );
                    &&& run.out == Err::<ExtendResult, FsError<()>>(e.kind())
                    &&& final(vol).disk() == run.disk
                    &&& *final(self) == run.map
                },
            },
    {
        let ghost l = vol.layout;
        let ghost whole = l.grown(vol.disk(), *self, first, tail, needed as int);
        let mut end: u32 = tail;
        while self.allocated_len < needed
            invariant
                vol.wf(),
                vol.keeps(*old(vol)),
                l == old(vol).layout,
                whole == l.grown(old(vol).disk(), *old(self), first, tail, needed as int),
                whole == l.grown(vol.disk(), *self, first, end, needed as int),
                self.cluster_size > 0,
                self.cluster_size == old(self).cluster_size,
                self.no_fat_chain ==> *self == *old(self),
                self.no_fat_chain ==> self.run_ok(first as int),
            decreases
                    (if self.allocated_len >= needed {
                        0
                    } else {
                        needed - self.allocated_len
                    }),
        {
            end = match self.grow_by_one(vol, first, end) {
                Ok(c) => c,
                Err(e) => {
                    return Err(e);
                },
            };
        }
        Ok(ExtendResult { first_cluster: first, tail: end })
    }

    /// End the chain from `first` after `keep` clusters and free the rest.
    fn cut_chain<D: Device>(vol: &mut ExfatVfs<D>, first: u32, keep: u32, freed: u32) -> (r: Result<
        (),
        FsError<D::Error>,
    >)
        requires
            old(vol).wf(),
            keep >= 1,
        ensures
            final(vol).wf(),
            final(vol).keeps(*old(vol)),
            ends_as(
                r,
                old(vol).layout.chain_cut(old(vol).disk(), first, keep as int, freed as int),
                final(vol).disk(),
                old(vol).dev.reliable(),
            ),
    {
        // Walk keep-1 steps, EOC last kept, free rest.
        let ghost l = vol.layout;
        let ghost img = vol.dev.contents();
        let mut cur: u32 = first;
        let mut left: u32 = keep - 1;
        while left > 0
            invariant
                *vol == *old(vol),
                vol.wf(),
                l == vol.layout,
                img == vol.dev.contents(),
                l.steps_along(img, first, keep - 1) == l.steps_along(img, cur, left as int),
            decreases left,
        {
            match vol.next_cluster(cur, false) {
                Err(e) => {
                    return Err(e);
                },
                Ok(Some(n)) => {
                    cur = n;
                    left -= 1;
                },
                Ok(None) => {
                    left = 0;
                },
            }
        }
        let rest = match vol.next_cluster(cur, false) {
            Ok(rest) => rest,
            Err(e) => {
                return Err(e);
            },
        };
        match vol.write_fat_entry(cur, FAT_EOC) {
            Ok(_) => {},
            Err(e) => {
                return Err(e);
            },
        }
        match rest {
            Some(first_free) => vol.free_cluster_chain(first_free, freed, false),
            None => Ok(()),
        }
    }

    /// Free everything past the first `keep_len` bytes, in whole clusters.
    pub fn free_tail<D: Device>(&mut self, vol: &mut ExfatVfs<D>, first: u32, keep_len: u64) -> (r:
        Result<FreeTailResult, FileError<D::Error>>)
        requires
            old(vol).wf(),
            old(self).wf(old(vol).layout),
            old(self).no_fat_chain && first >= 2 ==> old(self).run_ok(first as int),
        ensures
            final(vol).wf(),
            final(vol).keeps(*old(vol)),
            final(self).wf(old(vol).layout),
            final(self).no_fat_chain ==> old(self).no_fat_chain && clusters_for(
                final(self).allocated_len as int,
                final(self).cluster_size as int,
            ) <= clusters_for(old(self).allocated_len as int, old(self).cluster_size as int),
            map_ends_as(
                r,
                old(vol).layout.tail_freed(
                    old(vol).disk(),
                    *old(self),
                    first,
                    keep_len as int,
                ),
                final(vol).disk(),
                *final(self),
                old(vol).dev.reliable(),
            ),
    {
        let cs: u64 = self.cluster_size as u64;
        proof {
            lemma_no_clusters_for_nothing(self.cluster_size as int);
        }
        if first < 2 {
            self.allocated_len = 0;
            return Ok(FreeTailResult { first_cluster: 0 });
        }
        let have: u32 = cluster_count_for(self.allocated_len, self.cluster_size);
        let keep: u32 = cluster_count_for(keep_len, self.cluster_size);
        if have <= keep {
            return Ok(FreeTailResult { first_cluster: first });
        }
        if keep == 0 {
            match vol.free_cluster_chain(first, have, self.no_fat_chain) {
                Ok(_) => {},
                Err(e) => {
                    return Err(FileError::from(e));
                },
            }
            self.allocated_len = 0;
            // NoFatChain=1 with FirstCluster=0 must not be persisted.
            self.no_fat_chain = false;
            return Ok(FreeTailResult { first_cluster: 0 });
        }
        let freed = if self.no_fat_chain {
            vol.free_cluster_chain(first + keep, have - keep, true)
        } else {
            Self::cut_chain(vol, first, keep, have - keep)
        };
        match freed {
            Ok(_) => {},
            Err(e) => {
                return Err(FileError::from(e));
            },
        }
        proof {
            assert(keep as int * (cs as int) <= 0xFFFF_FFFF * 0xFFFF_FFFF) by (nonlinear_arith)
                requires
                    0 <= keep <= 0xFFFF_FFFF,
                    0 <= cs <= 0xFFFF_FFFF,
            ;
            lemma_whole_clusters(keep as int, cs as int);
        }
        self.allocated_len = keep as u64 * cs;
        Ok(FreeTailResult { first_cluster: first })
    }

    /// Bytes per cluster.
    pub fn cluster_size(&self) -> (r: u32)
        ensures
            r == self.cluster_size,
    {
        self.cluster_size
    }

    /// Byte offset of `cluster` on the device.
    pub fn cluster_to_offset<D: Device>(&self, vol: &ExfatVfs<D>, cluster: u32) -> (r: u64)
        requires
            vol.wf(),
        ensures
            r == vol.layout.boot.cluster_pos(cluster as int),
    {
        vol.layout.boot.cluster_offset(cluster)
    }

    /// Whether the stream is contiguous.
    pub fn no_fat_chain(&self) -> (r: bool)
        ensures
            r == self.no_fat_chain,
    {
        self.no_fat_chain
    }

    /// Allocated bytes of the stream.
    pub fn allocated_len(&self) -> (r: u64)
        ensures
            r == self.allocated_len,
    {
        self.allocated_len
    }
}

/// Whole clusters, counted.
pub proof fn lemma_whole_clusters(n: int, cluster_bytes: int)
    requires
        0 <= n <= u32::MAX,
        cluster_bytes > 0,
    ensures
        clusters_for(n * cluster_bytes, cluster_bytes) == n,
{
    vstd::arithmetic::div_mod::lemma_fundamental_div_mod_converse(
        n * cluster_bytes + cluster_bytes - 1,
        cluster_bytes,
        n,
        cluster_bytes - 1,
    );
}

/// Nothing occupies no cluster.
proof fn lemma_no_clusters_for_nothing(cluster_bytes: int)
    requires
        cluster_bytes > 0,
    ensures
        clusters_for(0, cluster_bytes) == 0,
{
    vstd::arithmetic::div_mod::lemma_fundamental_div_mod_converse(
        cluster_bytes - 1,
        cluster_bytes,
        0,
        cluster_bytes - 1,
    );
}

} // verus!
