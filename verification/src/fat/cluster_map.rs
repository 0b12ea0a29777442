//! [`FatClusterMap`]: FAT-chain cluster geometry for one open stream.

use vstd::prelude::*;

use super::fs::FatVfs;
use super::layout::{
    fat_ends_as, fat_failed, lemma_cluster_size, FatDisk, FatLayout, FatRun, FatWrite,
};
use crate::device::Device;
use crate::error::{file_error_of, CorruptKind, FileError, FsError};
use crate::exfat::cluster_map::real_cluster;
use crate::exfat::layout::{clusters_for, reads_as};
use crate::num::{ceil_div, div_ceil_u64};
use crate::vfs::{ExtendResult, FreeTailResult};

verus! {

/// Cluster map for classic FAT (always chained; never NoFatChain).
#[derive(Debug, Clone, Copy, PartialEq, Eq, Structural)]
pub struct FatClusterMap {
    pub allocated_len: u64,
}

/// How a change of the map ends: its result, the disk and the allocated
/// length it leaves.
pub struct FatMapRun<T> {
    pub out: Result<T, FsError<()>>,
    pub disk: FatDisk,
    pub allocated_len: u64,
}

/// `r`, the disk and the map are what `run` says.
pub open spec fn fat_map_ends_as<T, E>(
    r: Result<T, FileError<E>>,
    run: FatMapRun<T>,
    after: FatDisk,
    map: FatClusterMap,
    reliable: bool,
) -> bool {
    match r {
        Ok(v) => {
            &&& run.out == Ok::<T, FsError<()>>(v)
            &&& after == run.disk
            &&& map.allocated_len == run.allocated_len
        },
        Err(FileError::Io(_)) => !reliable,
        Err(e) => {
            &&& run.out is Err
            &&& e.kind() == file_error_of(run.out->Err_0)
            &&& after == run.disk
            &&& map.allocated_len == run.allocated_len
        },
    }
}

/// `r` and the map are what `run` says, and so is the disk if `r` is `Ok`, unless
/// the storage failed; after an error the disk is so if the storage never fails.
pub open spec fn fat_map_comes_to<T, E>(
    r: Result<T, FileError<E>>,
    run: FatMapRun<T>,
    after: FatDisk,
    map: FatClusterMap,
    reliable: bool,
) -> bool {
    match r {
        Ok(v) => {
            &&& run.out == Ok::<T, FsError<()>>(v)
            &&& after == run.disk
            &&& map.allocated_len == run.allocated_len
        },
        Err(FileError::Io(_)) => !reliable,
        Err(e) => {
            &&& run.out is Err
            &&& e.kind() == file_error_of(run.out->Err_0)
            &&& reliable ==> after == run.disk
            &&& map.allocated_len == run.allocated_len
        },
    }
}

/// Bytes of whole clusters held by a file. An empty file with a first
/// cluster holds that one.
pub open spec fn fat_allocated(cs: int, file_size: int, first_cluster: int) -> int {
    if first_cluster < 2 {
        0
    } else if file_size == 0 {
        cs
    } else {
        ceil_div(file_size, cs) * cs
    }
}

impl FatLayout {
    /// The last cluster of the chain that `c` belongs to. A walk longer than
    /// the volume's cluster count is cyclic.
    pub open spec fn tail_of(self, img: Seq<u8>, c: u32, steps: int) -> Result<u32, FsError<()>>
        decreases self.props.max_cluster - steps,
    {
        match self.successor(img, c as int) {
            Err(e) => Err(e),
            Ok(None) => Ok(c),
            Ok(Some(n)) => if steps + 1 > self.props.max_cluster {
                Err(FsError::Corrupt(CorruptKind::ClusterChain))
            } else {
                self.tail_of(img, n, steps + 1)
            },
        }
    }

    /// The cluster `n` steps along the chain from `c`, or the last one before.
    pub open spec fn steps_along(self, img: Seq<u8>, c: u32, n: int) -> Result<u32, FsError<()>>
        decreases n,
    {
        if n <= 0 {
            Ok(c)
        } else {
            match self.successor(img, c as int) {
                Err(e) => Err(e),
                Ok(None) => Ok(c),
                Ok(Some(next)) => self.steps_along(img, next, n - 1),
            }
        }
    }

    /// Where new clusters are linked: behind the known tail, else behind the
    /// end of the chain, else nowhere.
    pub open spec fn link_point(self, img: Seq<u8>, first: Option<u32>, tail: Option<u32>) -> Result<
        Option<u32>,
        FsError<()>,
    > {
        match (real_cluster(tail), real_cluster(first)) {
            (Some(t), _) => Ok(Some(t)),
            (None, Some(f)) => match self.tail_of(img, f, 0) {
                Err(e) => Err(e),
                Ok(t) => Ok(Some(t)),
            },
            (None, None) => Ok(None),
        }
    }

    /// Number of clusters to allocate.
    pub open spec fn clusters_wanted(self, allocated: int, linked: bool, needed: int) -> int {
        let cs = self.props.cluster_size as int;
        let bytes = if !linked {
            if needed < cs {
                cs
            } else {
                needed
            }
        } else if needed < allocated {
            0
        } else {
            needed - allocated
        };
        if clusters_for(bytes, cs) < 1 {
            1
        } else {
            clusters_for(bytes, cs)
        }
    }

    /// Extending a file to `needed` allocated bytes.
    pub open spec fn file_extended(
        self,
        d: FatDisk,
        allocated: u64,
        first: Option<u32>,
        tail: Option<u32>,
        needed: int,
    ) -> FatMapRun<ExtendResult> {
        let cs = self.props.cluster_size as int;
        let f = real_cluster(first);
        if needed <= allocated && f is Some {
            match tail {
                Some(t) => FatMapRun {
                    out: Ok(ExtendResult { first_cluster: f->0, tail: t }),
                    disk: d,
                    allocated_len: allocated,
                },
                None => match self.tail_of(d.img, f->0, 0) {
                    Err(e) => FatMapRun { out: Err(e), disk: d, allocated_len: allocated },
                    Ok(t) => FatMapRun {
                        out: Ok(ExtendResult { first_cluster: f->0, tail: t }),
                        disk: d,
                        allocated_len: allocated,
                    },
                },
            }
        } else {
            match self.link_point(d.img, first, tail) {
                Err(e) => FatMapRun { out: Err(e), disk: d, allocated_len: allocated },
                Ok(link) => {
                    let n = self.clusters_wanted(allocated as int, link is Some, needed);
                    let a = self.allocated(d, n, link);
                    match a.out {
                        Err(e) => FatMapRun { out: Err(e), disk: a.disk, allocated_len: allocated },
                        Ok(new) => FatMapRun {
                            out: Ok(
                                ExtendResult {
                                    first_cluster: match f {
                                        Some(c) => c,
                                        None => new[0],
                                    },
                                    tail: new.last(),
                                },
                            ),
                            disk: a.disk,
                            allocated_len: (if link is Some {
                                allocated + n * cs
                            } else {
                                n * cs
                            }) as u64,
                        },
                    }
                },
            }
        }
    }

    /// Ending a file's chain after the clusters that hold `keep_len` bytes,
    /// and freeing the rest. An empty file keeps one cluster.
    pub open spec fn file_cut(self, d: FatDisk, allocated: u64, first: u32, keep_len: int) -> FatMapRun<
        FreeTailResult,
    > {
        let cs = self.props.cluster_size as int;
        let keep = if keep_len == 0 {
            1
        } else {
            clusters_for(keep_len, cs)
        };
        if first < 2 {
            FatMapRun { out: Ok(FreeTailResult { first_cluster: 0 }), disk: d, allocated_len: 0 }
        } else {
            let c = self.chain_cut(d, first, keep);
            match c.out {
                Err(e) => FatMapRun { out: Err(e), disk: c.disk, allocated_len: allocated },
                Ok(_) => FatMapRun {
                    out: Ok(FreeTailResult { first_cluster: first }),
                    disk: c.disk,
                    allocated_len: (keep * cs) as u64,
                },
            }
        }
    }

    /// Ending the chain from `first` after `keep` clusters and freeing the
    /// rest.
    pub open spec fn chain_cut(self, d: FatDisk, first: u32, keep: int) -> FatRun<()> {
        match self.steps_along(d.img, first, keep - 1) {
            Err(e) => fat_failed(e, d),
            Ok(cur) => match self.successor(d.img, cur as int) {
                Err(e) => fat_failed(e, d),
                Ok(rest) => {
                    let w = self.fat_written(d, cur, FatWrite::End);
                    match (w.out, rest) {
                        (Ok(_), Some(r)) => self.chain_freed(w.disk, r, 0),
                        _ => w,
                    }
                },
            },
        }
    }
}

/// Clusters for some bytes hold little more than those bytes.
proof fn lemma_clusters_bound(bytes: int, cs: int)
    requires
        bytes >= 0,
        cs >= 1,
    ensures
        clusters_for(bytes, cs) * cs <= bytes + cs,
{
    let q = (bytes + cs - 1) / cs;
    let n = clusters_for(bytes, cs);
    assert(n * cs <= bytes + cs) by (nonlinear_arith)
        requires
            q == (bytes + cs - 1) / cs,
            n <= q,
            cs >= 1,
    ;
}

/// More bytes take at least as many clusters.
proof fn lemma_clusters_positive(bytes: int, cs: int)
    requires
        bytes >= 1,
        cs >= 1,
    ensures
        clusters_for(bytes, cs) >= 1,
{
    vstd::arithmetic::div_mod::lemma_fundamental_div_mod(bytes + cs - 1, cs);
    vstd::arithmetic::div_mod::lemma_mod_bound(bytes + cs - 1, cs);
    let q = (bytes + cs - 1) / cs;
    assert(q >= 1) by (nonlinear_arith)
        requires
            bytes + cs - 1 == cs * q + (bytes + cs - 1) % cs,
            (bytes + cs - 1) % cs < cs,
            bytes >= 1,
            cs >= 1,
    ;
}

impl FatClusterMap {
    pub open spec fn wf(self) -> bool {
        self.allocated_len <= 0x1000_0000_0000_0000
    }

    pub fn new<D: Device>(fs: &FatVfs<D>, file_size: u32, first_cluster: u32) -> (r: Self)
        requires
            fs.wf(),
        ensures
            r.allocated_len == fat_allocated(
                fs.layout.props.cluster_size as int,
                file_size as int,
                first_cluster as int,
            ),
            r.wf(),
    {
        proof {
            lemma_cluster_size(fs.layout);
        }
        let cs: u64 = fs.layout.props.cluster_size as u64;
        let allocated_len: u64 = if first_cluster < 2 {
            0
        } else if file_size == 0 {
            cs
        } else {
            let n: u64 = div_ceil_u64(file_size as u64, cs);
            proof {
                let (s, c, q) = (file_size as int, cs as int, n as int);
                vstd::arithmetic::div_mod::lemma_fundamental_div_mod(s + c - 1, c);
                vstd::arithmetic::div_mod::lemma_mod_bound(s + c - 1, c);
                assert(0 <= q * c <= s + c - 1) by (nonlinear_arith)
                    requires
                        s + c - 1 == c * q + (s + c - 1) % c,
                        0 <= (s + c - 1) % c,
                        q >= 0,
                        c >= 0,
                ;
            }
            n * cs
        };
        FatClusterMap { allocated_len }
    }

    /// Walk to the chain's last cluster, bounded by the volume's cluster
    /// count so a corrupt cyclic chain errors instead of looping forever.
    fn walk_to_tail<D: Device>(fs: &FatVfs<D>, first: u32) -> (r: Result<u32, FsError<D::Error>>)
        requires
            fs.wf(),
        ensures
            reads_as(r, fs.layout.tail_of(fs.dev.contents(), first, 0), fs.dev.reliable()),
    {
        let ghost img = fs.dev.contents();
        let mut c: u32 = first;
        let mut steps: u32 = 0;
        loop
            invariant
                fs.wf(),
                img == fs.dev.contents(),
                steps <= fs.layout.props.max_cluster,
                fs.layout.tail_of(img, first, 0) == fs.layout.tail_of(img, c, steps as int),
            decreases fs.layout.props.max_cluster - steps,
        {
            match fs.next_cluster(c) {
                Err(e) => {
                    return Err(e);
                },
                Ok(None) => {
                    return Ok(c);
                },
                Ok(Some(n)) => {
                    if steps >= fs.layout.props.max_cluster {
                        return Err(FsError::Corrupt(CorruptKind::ClusterChain));
                    }
                    steps += 1;
                    c = n;
                },
            }
        }
    }

    /// The cluster after `cluster`.
    pub fn next<D: Device>(&self, fs: &FatVfs<D>, cluster: u32) -> (r: Result<
        Option<u32>,
        FileError<D::Error>,
    >)
        requires
            fs.wf(),
        ensures
            match r {
                Ok(v) => fs.layout.successor(fs.dev.contents(), cluster as int) == Ok::<
                    Option<u32>,
                    FsError<()>,
                >(v),
                Err(FileError::Io(_)) => !fs.dev.reliable(),
                Err(e) => {
                    let s = fs.layout.successor(fs.dev.contents(), cluster as int);
                    s is Err && e.kind() == file_error_of(s->Err_0)
                },
            },
    {
        match fs.next_cluster(cluster) {
            Ok(v) => Ok(v),
            Err(e) => Err(FileError::from(e)),
        }
    }

    /// Link new clusters from the true chain tail. When the caller has no
    /// cached tail, walk to the end of the chain — linking from `first`
    /// would overwrite its FAT cell and orphan every cluster after it.
    fn find_link<D: Device>(fs: &FatVfs<D>, first: Option<u32>, tail: Option<u32>) -> (r: Result<
        Option<u32>,
        FsError<D::Error>,
    >)
        requires
            fs.wf(),
        ensures
            reads_as(
                r,
                fs.layout.link_point(fs.dev.contents(), first, tail),
                fs.dev.reliable(),
            ),
    {
        if let Some(t) = tail {
            if t >= 2 {
                return Ok(Some(t));
            }
        }
        if let Some(f) = first {
            if f >= 2 {
                return match Self::walk_to_tail(fs, f) {
                    Ok(t) => Ok(Some(t)),
                    Err(e) => Err(e),
                };
            }
        }
        Ok(None)
    }

    /// Grow this file to at least `needed_allocated_len` bytes of clusters.
    pub fn extend<D: Device>(
        &mut self,
        fs: &mut FatVfs<D>,
        first: Option<u32>,
        tail: Option<u32>,
        needed_allocated_len: u64,
    ) -> (r: Result<ExtendResult, FileError<D::Error>>)
        requires
            old(fs).wf(),
            old(self).wf(),
        ensures
            final(fs).wf(),
            final(fs).keeps(*old(fs)),
            final(self).allocated_len <= old(self).allocated_len || final(self).allocated_len
                <= needed_allocated_len + 0x20_0000 || final(self).allocated_len
                <= old(self).allocated_len + 0x20_0000,
            fat_map_comes_to(
                r,
                old(fs).layout.file_extended(
                    old(fs).disk(),
                    old(self).allocated_len,
                    first,
                    tail,
                    needed_allocated_len as int,
                ),
                final(fs).disk(),
                *final(self),
                old(fs).dev.reliable(),
            ),
    {
        proof {
            lemma_cluster_size(fs.layout);
        }
        let cs: u64 = fs.layout.props.cluster_size as u64;
        let first_out: Option<u32> = match first {
            Some(f) => if f >= 2 {
                Some(f)
            } else {
                None
            },
            None => None,
        };
        if needed_allocated_len <= self.allocated_len {
            if let Some(f) = first_out {
                let t: u32 = match tail {
                    Some(t) => t,
                    None => match Self::walk_to_tail(fs, f) {
                        Ok(t) => t,
                        Err(e) => {
                            return Err(FileError::from(e));
                        },
                    },
                };
                return Ok(ExtendResult { first_cluster: f, tail: t });
            }
        }
        let link_from: Option<u32> = match Self::find_link(fs, first, tail) {
            Ok(link) => link,
            Err(e) => {
                return Err(FileError::from(e));
            },
        };
        // If empty (no first), allocate enough for needed_allocated_len from 0.
        let bytes_needed: u64 = if link_from.is_none() {
            if needed_allocated_len < cs {
                cs
            } else {
                needed_allocated_len
            }
        } else {
            needed_allocated_len.saturating_sub(self.allocated_len)
        };
        let counted: u32 = crate::exfat::layout::cluster_count_for(
            bytes_needed,
            fs.layout.props.cluster_size,
        );
        let n: u32 = if counted < 1 {
            1
        } else {
            counted
        };
        assert(n == fs.layout.clusters_wanted(
            self.allocated_len as int,
            link_from is Some,
            needed_allocated_len as int,
        ));
        let new: Vec<u32> = match fs.allocate_clusters(n, link_from) {
            Ok(new) => new,
            Err(e) => {
                return Err(FileError::from(e));
            },
        };
        let head: u32 = match first_out {
            Some(f) => f,
            None => new[0],
        };
        let last: u32 = new[new.len() - 1];
        proof {
            let (a, b) = (n as int, cs as int);
            assert(0 <= a * b <= 0xFFFF_FFFF * 0x10_0000) by (nonlinear_arith)
                requires
                    0 <= a <= 0xFFFF_FFFF,
                    0 <= b <= 0x10_0000,
            ;
            lemma_clusters_bound(bytes_needed as int, b);
        }
        self.allocated_len = if link_from.is_some() {
            self.allocated_len + n as u64 * cs
        } else {
            n as u64 * cs
        };
        Ok(ExtendResult { first_cluster: head, tail: last })
    }

    /// End the chain from `first` after `keep` clusters and free the rest.
    fn cut_chain<D: Device>(fs: &mut FatVfs<D>, first: u32, keep: u32) -> (r: Result<
        (),
        FsError<D::Error>,
    >)
        requires
            old(fs).wf(),
            keep >= 1,
        ensures
            final(fs).wf(),
            final(fs).keeps(*old(fs)),
            fat_ends_as(
                r,
                old(fs).layout.chain_cut(old(fs).disk(), first, keep as int),
                final(fs).disk(),
                old(fs).dev.reliable(),
            ),
    {
        let ghost l = fs.layout;
        let ghost img = fs.dev.contents();
        let mut cur: u32 = first;
        let mut left: u32 = keep - 1;
        while left > 0
            invariant
                *fs == *old(fs),
                fs.wf(),
                l == fs.layout,
                img == fs.dev.contents(),
                l.steps_along(img, first, keep - 1) == l.steps_along(img, cur, left as int),
            decreases left,
        {
            match fs.next_cluster(cur) {
                Err(e) => {
                    return Err(e);
                },
                Ok(Some(n)) => {
                    cur = n;
                    left -= 1;
                },
                Ok(None) => {
                    left = 0;
                },
            }
        }
        let rest = match fs.next_cluster(cur) {
            Ok(rest) => rest,
            Err(e) => {
                return Err(e);
            },
        };
        match fs.write_fat(cur, FatWrite::End) {
            Ok(_) => {},
            Err(e) => {
                return Err(e);
            },
        }
        match rest {
            Some(c) => fs.free_cluster_chain(c),
            None => Ok(()),
        }
    }

    /// Free everything past the first `keep_len` bytes, in whole clusters.
    /// FAT empty files keep one cluster.
    pub fn free_tail<D: Device>(&mut self, fs: &mut FatVfs<D>, first: u32, keep_len: u64) -> (r:
        Result<FreeTailResult, FileError<D::Error>>)
        requires
            old(fs).wf(),
        ensures
            final(fs).wf(),
            final(fs).keeps(*old(fs)),
            final(self).allocated_len <= old(self).allocated_len || final(self).allocated_len
                <= keep_len + 0x20_0000,
            fat_map_ends_as(
                r,
                old(fs).layout.file_cut(
                    old(fs).disk(),
                    old(self).allocated_len,
                    first,
                    keep_len as int,
                ),
                final(fs).disk(),
                *final(self),
                old(fs).dev.reliable(),
            ),
    {
        proof {
            lemma_cluster_size(fs.layout);
        }
        let cs: u64 = fs.layout.props.cluster_size as u64;
        if first < 2 {
            self.allocated_len = 0;
            return Ok(FreeTailResult { first_cluster: 0 });
        }
        let keep: u32 = if keep_len == 0 {
            1
        } else {
            crate::exfat::layout::cluster_count_for(keep_len, fs.layout.props.cluster_size)
        };
        proof {
            if keep_len > 0 {
                lemma_clusters_positive(keep_len as int, cs as int);
            }
            lemma_clusters_bound(keep_len as int, cs as int);
            let (a, b) = (keep as int, cs as int);
            assert(0 <= a * b <= 0xFFFF_FFFF * 0x10_0000) by (nonlinear_arith)
                requires
                    0 <= a <= 0xFFFF_FFFF,
                    0 <= b <= 0x10_0000,
            ;
        }
        match Self::cut_chain(fs, first, keep) {
            Ok(_) => {},
            Err(e) => {
                return Err(FileError::from(e));
            },
        }
        self.allocated_len = keep as u64 * cs;
        Ok(FreeTailResult { first_cluster: first })
    }

    /// Bytes per cluster.
    pub fn cluster_size<D: Device>(&self, fs: &FatVfs<D>) -> (r: u32)
        ensures
            r == fs.layout.props.cluster_size,
    {
        fs.layout.props.cluster_size
    }

    /// Byte offset of `cluster` on the device.
    pub fn cluster_to_offset<D: Device>(&self, fs: &FatVfs<D>, cluster: u32) -> (r: u64)
        requires
            fs.wf(),
        ensures
            r == fs.layout.cluster_pos(cluster as int),
    {
        fs.layout.cluster_offset(cluster)
    }

    /// Classic FAT files are always chained.
    pub fn no_fat_chain(&self) -> (r: bool)
        ensures
            !r,
    {
        false
    }

    /// Allocated bytes of the file.
    pub fn allocated_len(&self) -> (r: u64)
        ensures
            r == self.allocated_len,
    {
        self.allocated_len
    }
}

} // verus!
