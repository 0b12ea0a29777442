//! Directory-extent I/O: entry-set append/locate/unlink/remove.
//!
//! A directory is treated as one logical byte stream (its clusters
//! concatenated in walk order). Entry sets may straddle cluster
//! boundaries, so every read/write goes through [`SetLoc`]-based helpers
//! that scatter across the boundary instead of assuming a contiguous
//! on-disk range.

use vstd::prelude::*;

use super::direntry::{DirExtent, SetLoc};
use super::layout::{beyond_device, ends_as, lemma_unit_sizes, read_of, Disk, ExfatLayout, Run};
use super::volume::ExfatVfs;
use crate::device::Device;
use crate::error::{CorruptKind, FsError};

verus! {

impl SetLoc {
    /// The location names a whole File + Stream Extension pair, and its end
    /// is a 64-bit offset.
    pub open spec fn wf(self) -> bool {
        self.len >= 64 && self.logical + self.len <= u64::MAX
    }
}

impl DirExtent {
    pub open spec fn wf(self) -> bool {
        self.parent_entry matches Some(loc) ==> loc.wf()
    }
}

impl ExfatLayout {
    /// The clusters of a directory from `cur` on, `walked` clusters having
    /// been counted. A contiguous directory ends after `max` clusters; a
    /// chain that outlasts the volume's cluster count is cyclic.
    pub open spec fn dir_walk(
        self,
        img: Seq<u8>,
        cur: Option<u32>,
        no_fat_chain: bool,
        max: int,
        walked: int,
    ) -> Result<Seq<u32>, FsError<()>>
        decreases
            (if no_fat_chain {
                max
            } else {
                self.boot.cluster_count as int
            }) - walked,
    {
        match cur {
            None => Ok(seq![]),
            Some(c) => {
                if no_fat_chain && walked >= max {
                    Ok(seq![])
                } else if !no_fat_chain && walked >= self.boot.cluster_count {
                    Err(FsError::Corrupt(CorruptKind::ClusterChain))
                } else {
                    match self.successor(img, c as int, no_fat_chain) {
                        Err(e) => Err(e),
                        Ok(next) => match self.dir_walk(img, next, no_fat_chain, max, walked + 1) {
                            Err(e) => Err(e),
                            Ok(rest) => Ok(seq![c] + rest),
                        },
                    }
                }
            },
        }
    }

    /// The clusters of a directory, in walk order.
    pub open spec fn dir_clusters(
        self,
        img: Seq<u8>,
        first: u32,
        no_fat_chain: bool,
        max: int,
    ) -> Result<Seq<u32>, FsError<()>> {
        self.dir_walk(img, Some(first), no_fat_chain, max, 0)
    }

    /// Every cluster of the list lies within the device.
    pub open spec fn on_device(self, img: Seq<u8>, clusters: Seq<u32>) -> bool {
        forall|k: int|
            0 <= k < clusters.len() ==> self.boot.cluster_pos((#[trigger] clusters[k]) as int)
                + self.boot.cluster_bytes() <= img.len()
    }

    /// Device offset of byte `pos` of the stream that `clusters` form.
    pub open spec fn stream_pos(self, clusters: Seq<u32>, pos: int) -> int {
        self.boot.cluster_pos(clusters[pos / self.boot.cluster_bytes()] as int) + pos
            % self.boot.cluster_bytes()
    }

    /// The bytes of the stream that `clusters` form.
    pub open spec fn stream_of(self, img: Seq<u8>, clusters: Seq<u32>) -> Seq<u8> {
        Seq::new(
            (clusters.len() * self.boot.cluster_bytes()) as nat,
            |i: int| img[self.stream_pos(clusters, i)],
        )
    }

    /// Reading a whole directory: its clusters and their bytes.
    pub open spec fn dir_read(
        self,
        img: Seq<u8>,
        first: u32,
        no_fat_chain: bool,
        max: int,
    ) -> Result<(Seq<u32>, Seq<u8>), FsError<()>> {
        match self.dir_clusters(img, first, no_fat_chain, max) {
            Err(e) => Err(e),
            Ok(clusters) => if self.on_device(img, clusters) {
                Ok((clusters, self.stream_of(img, clusters)))
            } else {
                Err(beyond_device())
            },
        }
    }

    /// How many of `len` stream bytes from `pos` on lie in one cluster.
    pub open spec fn span_at(self, pos: int, len: int) -> int {
        let room = self.boot.cluster_bytes() - pos % self.boot.cluster_bytes();
        if room < len {
            room
        } else {
            len
        }
    }

    /// Writing `bytes` at byte `logical` of the stream that `clusters` form,
    /// cluster by cluster.
    pub open spec fn stream_written(
        self,
        d: Disk,
        clusters: Seq<u32>,
        logical: int,
        bytes: Seq<u8>,
    ) -> Run<()>
        decreases bytes.len(),
    {
        let chunk = self.span_at(logical, bytes.len() as int);
        if bytes.len() == 0 || chunk <= 0 {
            Run { out: Ok(()), disk: d }
        } else if logical / self.boot.cluster_bytes() >= clusters.len() {
            Run { out: Err(FsError::Corrupt(CorruptKind::DirEntry)), disk: d }
        } else {
            let w = self.written(d, self.stream_pos(clusters, logical), bytes.subrange(0, chunk));
            match w.out {
                Err(e) => w,
                Ok(_) => self.stream_written(
                    w.disk,
                    clusters,
                    logical + chunk,
                    bytes.subrange(chunk, bytes.len() as int),
                ),
            }
        }
    }

    /// Reading `len` bytes at byte `logical` of the stream that `clusters`
    /// form, cluster by cluster.
    pub open spec fn stream_read(
        self,
        img: Seq<u8>,
        clusters: Seq<u32>,
        logical: int,
        len: int,
    ) -> Result<Seq<u8>, FsError<()>>
        decreases len,
    {
        let chunk = self.span_at(logical, len);
        if len <= 0 || chunk <= 0 {
            Ok(seq![])
        } else if logical / self.boot.cluster_bytes() >= clusters.len() {
            Err(FsError::Corrupt(CorruptKind::DirEntry))
        } else {
            match read_of(img, self.stream_pos(clusters, logical), chunk) {
                Err(e) => Err(e),
                Ok(head) => match self.stream_read(img, clusters, logical + chunk, len - chunk) {
                    Err(e) => Err(e),
                    Ok(rest) => Ok(head + rest),
                },
            }
        }
    }

    /// Reading the entry set at `loc`.
    pub open spec fn set_read(self, img: Seq<u8>, loc: SetLoc) -> Result<Seq<u8>, FsError<()>> {
        match self.dir_clusters(
            img,
            loc.dir_first_cluster,
            loc.dir_no_fat_chain,
            loc.dir_max_clusters as int,
        ) {
            Err(e) => Err(e),
            Ok(clusters) => self.stream_read(img, clusters, loc.logical as int, loc.len as int),
        }
    }

    /// Overwriting the entry set at `loc`.
    pub open spec fn set_written(self, d: Disk, loc: SetLoc, bytes: Seq<u8>) -> Run<()> {
        match self.dir_clusters(
            d.img,
            loc.dir_first_cluster,
            loc.dir_no_fat_chain,
            loc.dir_max_clusters as int,
        ) {
            Err(e) => Run { out: Err(e), disk: d },
            Ok(clusters) => self.stream_written(d, clusters, loc.logical as int, bytes),
        }
    }
}

/// Bytes of a stream that lie in one cluster are the bytes of that cluster.
proof fn lemma_stream_cluster(l: ExfatLayout, clusters: Seq<u32>, k: int, j: int)
    requires
        l.boot.valid_shifts(),
        0 <= k < clusters.len(),
        0 <= j < l.boot.cluster_bytes(),
    ensures
        l.stream_pos(clusters, k * l.boot.cluster_bytes() + j) == l.boot.cluster_pos(
            clusters[k] as int,
        ) + j,
        0 <= k * l.boot.cluster_bytes() + j < clusters.len() * l.boot.cluster_bytes(),
{
    lemma_unit_sizes(l.boot);
    let cb = l.boot.cluster_bytes();
    vstd::arithmetic::div_mod::lemma_fundamental_div_mod_converse(k * cb + j, cb, k, j);
    let n = clusters.len() as int;
    assert(0 <= k * cb + j < n * cb) by (nonlinear_arith)
        requires
            0 <= k < n,
            0 <= j < cb,
    ;
}

/// Every byte of a stream shares its cluster with itself at least.
proof fn lemma_span_positive(l: ExfatLayout, pos: int, len: int)
    requires
        l.boot.valid_shifts(),
        len > 0,
    ensures
        0 < l.span_at(pos, len) <= len,
{
    lemma_unit_sizes(l.boot);
    vstd::arithmetic::div_mod::lemma_mod_bound(pos, l.boot.cluster_bytes());
}

impl<D: Device> ExfatVfs<D> {
    /// Collect a directory's clusters into a `Vec`. When FAT-chained, EOC
    /// ends the walk and `max_clusters` (possibly stale after growth) is
    /// ignored — but a walk longer than the volume's cluster count can
    /// only be a corrupt FAT cycle, and errors instead of ballooning the
    /// directory buffer. When contiguous, the FAT is meaningless past the
    /// extent and `max_clusters` is authoritative.
    pub fn collect_dir_clusters_of(
        &self,
        first_cluster: u32,
        no_fat_chain: bool,
        max_clusters: u32,
    ) -> (r: Result<Vec<u32>, FsError<D::Error>>)
        requires
            self.wf(),
        ensures
            match r {
                Ok(v) => self.layout.dir_clusters(
                    self.dev.contents(),
                    first_cluster,
                    no_fat_chain,
                    max_clusters as int,
                ) == Ok::<Seq<u32>, FsError<()>>(v@),
                Err(FsError::Io(_)) => !self.dev.reliable(),
                Err(e) => self.layout.dir_clusters(
                    self.dev.contents(),
                    first_cluster,
                    no_fat_chain,
                    max_clusters as int,
                ) == Err::<Seq<u32>, FsError<()>>(e.kind()),
            },
    {
        let ghost img = self.dev.contents();
        let ghost l = self.layout;
        let mut out: Vec<u32> = Vec::new();
        let mut cur: Option<u32> = Some(first_cluster);
        let mut walked: u32 = 0;
        let chained_cap: u32 = self.layout.boot.cluster_count;
        let ghost whole = l.dir_clusters(img, first_cluster, no_fat_chain, max_clusters as int);
        proof {
            match whole {
                Ok(rest) => {
                    assert(out@ + rest =~= rest);
                },
                Err(_) => {},
            }
        }
        loop
            invariant
                self.wf(),
                img == self.dev.contents(),
                l == self.layout,
                chained_cap == l.boot.cluster_count,
                whole == l.dir_clusters(img, first_cluster, no_fat_chain, max_clusters as int),
                whole == (match l.dir_walk(
                    img,
                    cur,
                    no_fat_chain,
                    max_clusters as int,
                    walked as int,
                ) {
                    Ok(rest) => Ok::<Seq<u32>, FsError<()>>(out@ + rest),
                    Err(e) => Err(e),
                }),
                no_fat_chain ==> walked <= max_clusters,
                !no_fat_chain ==> walked <= chained_cap,
            ensures
                whole == Ok::<Seq<u32>, FsError<()>>(out@),
            decreases
                    (if no_fat_chain {
                        max_clusters
                    } else {
                        chained_cap
                    }) - walked,
        {
            let c: u32 = match cur {
                Some(c) => c,
                None => {
                    assert(out@ + Seq::<u32>::empty() =~= out@);
                    break ;
                },
            };
            if no_fat_chain {
                if walked >= max_clusters {
                    assert(out@ + Seq::<u32>::empty() =~= out@);
                    break ;
                }
            } else if walked >= chained_cap {
                return Err(FsError::Corrupt(CorruptKind::ClusterChain));
            }
            let ghost before = out@;
            out.push(c);
            walked += 1;
            let next = match self.next_cluster(c, no_fat_chain) {
                Ok(next) => next,
                Err(e) => {
                    return Err(e);
                },
            };
            proof {
                match l.dir_walk(img, next, no_fat_chain, max_clusters as int, walked as int) {
                    Ok(rest) => {
                        assert(out@ + rest =~= before + (seq![c] + rest));
                    },
                    Err(_) => {},
                }
            }
            cur = next;
        }
        Ok(out)
    }

    /// Read a whole directory into one buffer: its clusters, concatenated
    /// in walk order. Logical offsets into this buffer are what [`SetLoc`]
    /// records.
    pub fn read_dir_stream(
        &self,
        first_cluster: u32,
        no_fat_chain: bool,
        max_clusters: u32,
    ) -> (r: Result<(Vec<u32>, Vec<u8>), FsError<D::Error>>)
        requires
            self.wf(),
        ensures
            match r {
                Ok((clusters, buf)) => self.layout.dir_read(
                    self.dev.contents(),
                    first_cluster,
                    no_fat_chain,
                    max_clusters as int,
                ) == Ok::<(Seq<u32>, Seq<u8>), FsError<()>>((clusters@, buf@)),
                Err(FsError::Io(_)) => !self.dev.reliable(),
                Err(e) => self.layout.dir_read(
                    self.dev.contents(),
                    first_cluster,
                    no_fat_chain,
                    max_clusters as int,
                ) == Err::<(Seq<u32>, Seq<u8>), FsError<()>>(e.kind()),
            },
    {
        let clusters: Vec<u32> = match self.collect_dir_clusters_of(
            first_cluster,
            no_fat_chain,
            max_clusters,
        ) {
            Ok(clusters) => clusters,
            Err(e) => {
                return Err(e);
            },
        };
        let ghost img = self.dev.contents();
        let ghost l = self.layout;
        let ghost cb = l.boot.cluster_bytes();
        proof {
            lemma_unit_sizes(l.boot);
        }
        let mut buf: Vec<u8> = Vec::new();
        let mut i: usize = 0;
        while i < clusters.len()
            invariant
                self.wf(),
                img == self.dev.contents(),
                l == self.layout,
                cb == l.boot.cluster_bytes(),
                512 <= cb,
                l.dir_clusters(img, first_cluster, no_fat_chain, max_clusters as int) == Ok::<
                    Seq<u32>,
                    FsError<()>,
                >(clusters@),
                i <= clusters@.len(),
                buf@.len() == i * cb,
                forall|j: int|
                    0 <= j < i * cb ==> #[trigger] buf@[j] == img[l.stream_pos(clusters@, j)],
                forall|k: int|
                    0 <= k < i ==> l.boot.cluster_pos((#[trigger] clusters@[k]) as int) + cb
                        <= img.len(),
            decreases clusters@.len() - i,
        {
            let ghost before = buf@;
            let one: Vec<u8> = match self.read_cluster(clusters[i]) {
                Ok(one) => one,
                Err(e) => {
                    return Err(e);
                },
            };
            buf.extend_from_slice(one.as_slice());
            proof {
                let p = l.boot.cluster_pos(clusters@[i as int] as int);
                assert(one@ == img.subrange(p, p + cb));
                assert(buf@ =~= before + one@);
                assert((i + 1) * cb == i * cb + cb) by (nonlinear_arith);
                assert forall|j: int| 0 <= j < (i + 1) * cb implies #[trigger] buf@[j]
                    == img[l.stream_pos(clusters@, j)] by {
                    if j >= i * cb {
                        lemma_stream_cluster(l, clusters@, i as int, j - i * cb);
                        assert(buf@[j] == one@[j - i * cb]);
                    } else {
                        assert(buf@[j] == before[j]);
                    }
                }
            }
            i += 1;
        }
        proof {
            assert(buf@ =~= l.stream_of(img, clusters@));
        }
        Ok((clusters, buf))
    }

    /// Locate logical byte `pos` of the directory stream described by
    /// `clusters`: the device byte offset and how many bytes remain in
    /// that cluster. Positions past the collected run are corruption.
    fn locate_in_dir_stream(&self, clusters: &[u32], pos: u64) -> (r: Result<
        (u64, usize),
        FsError<D::Error>,
    >)
        requires
            self.wf(),
        ensures
            match r {
                Ok((offset, span)) => {
                    &&& pos as int / self.layout.boot.cluster_bytes() < clusters@.len()
                    &&& offset == self.layout.stream_pos(clusters@, pos as int)
                    &&& span == self.layout.boot.cluster_bytes() - pos as int
                        % self.layout.boot.cluster_bytes()
                    &&& span > 0
                },
                Err(e) => {
                    &&& pos as int / self.layout.boot.cluster_bytes() >= clusters@.len()
                    &&& e == FsError::<D::Error>::Corrupt(CorruptKind::DirEntry)
                },
            },
    {
        proof {
            lemma_unit_sizes(self.layout.boot);
        }
        let cluster_bytes: u64 = self.layout.boot.bytes_per_cluster() as u64;
        let idx: u64 = pos / cluster_bytes;
        let in_cluster: u64 = pos % cluster_bytes;
        if idx >= clusters.len() as u64 {
            return Err(FsError::Corrupt(CorruptKind::DirEntry));
        }
        let cluster: u32 = clusters[idx as usize];
        let offset: u64 = self.layout.boot.cluster_offset(cluster) + in_cluster;
        let span: usize = (cluster_bytes - in_cluster) as usize;
        Ok((offset, span))
    }

    /// Write `bytes` at logical offset `logical` of the directory stream
    /// described by `clusters`, scattering across cluster boundaries.
    pub fn write_dir_stream_at(&mut self, clusters: &[u32], logical: u64, bytes: &[u8]) -> (r:
        Result<(), FsError<D::Error>>)
        requires
            old(self).wf(),
            logical + bytes@.len() <= u64::MAX,
        ensures
            final(self).wf(),
            final(self).keeps(*old(self)),
            ends_as(
                r,
                old(self).layout.stream_written(
                    old(self).disk(),
                    clusters@,
                    logical as int,
                    bytes@,
                ),
                final(self).disk(),
                old(self).dev.reliable(),
            ),
    {
        let ghost l = self.layout;
        let ghost start = self.disk();
        let total: usize = bytes.len();
        let mut written: usize = 0;
        assert(bytes@.subrange(0, total as int) =~= bytes@);
        while written < total
            invariant
                self.wf(),
                self.keeps(*old(self)),
                l == old(self).layout,
                start == old(self).disk(),
                total == bytes@.len(),
                written <= total,
                logical + total <= u64::MAX,
                l.stream_written(start, clusters@, logical as int, bytes@) == l.stream_written(
                    self.disk(),
                    clusters@,
                    logical + written,
                    bytes@.subrange(written as int, total as int),
                ),
            decreases total - written,
        {
            proof {
                lemma_span_positive(l, logical + written, total - written);
            }
            let (offset, span) = match self.locate_in_dir_stream(clusters, logical + written as u64)
            {
                Ok(p) => p,
                Err(e) => {
                    return Err(e);
                },
            };
            let left: usize = total - written;
            let chunk: usize = if span < left {
                span
            } else {
                left
            };
            proof {
                let rest = bytes@.subrange(written as int, total as int);
                assert(rest.subrange(0, chunk as int) =~= bytes@.subrange(
                    written as int,
                    written + chunk,
                ));
                assert(rest.subrange(chunk as int, rest.len() as int) =~= bytes@.subrange(
                    written + chunk,
                    total as int,
                ));
            }
            match self.write_at(offset, &bytes[written..written + chunk]) {
                Ok(_) => {},
                Err(e) => {
                    return Err(e);
                },
            }
            written += chunk;
        }
        Ok(())
    }

    /// Read `len` bytes at logical offset `logical` of the stream described
    /// by `clusters`, gathering across cluster boundaries.
    pub fn read_stream_at(&self, clusters: &[u32], logical: u64, len: usize) -> (r: Result<
        Vec<u8>,
        FsError<D::Error>,
    >)
        requires
            self.wf(),
            logical + len <= u64::MAX,
        ensures
            match r {
                Ok(v) => {
                    &&& self.layout.stream_read(
                        self.dev.contents(),
                        clusters@,
                        logical as int,
                        len as int,
                    ) == Ok::<Seq<u8>, FsError<()>>(v@)
                    &&& v@.len() == len
                },
                Err(FsError::Io(_)) => !self.dev.reliable(),
                Err(e) => self.layout.stream_read(
                    self.dev.contents(),
                    clusters@,
                    logical as int,
                    len as int,
                ) == Err::<Seq<u8>, FsError<()>>(e.kind()),
            },
    {
        let ghost img = self.dev.contents();
        let ghost l = self.layout;
        let mut out: Vec<u8> = Vec::new();
        let ghost whole = l.stream_read(img, clusters@, logical as int, len as int);
        proof {
            match whole {
                Ok(rest) => {
                    assert(out@ + rest =~= rest);
                },
                Err(_) => {},
            }
        }
        while out.len() < len
            invariant
                self.wf(),
                img == self.dev.contents(),
                l == self.layout,
                out@.len() <= len,
                logical + len <= u64::MAX,
                whole == l.stream_read(img, clusters@, logical as int, len as int),
                whole == (match l.stream_read(
                    img,
                    clusters@,
                    logical + out@.len(),
                    len - out@.len(),
                ) {
                    Ok(rest) => Ok::<Seq<u8>, FsError<()>>(out@ + rest),
                    Err(e) => Err(e),
                }),
            decreases len - out@.len(),
        {
            let done: usize = out.len();
            proof {
                lemma_span_positive(l, logical + done, len - done);
            }
            let (offset, span) = match self.locate_in_dir_stream(clusters, logical + done as u64) {
                Ok(p) => p,
                Err(e) => {
                    return Err(e);
                },
            };
            let left: usize = len - done;
            let chunk: usize = if span < left {
                span
            } else {
                left
            };
            let mut piece: Vec<u8> = vec![0u8; chunk];
            match self.read_at(offset, piece.as_mut_slice()) {
                Ok(_) => {},
                Err(e) => {
                    return Err(e);
                },
            }
            let ghost before = out@;
            out.extend_from_slice(piece.as_slice());
            proof {
                assert(out@ =~= before + piece@);
                match l.stream_read(img, clusters@, logical + done + chunk, len - done - chunk) {
                    Ok(rest) => {
                        assert(out@ + rest =~= before + (piece@ + rest));
                    },
                    Err(_) => {},
                }
            }
        }
        assert(out@ + Seq::<u8>::empty() =~= out@);
        Ok(out)
    }

    /// Read the entry set at `loc` (possibly spanning clusters).
    pub fn read_set(&self, loc: &SetLoc) -> (r: Result<Vec<u8>, FsError<D::Error>>)
        requires
            self.wf(),
            loc.logical + loc.len <= u64::MAX,
        ensures
            match r {
                Ok(v) => {
                    &&& self.layout.set_read(self.dev.contents(), *loc) == Ok::<
                        Seq<u8>,
                        FsError<()>,
                    >(v@)
                    &&& v@.len() == loc.len
                },
                Err(FsError::Io(_)) => !self.dev.reliable(),
                Err(e) => self.layout.set_read(self.dev.contents(), *loc) == Err::<
                    Seq<u8>,
                    FsError<()>,
                >(e.kind()),
            },
    {
        let clusters: Vec<u32> = match self.collect_dir_clusters_of(
            loc.dir_first_cluster,
            loc.dir_no_fat_chain,
            loc.dir_max_clusters,
        ) {
            Ok(clusters) => clusters,
            Err(e) => {
                return Err(e);
            },
        };
        self.read_stream_at(clusters.as_slice(), loc.logical, loc.len as usize)
    }

    /// Overwrite the entry set at `loc` with `bytes` (`bytes.len()` must
    /// equal `loc.len`).
    pub fn write_set(&mut self, loc: &SetLoc, bytes: &[u8]) -> (r: Result<(), FsError<D::Error>>)
        requires
            old(self).wf(),
            loc.logical + loc.len <= u64::MAX,
            bytes@.len() == loc.len,
        ensures
            final(self).wf(),
            final(self).keeps(*old(self)),
            ends_as(
                r,
                old(self).layout.set_written(old(self).disk(), *loc, bytes@),
                final(self).disk(),
                old(self).dev.reliable(),
            ),
    {
        let clusters: Vec<u32> = match self.collect_dir_clusters_of(
            loc.dir_first_cluster,
            loc.dir_no_fat_chain,
            loc.dir_max_clusters,
        ) {
            Ok(clusters) => clusters,
            Err(e) => {
                return Err(e);
            },
        };
        self.write_dir_stream_at(clusters.as_slice(), loc.logical, bytes)
    }
}

} // verus!
