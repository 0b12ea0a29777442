//! Open files of FAT volumes.

use vstd::prelude::*;

use super::cluster_map::FatClusterMap;
use super::entry_io::patched_fields;
use super::fs::FatVfs;
use super::layout::{
    fat_done, fat_ends_as, fat_failed, lemma_cluster_size, FatDisk, FatLayout, FatRun,
};
use super::open::{FatDirSlotWriter, FatStream};
use crate::calendar::PrimitiveDateTime;
use crate::device::Device;
use crate::error::{file_error_of, CorruptKind, FileError, FsError};
use crate::exfat::file::zeros;
use crate::file::{opened_state, FileState};
use crate::vfs::EntryPatch;

verus! {

/// An open file of a FAT volume.
pub struct FatFile {
    pub state: FileState,
    pub map: FatClusterMap,
    pub writer: FatDirSlotWriter,
}

/// How an operation on an open file ends: its result, the disk and the file
/// it leaves.
pub struct FatFileRun<T> {
    pub out: Result<T, FileError<()>>,
    pub disk: FatDisk,
    pub state: FileState,
    pub allocated: u64,
}

/// `r` and the file are what `run` says, and so is the disk if `r` is `Ok`,
/// unless the storage failed; after an error the disk is so if the storage never
/// fails.
pub open spec fn fat_handle_ends_as<T, E>(
    r: Result<T, FileError<E>>,
    run: FatFileRun<T>,
    after: FatDisk,
    file: FatFile,
    reliable: bool,
) -> bool {
    match r {
        Ok(v) => {
            &&& run.out == Ok::<T, FileError<()>>(v)
            &&& after == run.disk
            &&& file.state == run.state
            &&& file.map.allocated_len == run.allocated
        },
        Err(FileError::Io(_)) => !reliable,
        Err(e) => {
            &&& run.out == Err::<T, FileError<()>>(e.kind())
            &&& reliable ==> after == run.disk
            &&& file.state == run.state
            &&& file.map.allocated_len == run.allocated
        },
    }
}

impl FatLayout {
    /// The chain from `cur` on, `steps` clusters having been counted before.
    /// A walk longer than the volume's cluster count goes in circles.
    pub open spec fn chain_walk(self, img: Seq<u8>, cur: u32, steps: int) -> Result<
        Seq<u32>,
        FsError<()>,
    >
        decreases self.props.max_cluster + 1 - steps,
    {
        if steps > self.props.max_cluster {
            Err(FsError::Corrupt(CorruptKind::ClusterChain))
        } else {
            match self.successor(img, cur as int) {
                Err(e) => Err(e),
                Ok(None) => Ok(seq![cur]),
                Ok(Some(n)) => match self.chain_walk(img, n, steps + 1) {
                    Err(e) => Err(e),
                    Ok(rest) => Ok(seq![cur] + rest),
                },
            }
        }
    }

    /// Device offset of byte `pos` of the stream that `cs` form.
    pub open spec fn stream_pos(self, cs: Seq<u32>, pos: int) -> int {
        self.cluster_pos(cs[pos / (self.props.cluster_size as int)] as int) + pos % (
        self.props.cluster_size as int)
    }

    /// How many of `len` stream bytes from `pos` on lie in one cluster.
    pub open spec fn span_at(self, pos: int, len: int) -> int {
        let room = self.props.cluster_size - pos % (self.props.cluster_size as int);
        if room < len {
            room
        } else {
            len
        }
    }

    /// Writing `bytes` at byte `at` of the stream that `cs` form, cluster by
    /// cluster.
    pub open spec fn stream_written(self, d: FatDisk, cs: Seq<u32>, at: int, bytes: Seq<u8>) -> FatRun<
        (),
    >
        decreases bytes.len(),
    {
        let chunk = self.span_at(at, bytes.len() as int);
        if bytes.len() == 0 || chunk <= 0 {
            fat_done((), d)
        } else if at / (self.props.cluster_size as int) >= cs.len() {
            fat_failed(FsError::Corrupt(CorruptKind::ClusterChain), d)
        } else {
            let w = self.written(d, self.stream_pos(cs, at), bytes.subrange(0, chunk));
            match w.out {
                Err(e) => w,
                Ok(_) => self.stream_written(
                    w.disk,
                    cs,
                    at + chunk,
                    bytes.subrange(chunk, bytes.len() as int),
                ),
            }
        }
    }

    /// Reading `len` bytes at byte `at` of the stream that `cs` form, cluster
    /// by cluster.
    pub open spec fn stream_read(self, img: Seq<u8>, cs: Seq<u32>, at: int, len: int) -> Result<
        Seq<u8>,
        FsError<()>,
    >
        decreases len,
    {
        let chunk = self.span_at(at, len);
        if len <= 0 || chunk <= 0 {
            Ok(seq![])
        } else if at / (self.props.cluster_size as int) >= cs.len() {
            Err(FsError::Corrupt(CorruptKind::ClusterChain))
        } else {
            match self.read(img, self.stream_pos(cs, at), chunk) {
                Err(e) => Err(e),
                Ok(head) => match self.stream_read(img, cs, at + chunk, len - chunk) {
                    Err(e) => Err(e),
                    Ok(rest) => Ok(head + rest),
                },
            }
        }
    }

    /// What a read of up to `n` bytes at the cursor gives.
    pub open spec fn file_read(self, img: Seq<u8>, s: FileState, n: int) -> Result<
        Seq<u8>,
        FsError<()>,
    > {
        let all = s.readable(n);
        let k = s.initialized(all);
        if k == 0 {
            Ok(zeros(all))
        } else {
            match self.chain_walk(img, s.first_cluster, 0) {
                Err(e) => Err(e),
                Ok(cs) => match self.stream_read(img, cs, s.pos as int, k) {
                    Err(e) => Err(e),
                    Ok(b) => Ok(b + zeros(all - k)),
                },
            }
        }
    }

    /// Making room for `needed` bytes.
    pub open spec fn room_made(self, d: FatDisk, s: FileState, allocated: u64, needed: int) -> FatFileRun<
        (),
    > {
        if needed <= allocated {
            FatFileRun { out: Ok(()), disk: d, state: s, allocated }
        } else {
            let x = self.file_extended(d, allocated, Some(s.first_cluster), None, needed);
            match x.out {
                Err(e) => FatFileRun {
                    out: Err(file_error_of(e)),
                    disk: x.disk,
                    state: FileState { dirty: true, ..s },
                    allocated: x.allocated_len,
                },
                Ok(r) => FatFileRun {
                    out: Ok(()),
                    disk: x.disk,
                    state: FileState { first_cluster: r.first_cluster, dirty: true, ..s },
                    allocated: x.allocated_len,
                },
            }
        }
    }

    /// Zeroing the bytes `from..to` of a file and then writing `bytes` at
    /// `to`.
    pub open spec fn stream_put(
        self,
        d: FatDisk,
        first: u32,
        from: int,
        to: int,
        bytes: Seq<u8>,
    ) -> FatRun<()> {
        match self.chain_walk(d.img, first, 0) {
            Err(e) => fat_failed(e, d),
            Ok(cs) => {
                let z = self.stream_written(d, cs, from, zeros(to - from));
                match z.out {
                    Err(e) => z,
                    Ok(_) => self.stream_written(z.disk, cs, to, bytes),
                }
            },
        }
    }

    /// Writing `bytes` at the cursor. What lies between the end of the file
    /// and the cursor is zeroed first.
    pub open spec fn file_written(
        self,
        d: FatDisk,
        s: FileState,
        allocated: u64,
        bytes: Seq<u8>,
        now: PrimitiveDateTime,
    ) -> FatFileRun<usize> {
        let end = s.pos + bytes.len();
        if !s.writable {
            FatFileRun { out: Err(FileError::ReadOnly), disk: d, state: s, allocated }
        } else if bytes.len() == 0 {
            FatFileRun { out: Ok(0), disk: d, state: s, allocated }
        } else if end > u32::MAX {
            FatFileRun { out: Err(FileError::FileTooLarge), disk: d, state: s, allocated }
        } else {
            let r = self.room_made(d, s, allocated, end);
            match r.out {
                Err(e) => FatFileRun {
                    out: Err(e),
                    disk: r.disk,
                    state: r.state,
                    allocated: r.allocated,
                },
                Ok(_) => {
                    let from = if s.pos > s.valid_len {
                        s.valid_len
                    } else {
                        s.pos
                    };
                    let w = self.stream_put(
                        r.disk,
                        r.state.first_cluster,
                        from as int,
                        s.pos as int,
                        bytes,
                    );
                    match w.out {
                        Err(e) => FatFileRun {
                            out: Err(file_error_of(e)),
                            disk: w.disk,
                            state: r.state,
                            allocated: r.allocated,
                        },
                        Ok(_) => FatFileRun {
                            out: Ok(bytes.len() as usize),
                            disk: w.disk,
                            state: r.state.after_write(bytes.len() as int, now),
                            allocated: r.allocated,
                        },
                    }
                },
            }
        }
    }

    /// Resizing a file. The cursor stays. The format has no initialized
    /// prefix, so the bytes that a longer file gains are zeroed.
    pub open spec fn file_resized(
        self,
        d: FatDisk,
        s: FileState,
        allocated: u64,
        size: u64,
        now: PrimitiveDateTime,
    ) -> FatFileRun<()> {
        if !s.writable {
            FatFileRun { out: Err(FileError::ReadOnly), disk: d, state: s, allocated }
        } else if size > u32::MAX {
            FatFileRun { out: Err(FileError::FileTooLarge), disk: d, state: s, allocated }
        } else if size == s.len {
            FatFileRun { out: Ok(()), disk: d, state: s, allocated }
        } else if size > s.len {
            self.file_lengthened(d, s, allocated, size, now)
        } else {
            self.file_shortened(d, s, allocated, size, now)
        }
    }

    /// Giving a file a larger size.
    pub open spec fn file_lengthened(
        self,
        d: FatDisk,
        s: FileState,
        allocated: u64,
        size: u64,
        now: PrimitiveDateTime,
    ) -> FatFileRun<()> {
        let r = self.room_made(d, s, allocated, size as int);
        match r.out {
            Err(e) => FatFileRun {
                out: Err(e),
                disk: r.disk,
                state: r.state,
                allocated: r.allocated,
            },
            Ok(_) => {
                let w = self.stream_put(
                    r.disk,
                    r.state.first_cluster,
                    s.valid_len as int,
                    size as int,
                    seq![],
                );
                match w.out {
                    Err(e) => FatFileRun {
                        out: Err(file_error_of(e)),
                        disk: w.disk,
                        state: r.state,
                        allocated: r.allocated,
                    },
                    Ok(_) => FatFileRun {
                        out: Ok(()),
                        disk: w.disk,
                        state: FileState {
                            len: size,
                            valid_len: size,
                            times: r.state.stamped(now),
                            dirty: true,
                            ..r.state
                        },
                        allocated: r.allocated,
                    },
                }
            },
        }
    }

    /// Giving a file a smaller size.
    pub open spec fn file_shortened(
        self,
        d: FatDisk,
        s: FileState,
        allocated: u64,
        size: u64,
        now: PrimitiveDateTime,
    ) -> FatFileRun<()> {
        let t = self.file_cut(d, allocated, s.first_cluster, size as int);
        match t.out {
            Err(e) => FatFileRun {
                out: Err(file_error_of(e)),
                disk: t.disk,
                state: s,
                allocated: t.allocated_len,
            },
            Ok(f) => FatFileRun {
                out: Ok(()),
                disk: t.disk,
                state: FileState {
                    first_cluster: f.first_cluster,
                    len: size,
                    valid_len: if s.valid_len < size {
                        s.valid_len
                    } else {
                        size
                    },
                    times: s.stamped(now),
                    dirty: true,
                    ..s
                },
                allocated: t.allocated_len,
            },
        }
    }
}

/// Every byte of a stream shares its cluster with itself at least.
proof fn lemma_span_positive(l: FatLayout, pos: int, len: int)
    requires
        l.wf(),
        len > 0,
    ensures
        0 < l.span_at(pos, len) <= len,
        l.span_at(pos, len) <= l.props.cluster_size,
{
    lemma_cluster_size(l);
    vstd::arithmetic::div_mod::lemma_mod_bound(pos, l.props.cluster_size as int);
}

impl<D: Device> FatVfs<D> {
    /// The chain that starts at `first`, in order.
    pub fn collect_chain(&self, first: u32) -> (r: Result<Vec<u32>, FsError<D::Error>>)
        requires
            self.wf(),
        ensures
            match r {
                Ok(v) => self.layout.chain_walk(self.dev.contents(), first, 0) == Ok::<
                    Seq<u32>,
                    FsError<()>,
                >(v@),
                Err(FsError::Io(_)) => !self.dev.reliable(),
                Err(e) => self.layout.chain_walk(self.dev.contents(), first, 0) == Err::<
                    Seq<u32>,
                    FsError<()>,
                >(e.kind()),
            },
    {
        let ghost img = self.dev.contents();
        let ghost l = self.layout;
        let ghost whole = l.chain_walk(img, first, 0);
        let max: u32 = self.layout.props.max_cluster;
        let mut out: Vec<u32> = Vec::new();
        let mut cur: u32 = first;
        let mut steps: u64 = 0;
        proof {
            if let Ok(rest) = whole {
                assert(out@ + rest =~= rest);
            }
        }
        loop
            invariant
                self.wf(),
                img == self.dev.contents(),
                l == self.layout,
                max == l.props.max_cluster,
                steps <= max + 1,
                whole == l.chain_walk(img, first, 0),
                whole == (match l.chain_walk(img, cur, steps as int) {
                    Ok(rest) => Ok::<Seq<u32>, FsError<()>>(out@ + rest),
                    Err(e) => Err(e),
                }),
            decreases max + 1 - steps,
        {
            if steps > max as u64 {
                return Err(FsError::Corrupt(CorruptKind::ClusterChain));
            }
            let next = match self.next_cluster(cur) {
                Ok(next) => next,
                Err(e) => {
                    return Err(e);
                },
            };
            let ghost before = out@;
            out.push(cur);
            match next {
                None => {
                    assert(before + seq![cur] =~= out@);
                    return Ok(out);
                },
                Some(n) => {
                    proof {
                        if let Ok(rest) = l.chain_walk(img, n, steps + 1) {
                            assert(before + (seq![cur] + rest) =~= out@ + rest);
                        }
                    }
                    cur = n;
                    steps += 1;
                },
            }
        }
    }

    /// Byte `pos` of the stream that `clusters` form: its device offset and
    /// how many bytes remain in that cluster.
    fn locate_in_chain(&self, clusters: &[u32], pos: u64) -> (r: Result<
        (u64, u64),
        FsError<D::Error>,
    >)
        requires
            self.wf(),
        ensures
            ({
                let cs = self.layout.props.cluster_size as int;
                match r {
                    Ok((offset, room)) => {
                        &&& pos as int / cs < clusters@.len()
                        &&& offset == self.layout.stream_pos(clusters@, pos as int)
                        &&& room == cs - pos as int % cs
                        &&& 0 < room <= cs
                    },
                    Err(e) => {
                        &&& pos as int / cs >= clusters@.len()
                        &&& e == FsError::<D::Error>::Corrupt(CorruptKind::ClusterChain)
                    },
                }
            }),
    {
        proof {
            lemma_cluster_size(self.layout);
        }
        let cs: u64 = self.layout.props.cluster_size as u64;
        let idx: u64 = pos / cs;
        let within: u64 = pos % cs;
        if idx >= clusters.len() as u64 {
            return Err(FsError::Corrupt(CorruptKind::ClusterChain));
        }
        let cluster: u32 = clusters[idx as usize];
        Ok((self.layout.cluster_offset(cluster) + within, cs - within))
    }

    /// Read `len` bytes at byte `at` of the stream that `clusters` form.
    pub fn read_chain_at(&self, clusters: &[u32], at: u64, len: usize) -> (r: Result<
        Vec<u8>,
        FsError<D::Error>,
    >)
        requires
            self.wf(),
            at + len <= u64::MAX,
        ensures
            match r {
                Ok(v) => {
                    &&& self.layout.stream_read(
                        self.dev.contents(),
                        clusters@,
                        at as int,
                        len as int,
                    ) == Ok::<Seq<u8>, FsError<()>>(v@)
                    &&& v@.len() == len
                },
                Err(FsError::Io(_)) => !self.dev.reliable(),
                Err(e) => self.layout.stream_read(
                    self.dev.contents(),
                    clusters@,
                    at as int,
                    len as int,
                ) == Err::<Seq<u8>, FsError<()>>(e.kind()),
            },
    {
        let ghost img = self.dev.contents();
        let ghost l = self.layout;
        let mut out: Vec<u8> = Vec::new();
        let ghost whole = l.stream_read(img, clusters@, at as int, len as int);
        proof {
            if let Ok(rest) = whole {
                assert(out@ + rest =~= rest);
            }
        }
        while out.len() < len
            invariant
                self.wf(),
                img == self.dev.contents(),
                l == self.layout,
                out@.len() <= len,
                at + len <= u64::MAX,
                whole == l.stream_read(img, clusters@, at as int, len as int),
                whole == (match l.stream_read(
                    img,
                    clusters@,
                    at + out@.len(),
                    len - out@.len(),
                ) {
                    Ok(rest) => Ok::<Seq<u8>, FsError<()>>(out@ + rest),
                    Err(e) => Err(e),
                }),
            decreases len - out@.len(),
        {
            let done: usize = out.len();
            proof {
                lemma_span_positive(l, at + done, len - done);
            }
            let (offset, room) = match self.locate_in_chain(clusters, at + done as u64) {
                Ok(p) => p,
                Err(e) => {
                    return Err(e);
                },
            };
            let left: usize = len - done;
            let chunk: usize = if room < left as u64 {
                room as usize
            } else {
                left
            };
            let mut piece: Vec<u8> = vec![0u8; chunk];
            match self.read_bytes(offset, piece.as_mut_slice()) {
                Ok(_) => {},
                Err(e) => {
                    return Err(e);
                },
            }
            let ghost before = out@;
            out.extend_from_slice(piece.as_slice());
            proof {
                assert(out@ =~= before + piece@);
                if let Ok(rest) = l.stream_read(
                    img,
                    clusters@,
                    at + done + chunk,
                    len - done - chunk,
                ) {
                    assert(out@ + rest =~= before + (piece@ + rest));
                }
            }
        }
        assert(out@ + Seq::<u8>::empty() =~= out@);
        Ok(out)
    }

    /// Write `bytes` at byte `at` of the stream that `clusters` form.
    pub fn write_chain_at(&mut self, clusters: &[u32], at: u64, bytes: &[u8]) -> (r: Result<
        (),
        FsError<D::Error>,
    >)
        requires
            old(self).wf(),
            at + bytes@.len() <= u64::MAX,
        ensures
            final(self).wf(),
            final(self).keeps(*old(self)),
            fat_ends_as(
                r,
                old(self).layout.stream_written(
                    old(self).disk(),
                    clusters@,
                    at as int,
                    bytes@,
                ),
                final(self).disk(),
                old(self).dev.reliable(),
            ),
    {
        let ghost l = self.layout;
        let ghost start = self.disk();
        let total: usize = bytes.len();
        let mut written: usize = 0;
        assert(bytes@.subrange(0, total as int) =~= bytes@);
        while written < total
            invariant
                self.wf(),
                self.keeps(*old(self)),
                l == old(self).layout,
                start == old(self).disk(),
                total == bytes@.len(),
                written <= total,
                at + total <= u64::MAX,
                l.stream_written(start, clusters@, at as int, bytes@) == l.stream_written(
                    self.disk(),
                    clusters@,
                    at + written,
                    bytes@.subrange(written as int, total as int),
                ),
            decreases total - written,
        {
            proof {
                lemma_span_positive(l, at + written, total - written);
            }
            let (offset, room) = match self.locate_in_chain(clusters, at + written as u64) {
                Ok(p) => p,
                Err(e) => {
                    return Err(e);
                },
            };
            let left: usize = total - written;
            let chunk: usize = if room < left as u64 {
                room as usize
            } else {
                left
            };
            proof {
                let rest = bytes@.subrange(written as int, total as int);
                assert(rest.subrange(0, chunk as int) =~= bytes@.subrange(
                    written as int,
                    written + chunk,
                ));
                assert(rest.subrange(chunk as int, rest.len() as int) =~= bytes@.subrange(
                    written + chunk,
                    total as int,
                ));
            }
            match self.write_bytes(offset, &bytes[written..written + chunk]) {
                Ok(_) => {},
                Err(e) => {
                    return Err(e);
                },
            }
            written += chunk;
        }
        Ok(())
    }

    /// Zero the bytes `from..to` of the stream that `clusters` form.
    pub fn zero_chain(&mut self, clusters: &[u32], from: u64, to: u64) -> (r: Result<
        (),
        FsError<D::Error>,
    >)
        requires
            old(self).wf(),
            from <= to,
        ensures
            final(self).wf(),
            final(self).keeps(*old(self)),
            fat_ends_as(
                r,
                old(self).layout.stream_written(
                    old(self).disk(),
                    clusters@,
                    from as int,
                    zeros(to - from),
                ),
                final(self).disk(),
                old(self).dev.reliable(),
            ),
    {
        let ghost l = self.layout;
        let ghost start = self.disk();
        let mut at: u64 = from;
        while at < to
            invariant
                self.wf(),
                self.keeps(*old(self)),
                l == old(self).layout,
                start == old(self).disk(),
                from <= at <= to,
                l.stream_written(start, clusters@, from as int, zeros(to - from))
                    == l.stream_written(self.disk(), clusters@, at as int, zeros(to - at)),
            decreases to - at,
        {
            proof {
                lemma_cluster_size(l);
                lemma_span_positive(l, at as int, to - at);
            }
            let (offset, room) = match self.locate_in_chain(clusters, at) {
                Ok(p) => p,
                Err(e) => {
                    return Err(e);
                },
            };
            let chunk: u64 = if room < to - at {
                room
            } else {
                to - at
            };
            let piece: Vec<u8> = vec![0u8; chunk as usize];
            proof {
                let all = zeros(to - at);
                assert(piece@ =~= all.subrange(0, chunk as int));
                assert(all.subrange(chunk as int, all.len() as int) =~= zeros(to - at - chunk));
            }
            match self.write_bytes(offset, piece.as_slice()) {
                Ok(_) => {},
                Err(e) => {
                    return Err(e);
                },
            }
            at = at + chunk;
        }
        assert(zeros(0) =~= seq![]);
        Ok(())
    }
}

/// Flushing the file `before` on `fs` ended with `r` and left the file `after`
/// and the volume `now`: the record was rewritten where it was behind, and after
/// success nothing is left to make durable.
pub open spec fn fat_file_flushed<D: Device>(
    r: Result<(), FileError<D::Error>>,
    before: FatFile,
    fs: FatVfs<D>,
    after: FatFile,
    now: FatVfs<D>,
) -> bool {
    &&& after.map == before.map
    &&& after.writer.chain == before.writer.chain
    &&& after.writer.is_dir == before.writer.is_dir
    &&& after.state == before.state || after.state == (FileState {
        dirty: false,
        ..before.state
    })
    &&& r is Ok ==> !after.state.dirty && now.dev.durable() == now.dev.contents()
    &&& if before.state.dirty {
        let p = patched_fields(
            before.writer.props@,
            before.writer.is_dir,
            before.state.bookkeeping(None),
        );
        let run = fs.layout.record_rewritten(fs.disk(), before.writer.chain, p);
        &&& after.writer.props@ == p
        &&& match r {
            Ok(_) => run.out is Ok && now.disk() == run.disk,
            Err(FileError::Io(_)) => !fs.dev.reliable(),
            Err(e) => {
                &&& run.out is Err
                &&& e.kind() == file_error_of(run.out->Err_0)
                &&& now.disk() == run.disk
            },
        }
    } else {
        &&& after.writer == before.writer
        &&& now.disk() == fs.disk()
        &&& match r {
            Ok(_) => true,
            Err(FileError::Io(_)) => !fs.dev.reliable(),
            Err(_) => false,
        }
    }
}

impl FatFile {
    pub open spec fn wf(self) -> bool {
        &&& self.state.wf()
        &&& self.map.wf()
        &&& self.writer.wf()
    }

    /// The file of an opened stream, with the cursor at its start.
    pub fn new(stream: FatStream) -> (r: Self)
        ensures
            r.state == opened_state(stream.init),
            r.map == stream.map,
            r.writer == stream.writer,
            stream.wf() ==> r.wf(),
    {
        FatFile {
            state: FileState::new(&stream.init),
            map: stream.map,
            writer: stream.writer,
        }
    }

    /// Read from the cursor on into `buf`, and move the cursor behind what was
    /// read: as many bytes as the file has there, at most `buf.len()`.
    pub fn read<D: Device>(&mut self, fs: &FatVfs<D>, buf: &mut [u8]) -> (r: Result<
        usize,
        FileError<D::Error>,
    >)
        requires
            fs.wf(),
            old(self).wf(),
        ensures
            final(self).wf(),
            final(self).map == old(self).map,
            final(self).writer == old(self).writer,
            final(buf)@.len() == old(buf)@.len(),
            ({
                let run = fs.layout.file_read(
                    fs.dev.contents(),
                    old(self).state,
                    old(buf)@.len() as int,
                );
                match r {
                    Ok(n) => {
                        &&& n == old(self).state.readable(old(buf)@.len() as int)
                        &&& run is Ok
                        &&& run->Ok_0.len() == n
                        &&& final(buf)@ == crate::bytes::spliced(old(buf)@, 0, run->Ok_0)
                        &&& final(self).state == (FileState {
                            pos: (old(self).state.pos + n) as u64,
                            ..old(self).state
                        })
                    },
                    Err(FileError::Io(_)) => !fs.dev.reliable(),
                    Err(e) => {
                        &&& run is Err
                        &&& e.kind() == file_error_of(run->Err_0)
                        &&& final(self).state == old(self).state
                        &&& final(buf)@ == old(buf)@
                    },
                }
            }),
    {
        let room: usize = buf.len();
        let s = self.state;
        if s.pos >= s.len || room == 0 {
            proof {
                assert(zeros(0) =~= seq![]);
                assert(crate::bytes::spliced(buf@, 0, zeros(0)) =~= buf@);
            }
            return Ok(0);
        }
        let there: u64 = s.len - s.pos;
        let n: usize = if (room as u64) < there {
            room
        } else {
            there as usize
        };
        let ready: u64 = if s.pos >= s.valid_len {
            0
        } else {
            s.valid_len - s.pos
        };
        let k: usize = if (n as u64) < ready {
            n
        } else {
            ready as usize
        };
        assert(n == s.readable(room as int));
        assert(k == s.initialized(n as int));
        let head: Vec<u8> = if k == 0 {
            Vec::new()
        } else {
            let clusters: Vec<u32> = match fs.collect_chain(s.first_cluster) {
                Ok(c) => c,
                Err(e) => {
                    return Err(FileError::from(e));
                },
            };
            match fs.read_chain_at(clusters.as_slice(), s.pos, k) {
                Ok(v) => v,
                Err(e) => {
                    return Err(FileError::from(e));
                },
            }
        };
        let ghost want = head@ + zeros(n - k);
        proof {
            if k == 0 {
                assert(want =~= zeros(n as int));
            }
        }
        let mut i: usize = 0;
        while i < n
            invariant
                i <= n,
                k <= n,
                n <= buf@.len(),
                head@.len() == k,
                want == head@ + zeros(n - k),
                buf@.len() == old(buf)@.len(),
                buf@ =~= crate::bytes::spliced(old(buf)@, 0, want.subrange(0, i as int)),
            decreases n - i,
        {
            buf[i] = if i < k {
                head[i]
            } else {
                0
            };
            i += 1;
        }
        assert(want.subrange(0, n as int) =~= want);
        self.state.pos = s.pos + n as u64;
        Ok(n)
    }

    /// Make room for `needed` bytes.
    fn make_room<D: Device>(&mut self, fs: &mut FatVfs<D>, needed: u64) -> (r: Result<
        (),
        FileError<D::Error>,
    >)
        requires
            old(fs).wf(),
            old(self).wf(),
            needed <= u32::MAX,
        ensures
            final(fs).wf(),
            final(fs).keeps(*old(fs)),
            final(self).wf(),
            final(self).writer == old(self).writer,
            final(self).state == (FileState {
                first_cluster: final(self).state.first_cluster,
                dirty: final(self).state.dirty,
                ..old(self).state
            }),
            fat_handle_ends_as(
                r,
                old(fs).layout.room_made(
                    old(fs).disk(),
                    old(self).state,
                    old(self).map.allocated_len,
                    needed as int,
                ),
                final(fs).disk(),
                *final(self),
                old(fs).dev.reliable(),
            ),
    {
        if needed <= self.map.allocated_len {
            return Ok(());
        }
        let first: u32 = self.state.first_cluster;
        self.state.dirty = true;
        match self.map.extend(fs, Some(first), None, needed) {
            Ok(x) => {
                self.state.first_cluster = x.first_cluster;
                Ok(())
            },
            Err(e) => Err(e),
        }
    }

    /// Zero the bytes `from..to` of this file, then write `buf` at `to`.
    fn put_stream<D: Device>(&self, fs: &mut FatVfs<D>, from: u64, to: u64, buf: &[u8]) -> (r: Result<
        (),
        FsError<D::Error>,
    >)
        requires
            old(fs).wf(),
            from <= to,
            to + buf@.len() <= u64::MAX,
        ensures
            final(fs).wf(),
            final(fs).keeps(*old(fs)),
            fat_ends_as(
                r,
                old(fs).layout.stream_put(
                    old(fs).disk(),
                    self.state.first_cluster,
                    from as int,
                    to as int,
                    buf@,
                ),
                final(fs).disk(),
                old(fs).dev.reliable(),
            ),
    {
        let clusters: Vec<u32> = match fs.collect_chain(self.state.first_cluster) {
            Ok(c) => c,
            Err(e) => {
                return Err(e);
            },
        };
        match fs.zero_chain(clusters.as_slice(), from, to) {
            Ok(_) => {},
            Err(e) => {
                return Err(e);
            },
        }
        fs.write_chain_at(clusters.as_slice(), to, buf)
    }

    /// Write `buf` at the cursor, and move the cursor behind it. The file
    /// grows where needed; a gap between its end and the cursor reads as
    /// zeros. `now` is the clock reading that stamps the change.
    pub fn write<D: Device>(&mut self, fs: &mut FatVfs<D>, buf: &[u8], now: PrimitiveDateTime) -> (r:
        Result<usize, FileError<D::Error>>)
        requires
            old(fs).wf(),
            old(self).wf(),
            now.wf(),
        ensures
            final(fs).wf(),
            final(fs).keeps(*old(fs)),
            final(self).wf(),
            final(self).writer == old(self).writer,
            fat_handle_ends_as(
                r,
                old(fs).layout.file_written(
                    old(fs).disk(),
                    old(self).state,
                    old(self).map.allocated_len,
                    buf@,
                    now,
                ),
                final(fs).disk(),
                *final(self),
                old(fs).dev.reliable(),
            ),
    {
        if !self.state.writable {
            return Err(FileError::ReadOnly);
        }
        let n: usize = buf.len();
        if n == 0 {
            return Ok(0);
        }
        let s = self.state;
        if s.pos > 0xFFFF_FFFF || n as u64 > 0xFFFF_FFFF - s.pos {
            return Err(FileError::FileTooLarge);
        }
        match self.make_room(fs, s.pos + n as u64) {
            Ok(_) => {},
            Err(e) => {
                return Err(e);
            },
        }
        let from: u64 = if s.pos > s.valid_len {
            s.valid_len
        } else {
            s.pos
        };
        match self.put_stream(fs, from, s.pos, buf) {
            Ok(_) => {},
            Err(e) => {
                return Err(FileError::from(e));
            },
        }
        self.state.advance(n, now);
        Ok(n)
    }

    /// Resize the file to `size` bytes. Shrinking frees the tail; growing
    /// allocates, and the new range reads back as zeros. The cursor is left
    /// unchanged.
    pub fn set_len<D: Device>(&mut self, fs: &mut FatVfs<D>, size: u64, now: PrimitiveDateTime) -> (r:
        Result<(), FileError<D::Error>>)
        requires
            old(fs).wf(),
            old(self).wf(),
            now.wf(),
        ensures
            final(fs).wf(),
            final(fs).keeps(*old(fs)),
            final(self).wf(),
            final(self).writer == old(self).writer,
            fat_handle_ends_as(
                r,
                old(fs).layout.file_resized(
                    old(fs).disk(),
                    old(self).state,
                    old(self).map.allocated_len,
                    size,
                    now,
                ),
                final(fs).disk(),
                *final(self),
                old(fs).dev.reliable(),
            ),
    {
        if !self.state.writable {
            return Err(FileError::ReadOnly);
        }
        if size > 0xFFFF_FFFF {
            return Err(FileError::FileTooLarge);
        }
        if size == self.state.len {
            return Ok(());
        }
        if size > self.state.len {
            self.lengthen(fs, size, now)
        } else {
            self.shorten(fs, size, now)
        }
    }

    /// Give this file a larger size.
    fn lengthen<D: Device>(&mut self, fs: &mut FatVfs<D>, size: u64, now: PrimitiveDateTime) -> (r:
        Result<(), FileError<D::Error>>)
        requires
            old(fs).wf(),
            old(self).wf(),
            now.wf(),
            old(self).state.len < size <= u32::MAX,
        ensures
            final(fs).wf(),
            final(fs).keeps(*old(fs)),
            final(self).wf(),
            final(self).writer == old(self).writer,
            fat_handle_ends_as(
                r,
                old(fs).layout.file_lengthened(
                    old(fs).disk(),
                    old(self).state,
                    old(self).map.allocated_len,
                    size,
                    now,
                ),
                final(fs).disk(),
                *final(self),
                old(fs).dev.reliable(),
            ),
    {
        match self.make_room(fs, size) {
            Ok(_) => {},
            Err(e) => {
                return Err(e);
            },
        }
        let nothing: [u8; 0] = [];
        assert(nothing@ =~= seq![]);
        match self.put_stream(fs, self.state.valid_len, size, &nothing) {
            Ok(_) => {},
            Err(e) => {
                return Err(FileError::from(e));
            },
        }
        self.state.valid_len = size;
        self.state.len = size;
        if self.state.update_times {
            self.state.times.modified = Some(now);
        }
        self.state.dirty = true;
        Ok(())
    }

    /// Give this file a smaller size.
    fn shorten<D: Device>(&mut self, fs: &mut FatVfs<D>, size: u64, now: PrimitiveDateTime) -> (r:
        Result<(), FileError<D::Error>>)
        requires
            old(fs).wf(),
            old(self).wf(),
            now.wf(),
            size < old(self).state.len,
            size <= u32::MAX,
        ensures
            final(fs).wf(),
            final(fs).keeps(*old(fs)),
            final(self).wf(),
            final(self).writer == old(self).writer,
            fat_handle_ends_as(
                r,
                old(fs).layout.file_shortened(
                    old(fs).disk(),
                    old(self).state,
                    old(self).map.allocated_len,
                    size,
                    now,
                ),
                final(fs).disk(),
                *final(self),
                old(fs).dev.reliable(),
            ),
    {
        match self.map.free_tail(fs, self.state.first_cluster, size) {
            Ok(x) => {
                self.state.first_cluster = x.first_cluster;
            },
            Err(e) => {
                return Err(e);
            },
        }
        if self.state.valid_len > size {
            self.state.valid_len = size;
        }
        self.state.len = size;
        if self.state.update_times {
            self.state.times.modified = Some(now);
        }
        self.state.dirty = true;
        Ok(())
    }

    /// Write the directory entry back where it is behind, and make everything
    /// durable.
    pub fn flush<D: Device>(&mut self, fs: &mut FatVfs<D>) -> (r: Result<(), FileError<D::Error>>)
        requires
            old(fs).wf(),
            old(self).wf(),
        ensures
            final(fs).wf(),
            final(fs).keeps(*old(fs)),
            final(self).wf(),
            fat_file_flushed(r, *old(self), *old(fs), *final(self), *final(fs)),
    {
        if self.state.dirty {
            let patch = EntryPatch {
                size: Some(self.state.len),
                valid_size: Some(self.state.valid_len),
                first_cluster: Some(self.state.first_cluster),
                no_fat_chain: None,
                times: Some(self.state.times),
                attrs: None,
            };
            match self.writer.write_patch(fs, patch) {
                Ok(_) => {},
                Err(e) => {
                    return Err(e);
                },
            }
            self.state.dirty = false;
        }
        match fs.metadata_barrier() {
            Ok(_) => Ok(()),
            Err(e) => Err(FileError::from(e)),
        }
    }
}

} // verus!
