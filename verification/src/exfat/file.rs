//! Open files of exFAT volumes.

use vstd::prelude::*;

use super::cluster_map::ExfatClusterMap;
use super::dir_slot::{merged_times, ExfatDirSlotWriter};
use super::layout::{cluster_count_for, clusters_for, ends_as, lemma_unit_sizes, Disk, ExfatLayout};
use super::open::ExfatStream;
use super::volume::ExfatVfs;
use crate::calendar::PrimitiveDateTime;
use crate::device::Device;
use crate::error::{file_error_of, FileError, FsError};
use crate::file::{opened_state, FileState};
use crate::vfs::EntryPatch;

verus! {

/// An open file of an exFAT volume.
pub struct ExfatFile {
    pub state: FileState,
    pub map: ExfatClusterMap,
    pub writer: ExfatDirSlotWriter,
}

/// How an operation on an open file ends: its result, the disk and the file
/// it leaves.
pub struct ExfatFileRun<T> {
    pub out: Result<T, FileError<()>>,
    pub disk: Disk,
    pub state: FileState,
    pub map: ExfatClusterMap,
}

/// `r`, the disk and the file are what `run` says, unless the storage failed.
pub open spec fn exfat_file_ends_as<T, E>(
    r: Result<T, FileError<E>>,
    run: ExfatFileRun<T>,
    after: Disk,
    file: ExfatFile,
    reliable: bool,
) -> bool {
    match r {
        Ok(v) => {
            &&& run.out == Ok::<T, FileError<()>>(v)
            &&& after == run.disk
            &&& file.state == run.state
            &&& file.map == run.map
        },
        Err(FileError::Io(_)) => !reliable,
        Err(e) => {
            &&& run.out == Err::<T, FileError<()>>(e.kind())
            &&& after == run.disk
            &&& file.state == run.state
            &&& file.map == run.map
        },
    }
}

/// `n` zero bytes.
pub open spec fn zeros(n: int) -> Seq<u8> {
    Seq::new(n as nat, |i: int| 0u8)
}

impl ExfatLayout {
    /// The clusters of an open file.
    pub open spec fn file_clusters(self, img: Seq<u8>, s: FileState, m: ExfatClusterMap) -> Result<
        Seq<u32>,
        FsError<()>,
    > {
        self.dir_clusters(
            img,
            s.first_cluster,
            m.no_fat_chain,
            clusters_for(m.allocated_len as int, m.cluster_size as int),
        )
    }

    /// What a read of up to `n` bytes at the cursor gives. Bytes past the
    /// initialized prefix are zeros.
    pub open spec fn file_read(self, img: Seq<u8>, s: FileState, m: ExfatClusterMap, n: int) -> Result<
        Seq<u8>,
        FsError<()>,
    > {
        let all = s.readable(n);
        let k = s.initialized(all);
        if k == 0 {
            Ok(zeros(all))
        } else {
            match self.file_clusters(img, s, m) {
                Err(e) => Err(e),
                Ok(cs) => match self.stream_read(img, cs, s.pos as int, k) {
                    Err(e) => Err(e),
                    Ok(b) => Ok(b + zeros(all - k)),
                },
            }
        }
    }

    /// The largest length a file can be given.
    pub open spec fn length_cap(self, s: FileState, m: ExfatClusterMap) -> int {
        if s.fat_size_cap {
            u32::MAX as int
        } else {
            u64::MAX as int
        }
    }

    /// Making room for `needed` bytes.
    pub open spec fn room_made(self, d: Disk, s: FileState, m: ExfatClusterMap, needed: int) -> ExfatFileRun<
        (),
    > {
        if needed <= m.allocated_len {
            ExfatFileRun { out: Ok(()), disk: d, state: s, map: m }
        } else {
            let x = self.stream_extended(d, m, Some(s.first_cluster), None, needed);
            match x.out {
                Err(e) => ExfatFileRun {
                    out: Err(file_error_of(e)),
                    disk: x.disk,
                    state: FileState { dirty: true, ..s },
                    map: x.map,
                },
                Ok(r) => ExfatFileRun {
                    out: Ok(()),
                    disk: x.disk,
                    state: FileState { first_cluster: r.first_cluster, dirty: true, ..s },
                    map: x.map,
                },
            }
        }
    }

    /// Writing `bytes` at the cursor of a file that has room for them. What
    /// lies between the initialized prefix and the cursor is zeroed first.
    pub open spec fn bytes_put(
        self,
        d: Disk,
        s: FileState,
        m: ExfatClusterMap,
        bytes: Seq<u8>,
        now: PrimitiveDateTime,
    ) -> ExfatFileRun<usize> {
        match self.file_clusters(d.img, s, m) {
            Err(e) => ExfatFileRun { out: Err(file_error_of(e)), disk: d, state: s, map: m },
            Ok(cs) => {
                let gap = if s.pos > s.valid_len {
                    s.pos - s.valid_len
                } else {
                    0
                };
                let z = self.stream_written(d, cs, s.valid_len as int, zeros(gap));
                match z.out {
                    Err(e) => ExfatFileRun {
                        out: Err(file_error_of(e)),
                        disk: z.disk,
                        state: s,
                        map: m,
                    },
                    Ok(_) => {
                        let w = self.stream_written(z.disk, cs, s.pos as int, bytes);
                        match w.out {
                            Err(e) => ExfatFileRun {
                                out: Err(file_error_of(e)),
                                disk: w.disk,
                                state: s,
                                map: m,
                            },
                            Ok(_) => ExfatFileRun {
                                out: Ok(bytes.len() as usize),
                                disk: w.disk,
                                state: s.after_write(bytes.len() as int, now),
                                map: m,
                            },
                        }
                    },
                }
            },
        }
    }

    /// Writing `bytes` at the cursor.
    pub open spec fn file_written(
        self,
        d: Disk,
        s: FileState,
        m: ExfatClusterMap,
        bytes: Seq<u8>,
        now: PrimitiveDateTime,
    ) -> ExfatFileRun<usize> {
        let end = s.pos + bytes.len();
        if !s.writable {
            ExfatFileRun { out: Err(FileError::ReadOnly), disk: d, state: s, map: m }
        } else if bytes.len() == 0 {
            ExfatFileRun { out: Ok(0), disk: d, state: s, map: m }
        } else if end > self.length_cap(s, m) {
            ExfatFileRun { out: Err(FileError::FileTooLarge), disk: d, state: s, map: m }
        } else {
            let r = self.room_made(d, s, m, end);
            match r.out {
                Err(e) => ExfatFileRun { out: Err(e), disk: r.disk, state: r.state, map: r.map },
                Ok(_) => self.bytes_put(r.disk, r.state, r.map, bytes, now),
            }
        }
    }

    /// Resizing a file. The cursor stays; a longer file reads zeros behind
    /// its old contents, since nothing there is initialized.
    pub open spec fn file_resized(
        self,
        d: Disk,
        s: FileState,
        m: ExfatClusterMap,
        size: u64,
        now: PrimitiveDateTime,
    ) -> ExfatFileRun<()> {
        if !s.writable {
            ExfatFileRun { out: Err(FileError::ReadOnly), disk: d, state: s, map: m }
        } else if size > self.length_cap(s, m) {
            ExfatFileRun { out: Err(FileError::FileTooLarge), disk: d, state: s, map: m }
        } else if size == s.len {
            ExfatFileRun { out: Ok(()), disk: d, state: s, map: m }
        } else if size > s.len {
            let r = self.room_made(d, s, m, size as int);
            match r.out {
                Err(e) => ExfatFileRun { out: Err(e), disk: r.disk, state: r.state, map: r.map },
                Ok(_) => ExfatFileRun {
                    out: Ok(()),
                    disk: r.disk,
                    state: FileState {
                        len: size,
                        times: r.state.stamped(now),
                        dirty: true,
                        ..r.state
                    },
                    map: r.map,
                },
            }
        } else {
            let t = self.tail_freed(d, m, s.first_cluster, size as int);
            match t.out {
                Err(e) => ExfatFileRun {
                    out: Err(file_error_of(e)),
                    disk: t.disk,
                    state: s,
                    map: t.map,
                },
                Ok(f) => ExfatFileRun {
                    out: Ok(()),
                    disk: t.disk,
                    state: FileState {
                        first_cluster: f.first_cluster,
                        len: size,
                        valid_len: if s.valid_len < size {
                            s.valid_len
                        } else {
                            size
                        },
                        times: s.stamped(now),
                        dirty: true,
                        ..s
                    },
                    map: t.map,
                },
            }
        }
    }
}

/// Flushing the file `before` on `vol` ended with `r` and left the file `after`
/// and the volume `now`: the entry was patched where it was behind, and after
/// success nothing is left to make durable.
pub open spec fn exfat_file_flushed<D: Device>(
    r: Result<(), FileError<D::Error>>,
    before: ExfatFile,
    vol: ExfatVfs<D>,
    after: ExfatFile,
    now: ExfatVfs<D>,
) -> bool {
    &&& after.map == before.map
    &&& after.writer.loc == before.writer.loc
    &&& after.state == before.state || after.state == (FileState {
        dirty: false,
        ..before.state
    })
    &&& r is Ok ==> !after.state.dirty && now.dev.durable() == now.dev.contents()
    &&& match (before.state.dirty, before.writer.loc) {
        (true, Some(loc)) => {
            let patch = before.state.bookkeeping(Some(before.map.no_fat_chain));
            let run = vol.layout.entry_patched(
                vol.disk(),
                loc,
                patch,
                merged_times(before.writer.times, patch.times),
            );
            &&& after.writer.times == merged_times(before.writer.times, patch.times)
            &&& match r {
                Ok(_) => run.out is Ok && now.disk() == run.disk,
                Err(FileError::Io(_)) => !vol.dev.reliable(),
                Err(e) => {
                    &&& run.out is Err
                    &&& e.kind() == file_error_of(run.out->Err_0)
                    &&& now.disk() == run.disk
                },
            }
        },
        _ => {
            &&& after.writer == before.writer
            &&& now.disk() == vol.disk()
            &&& match r {
                Ok(_) => true,
                Err(FileError::Io(_)) => !vol.dev.reliable(),
                Err(_) => false,
            }
        },
    }
}

impl ExfatFile {
    pub open spec fn wf(self, l: ExfatLayout) -> bool {
        &&& self.state.wf()
        &&& self.map.wf(l)
        &&& self.writer.wf()
        &&& self.map.no_fat_chain && self.state.first_cluster >= 2 ==> self.map.run_ok(
            self.state.first_cluster as int,
        )
    }

    /// The file of an opened stream, with the cursor at its start.
    pub fn new(stream: &ExfatStream) -> (r: Self)
        ensures
            r.state == opened_state(stream.init),
            r.map == stream.map,
            r.writer.loc == stream.writer.loc,
            r.writer.times == stream.writer.times,
            forall|l: ExfatLayout| #[trigger] stream.wf(l) ==> r.wf(l),
    {
        ExfatFile {
            state: FileState::new(&stream.init),
            map: stream.map,
            writer: ExfatDirSlotWriter { loc: stream.writer.loc, times: stream.writer.times },
        }
    }

    /// The clusters of this file.
    fn clusters<D: Device>(&self, vol: &ExfatVfs<D>) -> (r: Result<Vec<u32>, FsError<D::Error>>)
        requires
            vol.wf(),
            self.wf(vol.layout),
        ensures
            match r {
                Ok(v) => vol.layout.file_clusters(vol.dev.contents(), self.state, self.map) == Ok::<
                    Seq<u32>,
                    FsError<()>,
                >(v@),
                Err(FsError::Io(_)) => !vol.dev.reliable(),
                Err(e) => vol.layout.file_clusters(vol.dev.contents(), self.state, self.map)
                    == Err::<Seq<u32>, FsError<()>>(e.kind()),
            },
    {
        let count: u32 = cluster_count_for(self.map.allocated_len, self.map.cluster_size);
        vol.collect_dir_clusters_of(self.state.first_cluster, self.map.no_fat_chain, count)
    }

    /// Read from the cursor on into `buf`, and move the cursor behind what was
    /// read: as many bytes as the file has there, at most `buf.len()`.
    pub fn read<D: Device>(&mut self, vol: &ExfatVfs<D>, buf: &mut [u8]) -> (r: Result<
        usize,
        FileError<D::Error>,
    >)
        requires
            vol.wf(),
            old(self).wf(vol.layout),
        ensures
            final(self).wf(vol.layout),
            final(self).map == old(self).map,
            final(self).writer == old(self).writer,
            final(buf)@.len() == old(buf)@.len(),
            ({
                let run = vol.layout.file_read(
                    vol.dev.contents(),
                    old(self).state,
                    old(self).map,
                    old(buf)@.len() as int,
                );
                match r {
                    Ok(n) => {
                        &&& n == old(self).state.readable(old(buf)@.len() as int)
                        &&& run is Ok
                        &&& run->Ok_0.len() == n
                        &&& final(buf)@ == crate::bytes::spliced(old(buf)@, 0, run->Ok_0)
                        &&& final(self).state == (FileState {
                            pos: (old(self).state.pos + n) as u64,
                            ..old(self).state
                        })
                    },
                    Err(FileError::Io(_)) => !vol.dev.reliable(),
                    Err(e) => {
                        &&& run is Err
                        &&& e.kind() == file_error_of(run->Err_0)
                        &&& final(self).state == old(self).state
                        &&& final(buf)@ == old(buf)@
                    },
                }
            }),
    {
        let room: usize = buf.len();
        let s = self.state;
        if s.pos >= s.len || room == 0 {
            proof {
                assert(zeros(0) =~= seq![]);
                assert(crate::bytes::spliced(buf@, 0, zeros(0)) =~= buf@);
            }
            return Ok(0);
        }
        let there: u64 = s.len - s.pos;
        let n: usize = if (room as u64) < there {
            room
        } else {
            there as usize
        };
        let ready: u64 = if s.pos >= s.valid_len {
            0
        } else {
            s.valid_len - s.pos
        };
        let k: usize = if (n as u64) < ready {
            n
        } else {
            ready as usize
        };
        assert(n == s.readable(room as int));
        assert(k == s.initialized(n as int));
        let head: Vec<u8> = if k == 0 {
            Vec::new()
        } else {
            let clusters: Vec<u32> = match self.clusters(vol) {
                Ok(c) => c,
                Err(e) => {
                    return Err(FileError::from(e));
                },
            };
            match vol.read_stream_at(clusters.as_slice(), s.pos, k) {
                Ok(v) => v,
                Err(e) => {
                    return Err(FileError::from(e));
                },
            }
        };
        let ghost want = head@ + zeros(n - k);
        proof {
            if k == 0 {
                assert(want =~= zeros(n as int));
            }
        }
        let mut i: usize = 0;
        while i < n
            invariant
                i <= n,
                k <= n,
                n <= buf@.len(),
                head@.len() == k,
                want == head@ + zeros(n - k),
                buf@.len() == old(buf)@.len(),
                buf@ =~= crate::bytes::spliced(old(buf)@, 0, want.subrange(0, i as int)),
            decreases n - i,
        {
            buf[i] = if i < k {
                head[i]
            } else {
                0
            };
            i += 1;
        }
        assert(want.subrange(0, n as int) =~= want);
        self.state.pos = s.pos + n as u64;
        Ok(n)
    }

    /// Make room for `needed` bytes.
    fn make_room<D: Device>(&mut self, vol: &mut ExfatVfs<D>, needed: u64) -> (r: Result<
        (),
        FileError<D::Error>,
    >)
        requires
            old(vol).wf(),
            old(self).wf(old(vol).layout),
        ensures
            final(vol).wf(),
            final(vol).keeps(*old(vol)),
            final(self).wf(old(vol).layout),
            final(self).writer == old(self).writer,
            exfat_file_ends_as(
                r,
                old(vol).layout.room_made(
                    old(vol).disk(),
                    old(self).state,
                    old(self).map,
                    needed as int,
                ),
                final(vol).disk(),
                *final(self),
                old(vol).dev.reliable(),
            ),
    {
        if needed <= self.map.allocated_len {
            return Ok(());
        }
        let first: u32 = self.state.first_cluster;
        self.state.dirty = true;
        match self.map.extend(vol, Some(first), None, needed) {
            Ok(x) => {
                self.state.first_cluster = x.first_cluster;
                Ok(())
            },
            Err(e) => Err(e),
        }
    }

    /// Zero the bytes `from..to` of the stream that `clusters` form.
    fn zero_fill<D: Device>(vol: &mut ExfatVfs<D>, clusters: &[u32], from: u64, to: u64) -> (r: Result<
        (),
        FsError<D::Error>,
    >)
        requires
            old(vol).wf(),
            from <= to,
        ensures
            final(vol).wf(),
            final(vol).keeps(*old(vol)),
            ends_as(
                r,
                old(vol).layout.stream_written(
                    old(vol).disk(),
                    clusters@,
                    from as int,
                    zeros(to - from),
                ),
                final(vol).disk(),
                old(vol).dev.reliable(),
            ),
    {
        let ghost l = vol.layout;
        let ghost start = vol.disk();
        proof {
            lemma_unit_sizes(l.boot);
        }
        let cluster_bytes: u64 = vol.layout.boot.bytes_per_cluster() as u64;
        let mut at: u64 = from;
        while at < to
            invariant
                vol.wf(),
                vol.keeps(*old(vol)),
                l == old(vol).layout,
                start == old(vol).disk(),
                cluster_bytes == l.boot.cluster_bytes(),
                512 <= cluster_bytes <= 0x200_0000,
                from <= at <= to,
                l.stream_written(start, clusters@, from as int, zeros(to - from))
                    == l.stream_written(vol.disk(), clusters@, at as int, zeros(to - at)),
            decreases to - at,
        {
            let room: u64 = cluster_bytes - at % cluster_bytes;
            let chunk: u64 = if room < to - at {
                room
            } else {
                to - at
            };
            let piece: Vec<u8> = vec![0u8; chunk as usize];
            proof {
                let all = zeros(to - at);
                assert(piece@ =~= all.subrange(0, chunk as int));
                assert(piece@ =~= zeros(chunk as int));
                assert(all.subrange(chunk as int, all.len() as int) =~= zeros(to - at - chunk));
                lemma_one_chunk(l, vol.disk(), clusters@, at as int, piece@);
            }
            match vol.write_dir_stream_at(clusters, at, piece.as_slice()) {
                Ok(_) => {},
                Err(e) => {
                    return Err(e);
                },
            }
            at = at + chunk;
        }
        assert(zeros(0) =~= seq![]);
        Ok(())
    }

    /// Write `buf` at the cursor of a file that has room for it.
    fn put_bytes<D: Device>(
        &mut self,
        vol: &mut ExfatVfs<D>,
        buf: &[u8],
        now: PrimitiveDateTime,
    ) -> (r: Result<usize, FileError<D::Error>>)
        requires
            old(vol).wf(),
            old(self).wf(old(vol).layout),
            old(self).state.pos + buf@.len() <= u64::MAX,
            now.wf(),
        ensures
            final(vol).wf(),
            final(vol).keeps(*old(vol)),
            final(self).wf(old(vol).layout),
            final(self).writer == old(self).writer,
            exfat_file_ends_as(
                r,
                old(vol).layout.bytes_put(
                    old(vol).disk(),
                    old(self).state,
                    old(self).map,
                    buf@,
                    now,
                ),
                final(vol).disk(),
                *final(self),
                old(vol).dev.reliable(),
            ),
    {
        let s = self.state;
        let clusters: Vec<u32> = match self.clusters(vol) {
            Ok(c) => c,
            Err(e) => {
                return Err(FileError::from(e));
            },
        };
        let from: u64 = s.valid_len;
        let to: u64 = if s.pos > s.valid_len {
            s.pos
        } else {
            s.valid_len
        };
        match Self::zero_fill(vol, clusters.as_slice(), from, to) {
            Ok(_) => {},
            Err(e) => {
                return Err(FileError::from(e));
            },
        }
        match vol.write_dir_stream_at(clusters.as_slice(), s.pos, buf) {
            Ok(_) => {},
            Err(e) => {
                return Err(FileError::from(e));
            },
        }
        let n: usize = buf.len();
        self.state.advance(n, now);
        Ok(n)
    }

    /// Write `buf` at the cursor, and move the cursor behind it. The file
    /// grows where needed; a gap between its end and the cursor reads as
    /// zeros. `now` is the clock reading that stamps the change.
    pub fn write<D: Device>(&mut self, vol: &mut ExfatVfs<D>, buf: &[u8], now: PrimitiveDateTime) -> (r:
        Result<usize, FileError<D::Error>>)
        requires
            old(vol).wf(),
            old(self).wf(old(vol).layout),
            now.wf(),
        ensures
            final(vol).wf(),
            final(vol).keeps(*old(vol)),
            final(self).wf(old(vol).layout),
            final(self).writer == old(self).writer,
            exfat_file_ends_as(
                r,
                old(vol).layout.file_written(
                    old(vol).disk(),
                    old(self).state,
                    old(self).map,
                    buf@,
                    now,
                ),
                final(vol).disk(),
                *final(self),
                old(vol).dev.reliable(),
            ),
    {
        if !self.state.writable {
            return Err(FileError::ReadOnly);
        }
        let n: usize = buf.len();
        if n == 0 {
            return Ok(0);
        }
        let cap: u64 = self.length_cap();
        if self.state.pos > cap || n as u64 > cap - self.state.pos {
            return Err(FileError::FileTooLarge);
        }
        match self.make_room(vol, self.state.pos + n as u64) {
            Ok(_) => {},
            Err(e) => {
                return Err(e);
            },
        }
        self.put_bytes(vol, buf, now)
    }

    /// The largest length this file can be given.
    fn length_cap(&self) -> (r: u64)
        ensures
            forall|l: ExfatLayout| r == #[trigger] l.length_cap(self.state, self.map),
    {
        if self.state.fat_size_cap {
            0xFFFF_FFFF
        } else {
            u64::MAX
        }
    }

    /// Resize the file to `size` bytes. Shrinking frees the tail; growing
    /// allocates, and the new range reads back as zeros. The cursor is left
    /// unchanged.
    pub fn set_len<D: Device>(&mut self, vol: &mut ExfatVfs<D>, size: u64, now: PrimitiveDateTime) -> (r:
        Result<(), FileError<D::Error>>)
        requires
            old(vol).wf(),
            old(self).wf(old(vol).layout),
            now.wf(),
        ensures
            final(vol).wf(),
            final(vol).keeps(*old(vol)),
            final(self).wf(old(vol).layout),
            final(self).writer == old(self).writer,
            exfat_file_ends_as(
                r,
                old(vol).layout.file_resized(
                    old(vol).disk(),
                    old(self).state,
                    old(self).map,
                    size,
                    now,
                ),
                final(vol).disk(),
                *final(self),
                old(vol).dev.reliable(),
            ),
    {
        if !self.state.writable {
            return Err(FileError::ReadOnly);
        }
        let cap: u64 = self.length_cap();
        if size > cap {
            return Err(FileError::FileTooLarge);
        }
        if size == self.state.len {
            return Ok(());
        }
        if size > self.state.len {
            match self.make_room(vol, size) {
                Ok(_) => {},
                Err(e) => {
                    return Err(e);
                },
            }
        } else {
            match self.map.free_tail(vol, self.state.first_cluster, size) {
                Ok(x) => {
                    self.state.first_cluster = x.first_cluster;
                },
                Err(e) => {
                    return Err(e);
                },
            }
            if self.state.valid_len > size {
                self.state.valid_len = size;
            }
        }
        self.state.len = size;
        if self.state.update_times {
            self.state.times.modified = Some(now);
        }
        self.state.dirty = true;
        Ok(())
    }

    /// Write the directory entry back where it is behind, and make everything
    /// durable.
    pub fn flush<D: Device>(&mut self, vol: &mut ExfatVfs<D>) -> (r: Result<(), FileError<D::Error>>)
        requires
            old(vol).wf(),
            old(self).wf(old(vol).layout),
        ensures
            final(vol).wf(),
            final(vol).keeps(*old(vol)),
            final(self).wf(old(vol).layout),
            exfat_file_flushed(r, *old(self), *old(vol), *final(self), *final(vol)),
    {
        if self.state.dirty {
            let patch = EntryPatch {
                size: Some(self.state.len),
                valid_size: Some(self.state.valid_len),
                first_cluster: Some(self.state.first_cluster),
                no_fat_chain: Some(self.map.no_fat_chain),
                times: Some(self.state.times),
                attrs: None,
            };
            match self.writer.write_patch(vol, patch) {
                Ok(_) => {},
                Err(e) => {
                    return Err(e);
                },
            }
            self.state.dirty = false;
        }
        match vol.sync() {
            Ok(_) => Ok(()),
            Err(e) => Err(FileError::from(e)),
        }
    }
}

/// A piece that lies within one cluster is written in one go.
proof fn lemma_one_chunk(l: ExfatLayout, d: Disk, cs: Seq<u32>, at: int, piece: Seq<u8>)
    requires
        l.boot.valid_shifts(),
        0 < piece.len(),
        at % l.boot.cluster_bytes() + piece.len() <= l.boot.cluster_bytes(),
    ensures
        l.stream_written(d, cs, at, piece) == (if at / l.boot.cluster_bytes() >= cs.len() {
            super::layout::failed(
                FsError::Corrupt(crate::error::CorruptKind::DirEntry),
                d,
            )
        } else {
            l.written(d, l.stream_pos(cs, at), piece)
        }),
{
    let n = piece.len() as int;
    assert(piece.subrange(0, n) =~= piece);
    assert(piece.subrange(n, n) =~= seq![]);
    let w = l.written(d, l.stream_pos(cs, at), piece);
    if w.out is Ok {
        assert(l.stream_written(w.disk, cs, at + n, seq![]) == (super::layout::Run {
            out: Ok(()),
            disk: w.disk,
        }));
    }
}

} // verus!
