//! The unified file handle, [`File`], of both backends.
//!
//! Read-only handles fail writes with [`FileError::ReadOnly`]; writable
//! handles keep their directory-entry bookkeeping until they are flushed.

use vstd::prelude::*;

use crate::attrs::Attributes;
use crate::bytes::spliced;
use crate::calendar::{Date, PrimitiveDateTime};
use crate::device::Device;
use crate::dir::Metadata;
use crate::entry_times::EntryTimes;
use crate::error::{file_error_of, FileError, FsError};
use crate::exfat::file::{exfat_file_ends_as, exfat_file_flushed, ExfatFile};
use crate::fat::file::{fat_file_flushed, fat_handle_ends_as, FatFile};
use crate::vfs::{EntryPatch, StreamInit};
use crate::volume::Volume;

verus! {

/// Where a seek starts.
#[derive(Debug, Clone, Copy, PartialEq, Eq, Structural)]
pub enum SeekFrom {
    /// From the start of the file.
    Start(u64),
    /// From the end of the file.
    End(i64),
    /// From the cursor.
    Current(i64),
}

/// What an open file knows of itself, whatever the backend.
#[derive(Debug, Clone, Copy)]
pub struct FileState {
    /// First cluster; below 2 the file has none.
    pub first_cluster: u32,
    pub len: u64,
    /// Length of the initialized prefix; what lies beyond reads as zeros.
    pub valid_len: u64,
    /// The cursor.
    pub pos: u64,
    pub times: EntryTimes,
    pub attributes: Attributes,
    pub writable: bool,
    /// Writing stamps the file as modified.
    pub update_times: bool,
    /// The file cannot grow past the 32-bit size field.
    pub fat_size_cap: bool,
    /// The directory entry is behind what this handle knows.
    pub dirty: bool,
}

/// The state of a file that was just opened.
pub open spec fn opened_state(init: StreamInit) -> FileState {
    FileState {
        first_cluster: init.first_cluster,
        len: init.len,
        valid_len: init.valid_len,
        pos: 0,
        times: init.times,
        attributes: init.attributes,
        writable: init.writable,
        update_times: init.update_times,
        fat_size_cap: init.fat_size_cap,
        dirty: false,
    }
}

/// Where a seek leads; `None` if that is no position.
pub open spec fn sought(s: FileState, to: SeekFrom) -> Option<int> {
    let p = match to {
        SeekFrom::Start(n) => n as int,
        SeekFrom::End(n) => s.len + n,
        SeekFrom::Current(n) => s.pos + n,
    };
    if 0 <= p <= u64::MAX {
        Some(p)
    } else {
        None
    }
}

/// The offset `n` from `base`, if that is a position.
fn offset_from(base: u64, n: i64) -> (r: Option<u64>)
    ensures
        match r {
            Some(p) => p == base + n,
            None => base + n < 0 || base + n > u64::MAX,
        },
{
    if n >= 0 {
        let up: u64 = n as u64;
        if up <= u64::MAX - base {
            Some(base + up)
        } else {
            None
        }
    } else if n == i64::MIN {
        if base >= 0x8000_0000_0000_0000 {
            Some(base - 0x8000_0000_0000_0000)
        } else {
            None
        }
    } else {
        let down: u64 = (-n) as u64;
        if base >= down {
            Some(base - down)
        } else {
            None
        }
    }
}

impl FileState {
    /// The initialized prefix is part of the file, and the stamps are real.
    pub open spec fn wf(self) -> bool {
        &&& self.valid_len <= self.len
        &&& self.times.wf()
    }

    /// How many of `n` bytes a read at the cursor gets.
    pub open spec fn readable(self, n: int) -> int {
        if self.pos >= self.len {
            0
        } else if n < self.len - self.pos {
            n
        } else {
            self.len - self.pos
        }
    }

    /// How many of `n` readable bytes lie in the initialized prefix.
    pub open spec fn initialized(self, n: int) -> int {
        if self.pos >= self.valid_len {
            0
        } else if n < self.valid_len - self.pos {
            n
        } else {
            self.valid_len - self.pos
        }
    }

    /// The patch that brings the directory entry up to date.
    pub open spec fn bookkeeping(self, no_fat_chain: Option<bool>) -> EntryPatch {
        EntryPatch {
            size: Some(self.len),
            valid_size: Some(self.valid_len),
            first_cluster: Some(self.first_cluster),
            no_fat_chain,
            times: Some(self.times),
            attrs: None,
        }
    }

    /// The state after `n` bytes were written at the cursor.
    pub open spec fn after_write(self, n: int, now: PrimitiveDateTime) -> FileState {
        let end = (self.pos + n) as u64;
        FileState {
            len: if end > self.len {
                end
            } else {
                self.len
            },
            valid_len: if end > self.valid_len {
                end
            } else {
                self.valid_len
            },
            pos: end,
            times: self.stamped(now),
            dirty: true,
            ..self
        }
    }

    /// The stamps after a change.
    pub open spec fn stamped(self, now: PrimitiveDateTime) -> EntryTimes {
        if self.update_times {
            EntryTimes { modified: Some(now), ..self.times }
        } else {
            self.times
        }
    }

    /// The state of a file that was just opened.
    pub fn new(init: &StreamInit) -> (r: Self)
        ensures
            r == opened_state(*init),
    {
        FileState {
            first_cluster: init.first_cluster,
            len: init.len,
            valid_len: init.valid_len,
            pos: 0,
            times: init.times,
            attributes: init.attributes,
            writable: init.writable,
            update_times: init.update_times,
            fat_size_cap: init.fat_size_cap,
            dirty: false,
        }
    }

    /// The length and stamps as of now; attributes as of open.
    pub fn metadata(&self) -> (r: Metadata)
        ensures
            r == (Metadata {
                len: self.len,
                is_dir: false,
                attributes: self.attributes,
                created: self.times.created,
                modified: self.times.modified,
                accessed: self.times.accessed,
            }),
    {
        Metadata {
            len: self.len,
            is_dir: false,
            attributes: self.attributes,
            created: self.times.created,
            modified: self.times.modified,
            accessed: self.times.accessed,
        }
    }

    /// Set the creation stamp, written back on flush.
    pub fn set_created<E>(&mut self, when: PrimitiveDateTime) -> (r: Result<(), FileError<E>>)
        ensures
            !old(self).writable ==> r == Err::<(), FileError<E>>(FileError::ReadOnly)
                && *final(self) == *old(self),
            old(self).writable ==> r is Ok && *final(self) == (FileState {
                times: EntryTimes { created: Some(when), ..old(self).times },
                dirty: true,
                ..*old(self)
            }),
    {
        if !self.writable {
            return Err(FileError::ReadOnly);
        }
        self.times.created = Some(when);
        self.dirty = true;
        Ok(())
    }

    /// Set the modification stamp, written back on flush.
    pub fn set_modified<E>(&mut self, when: PrimitiveDateTime) -> (r: Result<(), FileError<E>>)
        ensures
            !old(self).writable ==> r == Err::<(), FileError<E>>(FileError::ReadOnly)
                && *final(self) == *old(self),
            old(self).writable ==> r is Ok && *final(self) == (FileState {
                times: EntryTimes { modified: Some(when), ..old(self).times },
                dirty: true,
                ..*old(self)
            }),
    {
        if !self.writable {
            return Err(FileError::ReadOnly);
        }
        self.times.modified = Some(when);
        self.dirty = true;
        Ok(())
    }

    /// Set the access date, written back on flush.
    pub fn set_accessed<E>(&mut self, when: Date) -> (r: Result<(), FileError<E>>)
        ensures
            !old(self).writable ==> r == Err::<(), FileError<E>>(FileError::ReadOnly)
                && *final(self) == *old(self),
            old(self).writable ==> r is Ok && *final(self) == (FileState {
                times: EntryTimes { accessed: Some(when), ..old(self).times },
                dirty: true,
                ..*old(self)
            }),
    {
        if !self.writable {
            return Err(FileError::ReadOnly);
        }
        self.times.accessed = Some(when);
        self.dirty = true;
        Ok(())
    }

    /// Move the cursor; it may lie past the end of the file.
    pub fn seek<E>(&mut self, to: SeekFrom) -> (r: Result<u64, FileError<E>>)
        ensures
            match sought(*old(self), to) {
                Some(p) => r == Ok::<u64, FileError<E>>(p as u64) && *final(self) == (FileState {
                    pos: p as u64,
                    ..*old(self)
                }),
                None => r == Err::<u64, FileError<E>>(FileError::InvalidSeek) && *final(self)
                    == *old(self),
            },
    {
        let target: Option<u64> = match to {
            SeekFrom::Start(n) => Some(n),
            SeekFrom::End(n) => offset_from(self.len, n),
            SeekFrom::Current(n) => offset_from(self.pos, n),
        };
        match target {
            Some(p) => {
                self.pos = p;
                Ok(p)
            },
            None => Err(FileError::InvalidSeek),
        }
    }

    /// Take note of `n` bytes written at the cursor.
    pub fn advance(&mut self, n: usize, now: PrimitiveDateTime)
        requires
            old(self).pos + n <= u64::MAX,
        ensures
            *final(self) == old(self).after_write(n as int, now),
            old(self).wf() && now.wf() ==> final(self).wf(),
    {
        let end: u64 = self.pos + n as u64;
        if end > self.len {
            self.len = end;
        }
        if end > self.valid_len {
            self.valid_len = end;
        }
        self.pos = end;
        if self.update_times {
            self.times.modified = Some(now);
        }
        self.dirty = true;
    }
}

/// An open file of either backend. Read-only handles fail writes with
/// [`FileError::ReadOnly`]; writable handles persist their directory-entry
/// bookkeeping when flushed.
pub struct File {
    pub inner: Inner,
}

/// The backend's own handle.
pub enum Inner {
    Fat(FatFile),
    Exfat(ExfatFile),
}

impl File {
    /// What the open file knows of itself.
    pub open spec fn state(self) -> FileState {
        match self.inner {
            Inner::Fat(f) => f.state,
            Inner::Exfat(f) => f.state,
        }
    }

    /// All but what the file knows of itself is as in `before`.
    pub open spec fn same_handle(self, before: Self) -> bool {
        match (self.inner, before.inner) {
            (Inner::Fat(a), Inner::Fat(b)) => a.map == b.map && a.writer == b.writer,
            (Inner::Exfat(a), Inner::Exfat(b)) => a.map == b.map && a.writer == b.writer,
            _ => false,
        }
    }

    /// The file was opened on a volume of this kind and layout, and both are
    /// in order.
    pub open spec fn opened_on<D: Device>(self, vol: Volume<D>) -> bool {
        match (self.inner, vol) {
            (Inner::Fat(f), Volume::Fat(v)) => v.wf() && f.wf(),
            (Inner::Exfat(f), Volume::Exfat(v)) => v.wf() && f.wf(v.layout),
            _ => false,
        }
    }

    /// The volume is the one that `before` was, but for its disk.
    pub open spec fn still_on<D: Device>(self, vol: Volume<D>, before: Volume<D>) -> bool {
        &&& self.opened_on(vol)
        &&& match (vol, before) {
            (Volume::Fat(v), Volume::Fat(b)) => v.keeps(b),
            (Volume::Exfat(v), Volume::Exfat(b)) => v.keeps(b),
            _ => false,
        }
    }

    /// What a read of at most `n` bytes at the cursor gets.
    pub open spec fn bytes_at_cursor<D: Device>(self, vol: Volume<D>, n: int) -> Result<
        Seq<u8>,
        FsError<()>,
    > {
        match (self.inner, vol) {
            (Inner::Fat(f), Volume::Fat(v)) => v.layout.file_read(v.dev.contents(), f.state, n),
            (Inner::Exfat(f), Volume::Exfat(v)) => v.layout.file_read(
                v.dev.contents(),
                f.state,
                f.map,
                n,
            ),
            _ => Err(FsError::InvalidInput),
        }
    }

    pub fn fat(file: FatFile) -> (r: Self)
        ensures
            r.inner == Inner::Fat(file),
    {
        File { inner: Inner::Fat(file) }
    }

    pub fn exfat(file: ExfatFile) -> (r: Self)
        ensures
            r.inner == Inner::Exfat(file),
    {
        File { inner: Inner::Exfat(file) }
    }

    /// The file's length in bytes.
    #[must_use]
    pub fn len(&self) -> (r: u64)
        ensures
            r == self.state().len,
    {
        match &self.inner {
            Inner::Fat(f) => f.state.len,
            Inner::Exfat(f) => f.state.len,
        }
    }

    /// Whether the file has no contents.
    #[must_use]
    pub fn is_empty(&self) -> (r: bool)
        ensures
            r == (self.state().len == 0),
    {
        self.len() == 0
    }

    /// Metadata for this open file. The length and timestamps reflect the
    /// handle's current state (they may have advanced through writes on this
    /// handle); attributes are as of open.
    #[must_use]
    pub fn metadata(&self) -> (r: Metadata)
        ensures
            r == (Metadata {
                len: self.state().len,
                is_dir: false,
                attributes: self.state().attributes,
                created: self.state().times.created,
                modified: self.state().times.modified,
                accessed: self.state().times.accessed,
            }),
    {
        match &self.inner {
            Inner::Fat(f) => f.state.metadata(),
            Inner::Exfat(f) => f.state.metadata(),
        }
    }

    /// Set the creation timestamp, written back on flush. Fails with
    /// [`FileError::ReadOnly`] on a read-only handle.
    pub fn set_created<E>(&mut self, when: PrimitiveDateTime) -> (r: Result<(), FileError<E>>)
        ensures
            final(self).same_handle(*old(self)),
            !old(self).state().writable ==> r == Err::<(), FileError<E>>(FileError::ReadOnly)
                && final(self).state() == old(self).state(),
            old(self).state().writable ==> r is Ok && final(self).state() == (FileState {
                times: EntryTimes { created: Some(when), ..old(self).state().times },
                dirty: true,
                ..old(self).state()
            }),
    {
        match &mut self.inner {
            Inner::Fat(f) => f.state.set_created(when),
            Inner::Exfat(f) => f.state.set_created(when),
        }
    }

    /// Like [`set_created`](File::set_created), for the last-modification
    /// timestamp.
    pub fn set_modified<E>(&mut self, when: PrimitiveDateTime) -> (r: Result<(), FileError<E>>)
        ensures
            final(self).same_handle(*old(self)),
            !old(self).state().writable ==> r == Err::<(), FileError<E>>(FileError::ReadOnly)
                && final(self).state() == old(self).state(),
            old(self).state().writable ==> r is Ok && final(self).state() == (FileState {
                times: EntryTimes { modified: Some(when), ..old(self).state().times },
                dirty: true,
                ..old(self).state()
            }),
    {
        match &mut self.inner {
            Inner::Fat(f) => f.state.set_modified(when),
            Inner::Exfat(f) => f.state.set_modified(when),
        }
    }

    /// Like [`set_created`](File::set_created), for the last-access date.
    pub fn set_accessed<E>(&mut self, when: Date) -> (r: Result<(), FileError<E>>)
        ensures
            final(self).same_handle(*old(self)),
            !old(self).state().writable ==> r == Err::<(), FileError<E>>(FileError::ReadOnly)
                && final(self).state() == old(self).state(),
            old(self).state().writable ==> r is Ok && final(self).state() == (FileState {
                times: EntryTimes { accessed: Some(when), ..old(self).state().times },
                dirty: true,
                ..old(self).state()
            }),
    {
        match &mut self.inner {
            Inner::Fat(f) => f.state.set_accessed(when),
            Inner::Exfat(f) => f.state.set_accessed(when),
        }
    }

    /// Move the cursor; it may lie past the end of the file.
    pub fn seek<E>(&mut self, to: SeekFrom) -> (r: Result<u64, FileError<E>>)
        ensures
            final(self).same_handle(*old(self)),
            match sought(old(self).state(), to) {
                Some(p) => r == Ok::<u64, FileError<E>>(p as u64) && final(self).state() == (
                FileState { pos: p as u64, ..old(self).state() }),
                None => r == Err::<u64, FileError<E>>(FileError::InvalidSeek) && final(self).state()
                    == old(self).state(),
            },
    {
        match &mut self.inner {
            Inner::Fat(f) => f.state.seek(to),
            Inner::Exfat(f) => f.state.seek(to),
        }
    }

    /// Read from the cursor on into `buf`, and move the cursor behind what was
    /// read: as many bytes as the file has there, at most `buf.len()`. A read
    /// past the end gets none.
    pub fn read<D: Device>(&mut self, vol: &Volume<D>, buf: &mut [u8]) -> (r: Result<
        usize,
        FileError<D::Error>,
    >)
        requires
            old(self).opened_on(*vol),
        ensures
            final(self).opened_on(*vol),
            final(self).same_handle(*old(self)),
            final(buf)@.len() == old(buf)@.len(),
            ({
                let s = old(self).state();
                let run = old(self).bytes_at_cursor(*vol, old(buf)@.len() as int);
                match r {
                    Ok(n) => {
                        &&& n == s.readable(old(buf)@.len() as int)
                        &&& run is Ok
                        &&& run->Ok_0.len() == n
                        &&& final(buf)@ == spliced(old(buf)@, 0, run->Ok_0)
                        &&& final(self).state() == (FileState { pos: (s.pos + n) as u64, ..s })
                    },
                    Err(FileError::Io(_)) => !vol.reliable(),
                    Err(e) => {
                        &&& run is Err
                        &&& e.kind() == file_error_of(run->Err_0)
                        &&& final(self).state() == s
                        &&& final(buf)@ == old(buf)@
                    },
                }
            }),
    {
        match &mut self.inner {
            Inner::Fat(f) => match vol {
                Volume::Fat(v) => f.read(v, buf),
                // The file was opened on a FAT volume.
                Volume::Exfat(_) => Err(FileError::Corrupt),
            },
            Inner::Exfat(f) => match vol {
                Volume::Exfat(v) => f.read(v, buf),
                // The file was opened on an exFAT volume.
                Volume::Fat(_) => Err(FileError::Corrupt),
            },
        }
    }

    /// Write `buf` at the cursor, and move the cursor behind it. The file
    /// grows where needed; a gap between its end and the cursor reads as
    /// zeros. `now` is the clock reading that stamps the change.
    pub fn write<D: Device>(&mut self, vol: &mut Volume<D>, buf: &[u8], now: PrimitiveDateTime) -> (r:
        Result<usize, FileError<D::Error>>)
        requires
            old(self).opened_on(*old(vol)),
            now.wf(),
        ensures
            final(self).still_on(*final(vol), *old(vol)),
            match (old(self).inner, *old(vol), final(self).inner, *final(vol)) {
                (Inner::Fat(f), Volume::Fat(v), Inner::Fat(g), Volume::Fat(w)) => {
                    &&& g.writer == f.writer
                    &&& fat_handle_ends_as(
                        r,
                        v.layout.file_written(
                            v.disk(),
                            f.state,
                            f.map.allocated_len,
                            buf@,
                            now,
                        ),
                        w.disk(),
                        g,
                        v.dev.reliable(),
                    )
                },
                (Inner::Exfat(f), Volume::Exfat(v), Inner::Exfat(g), Volume::Exfat(w)) => {
                    &&& g.writer == f.writer
                    &&& exfat_file_ends_as(
                        r,
                        v.layout.file_written(v.disk(), f.state, f.map, buf@, now),
                        w.disk(),
                        g,
                        v.dev.reliable(),
                    )
                },
                _ => false,
            },
    {
        match &mut self.inner {
            Inner::Fat(f) => match vol {
                Volume::Fat(v) => f.write(v, buf, now),
                // The file was opened on a FAT volume.
                Volume::Exfat(_) => Err(FileError::Corrupt),
            },
            Inner::Exfat(f) => match vol {
                Volume::Exfat(v) => f.write(v, buf, now),
                // The file was opened on an exFAT volume.
                Volume::Fat(_) => Err(FileError::Corrupt),
            },
        }
    }

    /// Resize the file to `size` bytes. Shrinking frees the tail; growing
    /// allocates, and the new range reads back as zeros. The cursor is left
    /// unchanged. Fails with [`FileError::ReadOnly`] on a read-only handle and
    /// [`FileError::FileTooLarge`] past the format's size cap.
    pub fn set_len<D: Device>(&mut self, vol: &mut Volume<D>, size: u64, now: PrimitiveDateTime) -> (r:
        Result<(), FileError<D::Error>>)
        requires
            old(self).opened_on(*old(vol)),
            now.wf(),
        ensures
            final(self).still_on(*final(vol), *old(vol)),
            match (old(self).inner, *old(vol), final(self).inner, *final(vol)) {
                (Inner::Fat(f), Volume::Fat(v), Inner::Fat(g), Volume::Fat(w)) => {
                    &&& g.writer == f.writer
                    &&& fat_handle_ends_as(
                        r,
                        v.layout.file_resized(
                            v.disk(),
                            f.state,
                            f.map.allocated_len,
                            size,
                            now,
                        ),
                        w.disk(),
                        g,
                        v.dev.reliable(),
                    )
                },
                (Inner::Exfat(f), Volume::Exfat(v), Inner::Exfat(g), Volume::Exfat(w)) => {
                    &&& g.writer == f.writer
                    &&& exfat_file_ends_as(
                        r,
                        v.layout.file_resized(v.disk(), f.state, f.map, size, now),
                        w.disk(),
                        g,
                        v.dev.reliable(),
                    )
                },
                _ => false,
            },
    {
        match &mut self.inner {
            Inner::Fat(f) => match vol {
                Volume::Fat(v) => f.set_len(v, size, now),
                // The file was opened on a FAT volume.
                Volume::Exfat(_) => Err(FileError::Corrupt),
            },
            Inner::Exfat(f) => match vol {
                Volume::Exfat(v) => f.set_len(v, size, now),
                // The file was opened on an exFAT volume.
                Volume::Fat(_) => Err(FileError::Corrupt),
            },
        }
    }

    /// Write the directory entry back where it is behind, and make everything
    /// durable.
    pub fn flush<D: Device>(&mut self, vol: &mut Volume<D>) -> (r: Result<(), FileError<D::Error>>)
        requires
            old(self).opened_on(*old(vol)),
        ensures
            final(self).still_on(*final(vol), *old(vol)),
            match (old(self).inner, *old(vol), final(self).inner, *final(vol)) {
                (Inner::Fat(f), Volume::Fat(v), Inner::Fat(g), Volume::Fat(w)) => fat_file_flushed(
                    r,
                    f,
                    v,
                    g,
                    w,
                ),
                (
                    Inner::Exfat(f),
                    Volume::Exfat(v),
                    Inner::Exfat(g),
                    Volume::Exfat(w),
                ) => exfat_file_flushed(r, f, v, g, w),
                _ => false,
            },
    {
        match &mut self.inner {
            Inner::Fat(f) => match vol {
                Volume::Fat(v) => f.flush(v),
                // The file was opened on a FAT volume.
                Volume::Exfat(_) => Err(FileError::Corrupt),
            },
            Inner::Exfat(f) => match vol {
                Volume::Exfat(v) => f.flush(v),
                // The file was opened on an exFAT volume.
                Volume::Fat(_) => Err(FileError::Corrupt),
            },
        }
    }
}

} // verus!
