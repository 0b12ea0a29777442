//! The mounted volume: byte transfers and the `VolumeDirty` protocol.

use vstd::prelude::*;

use super::layout::{
    beyond_device, ends_as, le_bytes16, lemma_le_bytes16, read_of, Disk, ExfatLayout,
    PERCENT_IN_USE_OFFSET, VOLUME_DIRTY, VOLUME_FLAGS_OFFSET,
};
use crate::bytes::spliced;
use crate::codec::put_u16;
use crate::codec::exfat::name_hash;
use crate::device::{read_exact_at, Device, DeviceError};
use crate::error::{CorruptKind, FsError};
use crate::handles::HandleTable;
use crate::name::NamePolicy;

verus! {

/// A mounted exFAT volume.
pub struct ExfatVfs<D: Device> {
    pub dev: D,
    pub layout: ExfatLayout,
    /// Mount-time name policy (upcase table for this volume).
    pub name_policy: NamePolicy,
    /// Writable opens are exclusive; read-only may be shared.
    pub handles: HandleTable,
    /// Stamp files as modified when they are written.
    pub auto_timestamps: bool,
    /// `VolumeDirty` set by this session's writes; cleared on flush.
    pub volume_dirty: bool,
}

/// The error that a failed transfer becomes.
pub fn transfer_error<E>(e: DeviceError<E>) -> (r: FsError<E>)
    ensures
        r == (match e {
            DeviceError::OutOfBounds => FsError::Corrupt(CorruptKind::Other),
            DeviceError::Failed(x) => FsError::Io(x),
        }),
{
    match e {
        DeviceError::OutOfBounds => FsError::Corrupt(CorruptKind::Other),
        DeviceError::Failed(x) => FsError::Io(x),
    }
}

impl<D: Device> ExfatVfs<D> {
    pub open spec fn wf(self) -> bool {
        &&& self.layout.wf()
        &&& self.name_policy.wf()
        &&& self.handles.wf()
        &&& self.dev.contents().len() >= 4096
    }

    /// The disk as this volume sees it.
    pub open spec fn disk(self) -> Disk {
        Disk { img: self.dev.contents(), dirty: self.volume_dirty }
    }

    /// Everything but the disk is as in `before`.
    pub open spec fn keeps(self, before: Self) -> bool {
        &&& self.layout == before.layout
        &&& self.name_policy == before.name_policy
        &&& self.handles == before.handles
        &&& self.auto_timestamps == before.auto_timestamps
        &&& self.dev.reliable() == before.dev.reliable()
        &&& self.dev.contents().len() == before.dev.contents().len()
    }

    /// Read an arbitrary byte range.
    pub fn read_at(&self, offset: u64, buf: &mut [u8]) -> (r: Result<(), FsError<D::Error>>)
        ensures
            final(buf)@.len() == old(buf)@.len(),
            match r {
                Ok(_) => read_of(self.dev.contents(), offset as int, old(buf)@.len() as int) == Ok::<
                    Seq<u8>,
                    FsError<()>,
                >(final(buf)@),
                Err(FsError::Io(_)) => !self.dev.reliable(),
                Err(e) => {
                    &&& e.kind() == beyond_device()
                    &&& read_of(self.dev.contents(), offset as int, old(buf)@.len() as int) == Err::<
                        Seq<u8>,
                        FsError<()>,
                    >(e.kind())
                },
            },
    {
        match read_exact_at(&self.dev, offset, buf) {
            Ok(_) => {
                proof {
                    if old(buf)@.len() == 0 {
                        assert(buf@ =~= Seq::<u8>::empty());
                    }
                }
                Ok(())
            },
            Err(e) => Err(transfer_error(e)),
        }
    }

    /// Write an arbitrary byte range without touching the dirty protocol: either
    /// the volume is marked dirty, or one of the fields of the mark is written.
    fn write_raw(&mut self, offset: u64, buf: &[u8]) -> (r: Result<(), FsError<D::Error>>)
        requires
            old(self).layout.dirty_since_mount || old(self).volume_dirty || (offset
                == VOLUME_FLAGS_OFFSET && buf@.len() == 2) || (offset == PERCENT_IN_USE_OFFSET
                && buf@.len() == 1),
        ensures
            final(self).keeps(*old(self)),
            final(self).volume_dirty == old(self).volume_dirty,
            match r {
                Ok(_) => {
                    &&& offset + buf@.len() <= old(self).dev.contents().len()
                    &&& final(self).dev.contents() == spliced(
                        old(self).dev.contents(),
                        offset as int,
                        buf@,
                    )
                },
                Err(FsError::Io(_)) => !old(self).dev.reliable(),
                Err(e) => {
                    &&& e.kind() == beyond_device()
                    &&& offset + buf@.len() > old(self).dev.contents().len()
                    &&& final(self).dev.contents() == old(self).dev.contents()
                },
            },
    {
        match self.dev.write_all_at(offset, buf) {
            Ok(_) => Ok(()),
            Err(e) => Err(transfer_error(e)),
        }
    }

    /// Write an arbitrary byte range. Raises `VolumeDirty` before the first
    /// write of a session so an interruption leaves the volume marked for
    /// verification.
    pub fn write_at(&mut self, offset: u64, buf: &[u8]) -> (r: Result<(), FsError<D::Error>>)
        requires
            old(self).wf(),
        ensures
            final(self).wf(),
            final(self).keeps(*old(self)),
            ends_as(
                r,
                old(self).layout.written(old(self).disk(), offset as int, buf@),
                final(self).disk(),
                old(self).dev.reliable(),
            ),
    {
        match self.ensure_volume_dirty() {
            Ok(_) => {},
            Err(e) => {
                return Err(e);
            },
        }
        self.write_raw(offset, buf)
    }

    /// Store `flags` into the VBR `VolumeFlags` field (excluded from the
    /// boot checksum precisely so it can be updated in place).
    fn write_volume_flags(&mut self, flags: u16) -> (r: Result<(), FsError<D::Error>>)
        requires
            old(self).dev.contents().len() >= 4096,
        ensures
            final(self).keeps(*old(self)),
            final(self).volume_dirty == old(self).volume_dirty,
            match r {
                Ok(_) => final(self).dev.contents() == spliced(
                    old(self).dev.contents(),
                    VOLUME_FLAGS_OFFSET as int,
                    le_bytes16(flags),
                ),
                Err(FsError::Io(_)) => !old(self).dev.reliable(),
                Err(_) => false,
            },
    {
        let mut raw: [u8; 2] = [0u8;2];
        put_u16(&mut raw, 0, flags);
        proof {
            lemma_le_bytes16(raw@, flags);
        }
        self.write_raw(VOLUME_FLAGS_OFFSET, &raw)
    }

    /// Set `VolumeDirty` on disk once per dirty window. No-op when the
    /// volume mounted dirty (it is already flagged for verification).
    pub fn ensure_volume_dirty(&mut self) -> (r: Result<(), FsError<D::Error>>)
        requires
            old(self).wf(),
        ensures
            final(self).wf(),
            final(self).keeps(*old(self)),
            match r {
                Ok(_) => {
                    &&& final(self).disk() == old(self).layout.raised(old(self).disk())
                    // The flag is on the device before the write it guards.
                    &&& !(old(self).layout.dirty_since_mount || old(self).volume_dirty)
                        ==> final(self).dev.durable() == final(self).dev.contents()
                },
                Err(FsError::Io(_)) => !old(self).dev.reliable(),
                Err(_) => false,
            },
    {
        if self.layout.dirty_since_mount || self.volume_dirty {
            return Ok(());
        }
        // Mark before the write that needs it; a failure here aborts the op.
        let flags: u16 = self.layout.boot.flags | VOLUME_DIRTY;
        match self.write_volume_flags(flags) {
            Ok(_) => {},
            Err(e) => {
                return Err(e);
            },
        }
        // The stored PercentInUse goes stale the moment we allocate; 0xFF is
        // the "not available" marker.
        let unknown: [u8; 1] = [0xFFu8];
        assert(unknown@ =~= seq![0xFFu8]);
        match self.write_raw(PERCENT_IN_USE_OFFSET, &unknown) {
            Ok(_) => {},
            Err(e) => {
                return Err(e);
            },
        }
        match self.sync() {
            Ok(_) => {},
            Err(e) => {
                return Err(e);
            },
        }
        self.volume_dirty = true;
        Ok(())
    }

    /// Clear `VolumeDirty` after everything is durable. Never clears a
    /// flag that was already set at mount — this session didn't verify
    /// the volume, so the unclean marker must survive.
    fn clear_volume_dirty(&mut self) -> (r: Result<(), FsError<D::Error>>)
        requires
            old(self).wf(),
            // Everything else is durable before the clean mark is written.
            old(self).dev.durable() == old(self).dev.contents(),
        ensures
            final(self).wf(),
            final(self).keeps(*old(self)),
            match r {
                Ok(_) => final(self).disk() == old(self).layout.lowered(old(self).disk()),
                Err(FsError::Io(_)) => !old(self).dev.reliable(),
                Err(_) => false,
            },
    {
        if self.layout.dirty_since_mount || !self.volume_dirty {
            return Ok(());
        }
        let flags: u16 = self.layout.boot.flags & !VOLUME_DIRTY;
        match self.write_volume_flags(flags) {
            Ok(_) => {},
            Err(e) => {
                return Err(e);
            },
        }
        self.volume_dirty = false;
        Ok(())
    }

    /// Flush pending writes within an operation. Leaves `VolumeDirty`
    /// raised; only [`Self::flush`] (the user-facing flush) lowers it.
    pub fn sync(&mut self) -> (r: Result<(), FsError<D::Error>>)
        ensures
            final(self).keeps(*old(self)),
            final(self).disk() == old(self).disk(),
            match r {
                Ok(_) => final(self).dev.durable() == final(self).dev.contents(),
                Err(FsError::Io(_)) => !old(self).dev.reliable(),
                Err(_) => false,
            },
    {
        match self.dev.flush() {
            Ok(_) => Ok(()),
            Err(e) => Err(FsError::Io(e)),
        }
    }

    /// User-facing flush: make everything durable, then lower
    /// `VolumeDirty` and flush again so the clean marker persists.
    pub fn flush(&mut self) -> (r: Result<(), FsError<D::Error>>)
        requires
            old(self).wf(),
        ensures
            final(self).wf(),
            final(self).keeps(*old(self)),
            match r {
                Ok(_) => {
                    &&& final(self).disk() == old(self).layout.lowered(old(self).disk())
                    &&& final(self).dev.durable() == final(self).dev.contents()
                },
                Err(FsError::Io(_)) => !old(self).dev.reliable(),
                Err(_) => false,
            },
    {
        match self.sync() {
            Ok(_) => {},
            Err(e) => {
                return Err(e);
            },
        }
        match self.clear_volume_dirty() {
            Ok(_) => {},
            Err(e) => {
                return Err(e);
            },
        }
        self.sync()
    }

    /// Consume the volume and yield the underlying storage back,
    /// flushing (and clearing `VolumeDirty`) first; errors during this
    /// best-effort shutdown are swallowed.
    pub fn into_inner(self) -> (dev: D)
        requires
            self.wf(),
        ensures
            dev.reliable() == self.dev.reliable(),
            self.dev.reliable() ==> dev.contents() == self.layout.lowered(self.disk()).img,
            self.dev.reliable() ==> dev.durable() == dev.contents(),
    {
        let mut vol = self;
        let _ = vol.flush();
        vol.dev
    }

    /// Case-insensitive filename comparison using the volume name policy.
    pub fn names_equal(&self, a: &str, b: &str) -> (r: bool)
        requires
            self.wf(),
        ensures
            r == self.name_policy.same_name(a@, b@),
    {
        self.name_policy.names_equal(a, b)
    }

    /// exFAT `NameHash` of `name`, up-cased through this volume's table.
    /// Other drivers use the hash to pre-filter lookups; every written entry
    /// set must carry it.
    pub fn name_hash(&self, name: &str) -> (r: u16)
        requires
            self.wf(),
        ensures
            r == crate::codec::exfat::name_hash_of(self.name_policy.folded(name@)),
    {
        let units: Vec<u16> = self.name_policy.fold_units(name);
        name_hash(units.as_slice())
    }
}

impl ExfatLayout {
    /// The disk once this session's `VolumeDirty` is lowered again.
    pub open spec fn lowered(self, d: Disk) -> Disk {
        if self.dirty_since_mount || !d.dirty {
            d
        } else {
            Disk {
                img: spliced(
                    d.img,
                    VOLUME_FLAGS_OFFSET as int,
                    le_bytes16(self.boot.flags & !VOLUME_DIRTY),
                ),
                dirty: false,
            }
        }
    }
}

/// Names that compare equal have the same hash.
pub proof fn law_same_name_same_hash(p: NamePolicy, a: Seq<char>, b: Seq<char>)
    requires
        p.same_name(a, b),
    ensures
        crate::codec::exfat::name_hash_of(p.folded(a)) == crate::codec::exfat::name_hash_of(
            p.folded(b),
        ),
{
}

/// Raising and lowering `VolumeDirty` touches only the flags and the usage
/// percentage, so the boot-region checksum stays valid.
pub proof fn law_dirty_protocol_keeps_boot_checksum(l: ExfatLayout, d: Disk, n: int)
    requires
        d.img.len() >= 4096,
        0 <= n <= d.img.len(),
    ensures
        crate::codec::exfat::boot::boot_region_checksum_of(l.raised(d).img.subrange(0, n))
            == crate::codec::exfat::boot::boot_region_checksum_of(d.img.subrange(0, n)),
        crate::codec::exfat::boot::boot_region_checksum_of(l.lowered(d).img.subrange(0, n))
            == crate::codec::exfat::boot::boot_region_checksum_of(d.img.subrange(0, n)),
{
    crate::codec::exfat::boot::law_boot_checksum_ignores_mutable_bytes(
        l.raised(d).img.subrange(0, n),
        d.img.subrange(0, n),
    );
    crate::codec::exfat::boot::law_boot_checksum_ignores_mutable_bytes(
        l.lowered(d).img.subrange(0, n),
        d.img.subrange(0, n),
    );
}

/// A volume that was clean at mount and is flushed reads as clean again: the
/// flags word is the one found at mount.
pub proof fn law_flush_leaves_clean(l: ExfatLayout, d: Disk)
    requires
        d.img.len() >= 4096,
        !l.dirty_since_mount,
        l.boot.flags & VOLUME_DIRTY == 0,
        d.dirty,
    ensures
        crate::bytes::le16(l.lowered(d).img, 106) == l.boot.flags,
        !l.lowered(d).dirty,
{
    let f = l.boot.flags;
    assert(f & 0x0002u16 == 0 ==> f & !0x0002u16 == f) by (bit_vector);
    let img = l.lowered(d).img;
    assert(img[106] == le_bytes16(f)[0] && img[107] == le_bytes16(f)[1]);
}

} // verus!
