//! The mounted FAT volume.

use vstd::prelude::*;

use super::layout::{properties_of, FatDisk, FatLayout, FsProperties, RESERVED_FAT_ENTRIES};
use crate::boot::{exfat_magic, has_exfat_magic};
use crate::codec::FixedCodec;
use crate::codec::fat::bpb::{Ebr, Fat16Ebr, Fat32Ebr, Fat32FsInfo, FatBootRecord, FatBpb};
use crate::codec::fat::sector::{is_valid_sector_size, supported_sector_size};
use crate::codec::fat::types::FatType;
use crate::device::{read_exact_at, Device};
use crate::error::{CorruptKind, FsError};
use crate::exfat::volume::transfer_error;
use crate::handles::HandleTable;
use crate::name::NamePolicy;

verus! {

/// A mounted FAT volume: the medium, its boot record, and cached geometry.
pub struct FatVfs<D: Device> {
    pub dev: D,
    pub layout: FatLayout,
    /// The FSInfo hints (FAT32 only), and whether they differ from those on
    /// the device.
    pub fsinfo: Fat32FsInfo,
    pub fsinfo_modified: bool,
    /// Name equality for this volume (always ASCII case-fold for classic FAT).
    pub name_policy: NamePolicy,
    /// Search hint: the first free cluster is at or after this index
    pub first_free_cluster: u32,
    /// Writable opens are exclusive; read-only may be shared.
    pub handles: HandleTable,
    /// Stamp files as modified when they are written.
    pub auto_timestamps: bool,
}

/// Which on-disk format a volume uses.
#[derive(Debug, Clone, Copy, PartialEq, Eq, Structural)]
pub enum Format {
    Fat16,
    Fat32,
    ExFat,
}

/// The FAT boot parameter block at the start of `img`.
pub open spec fn bpb_of(img: Seq<u8>) -> FatBpb {
    choose|b: FatBpb| b.layout(img.subrange(0, 36))
}

/// The FAT16 extended boot record of `img`.
pub open spec fn ebr16_of(img: Seq<u8>) -> Fat16Ebr {
    choose|e: Fat16Ebr| e.layout(img.subrange(36, 512))
}

/// The FAT32 extended boot record of `img`.
pub open spec fn ebr32_of(img: Seq<u8>) -> Fat32Ebr {
    choose|e: Fat32Ebr| e.decoded_from(img.subrange(36, 512))
}

/// The FSInfo in the sector at `pos`.
pub open spec fn fsinfo_at(img: Seq<u8>, pos: int) -> Fat32FsInfo {
    let sector = img.subrange(pos, pos + 512);
    choose|f: Fat32FsInfo| f.layout(sector)
}

/// FSInfo hints that say nothing.
pub open spec fn blank_fsinfo(f: Fat32FsInfo) -> bool {
    &&& f.signed()
    &&& f.free_cluster_count == u32::MAX
    &&& f.first_free_cluster == u32::MAX
    &&& f._reserved1@ == Seq::new(480, |i: int| 0u8)
    &&& f._reserved2@ == Seq::new(12, |i: int| 0u8)
}

/// The FSInfo that a mount starts with. It is advisory: an invalid copy is
/// replaced by one that says nothing, never a reason to refuse the volume.
pub open spec fn fsinfo_found(img: Seq<u8>, pos: int) -> Fat32FsInfo {
    if fsinfo_at(img, pos).signed() {
        fsinfo_at(img, pos)
    } else {
        choose|f: Fat32FsInfo| blank_fsinfo(f)
    }
}

/// The extended boot record that goes with the BPB of `img`.
pub open spec fn ebr_found(img: Seq<u8>) -> Result<Ebr, FsError<()>> {
    let bpb = bpb_of(img);
    if bpb.table_size_16 != 0 {
        Ok(Ebr::Fat16(ebr16_of(img)))
    } else {
        let e = ebr32_of(img);
        let pos = e.fat_info * bpb.bytes_per_sector;
        // With mirroring disabled the ActiveFat index selects the one live
        // copy; an index past the FAT count is inconsistent.
        if e.extended_flags.mirroring_disabled && e.extended_flags.active_fat >= bpb.table_count {
            Err(FsError::Corrupt(CorruptKind::BootSector))
        } else if pos + bpb.bytes_per_sector > img.len() {
            Err(FsError::Corrupt(CorruptKind::Other))
        } else {
            Ok(Ebr::Fat32(e, fsinfo_found(img, pos)))
        }
    }
}

/// Mounting the FAT volume in `img`.
pub open spec fn fat_mounted(img: Seq<u8>) -> Result<FatLayout, FsError<()>> {
    let bpb = bpb_of(img);
    if img.len() < 512 {
        Err(FsError::Corrupt(CorruptKind::Other))
    } else if exfat_magic(img) {
        Err(FsError::Unsupported)
    } else if !supported_sector_size(bpb.bytes_per_sector as int) {
        Err(FsError::Unsupported)
    } else {
        match ebr_found(img) {
            Err(e) => Err(e),
            Ok(ebr) => {
                let boot = FatBootRecord { bpb, ebr };
                match boot.width() {
                    // FAT12 volumes are unsupported.
                    None => Err(FsError::Unsupported),
                    Some(fat_type) => if !boot.signed() {
                        Err(FsError::Corrupt(CorruptKind::BootSector))
                    } else if bpb.bytes_per_sector > img.len() {
                        Err(FsError::Corrupt(CorruptKind::BootSector))
                    } else {
                        Ok(FatLayout { boot, fat_type, props: properties_of(boot) })
                    },
                }
            },
        }
    }
}

/// The FSInfo hints that go with a boot record.
pub open spec fn mounted_fsinfo(boot: FatBootRecord, f: Fat32FsInfo) -> bool {
    match boot.ebr {
        Ebr::Fat32(_, g) => f == g,
        Ebr::Fat16(_) => blank_fsinfo(f),
    }
}

/// Two blank FSInfo records are equal.
proof fn lemma_blank_fsinfo_unique(a: Fat32FsInfo, b: Fat32FsInfo)
    requires
        blank_fsinfo(a),
        blank_fsinfo(b),
    ensures
        a == b,
{
    assert(a._reserved1 =~= b._reserved1);
    assert(a._reserved2 =~= b._reserved2);
}

/// Read the FSInfo sector at `pos`.
fn read_fsinfo<D: Device>(storage: &D, pos: u64, sector_size: u16) -> (r: Result<
    Fat32FsInfo,
    FsError<D::Error>,
>)
    requires
        supported_sector_size(sector_size as int),
        pos <= 0xFFFF_FFFF * 4096,
    ensures
        match r {
            Ok(f) => {
                &&& pos + sector_size <= storage.contents().len()
                &&& f == fsinfo_found(storage.contents(), pos as int)
            },
            Err(FsError::Io(_)) => !storage.reliable(),
            Err(e) => {
                &&& e.kind() == FsError::<()>::Corrupt(CorruptKind::Other)
                &&& pos + sector_size > storage.contents().len()
            },
        },
{
    let ghost img = storage.contents();
    let n: usize = sector_size as usize;
    let mut buffer: Vec<u8> = vec![0u8; n];
    match read_exact_at(storage, pos, buffer.as_mut_slice()) {
        Ok(_) => {},
        Err(e) => {
            return Err(transfer_error(e));
        },
    }
    let head: &[u8] = &buffer.as_slice()[0..512];
    proof {
        assert(head@ =~= img.subrange(pos as int, pos + 512));
    }
    match Fat32FsInfo::parse(head) {
        Some(fsinfo) => {
            proof {
                assert(fsinfo.layout(img.subrange(pos as int, pos + 512)));
                Fat32FsInfo::law_decode_unique(
                    fsinfo,
                    fsinfo_at(img, pos as int),
                    img.subrange(pos as int, pos + 512),
                );
            }
            if fsinfo.verify_signature() {
                return Ok(fsinfo);
            }
        },
        None => {},
    }
    // FSInfo is advisory — never fail the mount over it. Unknown hints;
    // the next sync writes a repaired copy.
    let blank = Fat32FsInfo::unknown();
    proof {
        assert(blank_fsinfo(blank));
        lemma_blank_fsinfo_unique(blank, choose|f: Fat32FsInfo| blank_fsinfo(f));
    }
    Ok(blank)
}

/// Read and validate the boot record.
fn read_boot_record<D: Device>(storage: &D) -> (r: Result<FatLayout, FsError<D::Error>>)
    ensures
        r matches Ok(l) ==> l.wf() && storage.contents().len() >= 512,
        match r {
            Ok(l) => fat_mounted(storage.contents()) == Ok::<FatLayout, FsError<()>>(l),
            Err(FsError::Io(_)) => !storage.reliable(),
            Err(e) => fat_mounted(storage.contents()) == Err::<FatLayout, FsError<()>>(e.kind()),
        },
{
    let ghost img = storage.contents();
    let mut buffer: [u8; 4096] = [0u8;4096];
    let bytes_read: usize = match storage.read_up_to(0, &mut buffer) {
        Ok(n) => n,
        Err(e) => {
            return Err(FsError::Io(e));
        },
    };
    if bytes_read < 512 {
        return Err(FsError::Corrupt(CorruptKind::Other));
    }
    let head: &[u8] = &buffer[0..36];
    let rest: &[u8] = &buffer[36..512];
    proof {
        assert(head@ =~= img.subrange(0, 36));
        assert(rest@ =~= img.subrange(36, 512));
        assert(buffer@.subrange(3, 11) =~= img.subrange(3, 11));
    }
    // An exFAT VBR sets `bytes_per_sector` to 0, so sniff the OEM magic at
    // bytes 3..=10 instead.
    if has_exfat_magic(&buffer) {
        return Err(FsError::Unsupported);
    }
    let bpb = match FatBpb::parse(head) {
        Some(bpb) => bpb,
        None => {
            return Err(FsError::Corrupt(CorruptKind::Codec));
        },
    };
    proof {
        assert(bpb.layout(img.subrange(0, 36)));
        FatBpb::law_decode_unique(bpb, bpb_of(img), img.subrange(0, 36));
    }
    // Reject a bogus sector size before it is used as a length.
    if !is_valid_sector_size(bpb.bytes_per_sector) {
        return Err(FsError::Unsupported);
    }
    let ebr: Ebr = if bpb.table_size_16 == 0 {
        let ebr = match Fat32Ebr::parse(rest) {
            Some(ebr) => ebr,
            None => {
                return Err(FsError::Corrupt(CorruptKind::Codec));
            },
        };
        proof {
            assert(ebr.decoded_from(img.subrange(36, 512)));
            Fat32Ebr::law_decode_unique(ebr, ebr32_of(img), img.subrange(36, 512));
            let (a, b) = (ebr.fat_info, bpb.bytes_per_sector);
            assert(0 <= a * b <= 0xFFFF * 4096) by (nonlinear_arith)
                requires
                    0 <= a <= 0xFFFF,
                    0 <= b <= 4096,
            ;
        }
        // With mirroring disabled the ActiveFat index selects the one
        // live copy; an index past the FAT count is inconsistent.
        if ebr.extended_flags.mirroring_disabled && ebr.extended_flags.active_fat
            >= bpb.table_count {
            return Err(FsError::Corrupt(CorruptKind::BootSector));
        }
        let pos: u64 = ebr.fat_info as u64 * bpb.bytes_per_sector as u64;
        match read_fsinfo(storage, pos, bpb.bytes_per_sector) {
            Ok(fsinfo) => Ebr::Fat32(ebr, fsinfo),
            Err(e) => {
                return Err(e);
            },
        }
    } else {
        let ebr = match Fat16Ebr::parse(rest) {
            Some(ebr) => ebr,
            None => {
                return Err(FsError::Corrupt(CorruptKind::Codec));
            },
        };
        proof {
            assert(ebr.layout(img.subrange(36, 512)));
            Fat16Ebr::law_decode_unique(ebr, ebr16_of(img), img.subrange(36, 512));
        }
        Ebr::Fat16(ebr)
    };
    let boot = FatBootRecord { bpb, ebr };
    // FAT12 (sub-4085-cluster) volumes are intentionally unsupported
    let fat_type: FatType = match boot.fat_type() {
        Some(t) => t,
        None => {
            return Err(FsError::Unsupported);
        },
    };
    if !boot.verify_signature() {
        return Err(FsError::Corrupt(CorruptKind::BootSector));
    }
    let props = FsProperties::from_boot(&boot);
    // A medium that cannot even produce one BPB-declared sector of
    // boot data cannot be a valid volume.
    if props.sector_size as usize > bytes_read {
        return Err(FsError::Corrupt(CorruptKind::BootSector));
    }
    Ok(FatLayout { boot, fat_type, props })
}

impl<D: Device> FatVfs<D> {
    pub open spec fn wf(self) -> bool {
        &&& self.layout.wf()
        &&& self.name_policy == NamePolicy::Ascii
        &&& self.handles.wf()
    }

    /// The disk as this volume sees it.
    pub open spec fn disk(self) -> FatDisk {
        FatDisk {
            img: self.dev.contents(),
            hint: self.first_free_cluster,
            fsinfo: self.fsinfo,
            fsinfo_dirty: self.fsinfo_modified,
        }
    }

    /// Everything but the disk is as in `before`.
    pub open spec fn keeps(self, before: Self) -> bool {
        &&& self.layout == before.layout
        &&& self.name_policy == before.name_policy
        &&& self.handles == before.handles
        &&& self.auto_timestamps == before.auto_timestamps
        &&& self.dev.reliable() == before.dev.reliable()
        &&& self.dev.contents().len() == before.dev.contents().len()
    }

    /// Create a [`FatVfs`] from a storage object
    ///
    /// Fails if the storage is too small to hold a FAT filesystem
    pub fn new(storage: D, auto_timestamps: bool) -> (r: Result<Self, FsError<D::Error>>)
        ensures
            match r {
                Ok(vol) => {
                    &&& vol.wf()
                    &&& vol.dev == storage
                    &&& fat_mounted(storage.contents()) == Ok::<FatLayout, FsError<()>>(vol.layout)
                    &&& mounted_fsinfo(vol.layout.boot, vol.fsinfo)
                    &&& !vol.fsinfo_modified
                    &&& vol.first_free_cluster == RESERVED_FAT_ENTRIES
                    &&& vol.auto_timestamps == auto_timestamps
                    &&& forall|k: Seq<u16>| vol.handles.mode(k) is None
                },
                Err(FsError::Io(_)) => !storage.reliable(),
                Err(e) => fat_mounted(storage.contents()) == Err::<FatLayout, FsError<()>>(
                    e.kind(),
                ),
            },
    {
        let layout = match read_boot_record(&storage) {
            Ok(layout) => layout,
            Err(e) => {
                return Err(e);
            },
        };
        let fsinfo: Fat32FsInfo = match layout.boot.ebr {
            Ebr::Fat32(_, fsinfo) => fsinfo,
            Ebr::Fat16(_) => Fat32FsInfo::unknown(),
        };
        Ok(
            FatVfs {
                dev: storage,
                layout,
                fsinfo,
                fsinfo_modified: false,
                name_policy: NamePolicy::ascii(),
                first_free_cluster: RESERVED_FAT_ENTRIES,
                handles: HandleTable::new(),
                auto_timestamps,
            },
        )
    }

    /// Which on-disk format this volume uses — always a FAT variant.
    pub fn format(&self) -> (r: Format)
        ensures
            r == (match self.layout.fat_type {
                FatType::FAT16 => Format::Fat16,
                FatType::FAT32 => Format::Fat32,
            }),
    {
        match self.layout.fat_type {
            FatType::FAT16 => Format::Fat16,
            FatType::FAT32 => Format::Fat32,
        }
    }

    /// Device-order write barrier: push every write to the device now, so
    /// writes issued after this cannot land before it.
    pub fn metadata_barrier(&mut self) -> (r: Result<(), FsError<D::Error>>)
        ensures
            final(self).keeps(*old(self)),
            final(self).disk() == old(self).disk(),
            match r {
                Ok(_) => final(self).dev.durable() == final(self).dev.contents(),
                Err(FsError::Io(_)) => !old(self).dev.reliable(),
                Err(_) => false,
            },
    {
        match self.dev.flush() {
            Ok(_) => Ok(()),
            Err(e) => Err(FsError::Io(e)),
        }
    }
}

} // verus!
