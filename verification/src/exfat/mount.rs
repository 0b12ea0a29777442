//! Mounting: reading and validating the fixed structures of a volume.

use vstd::prelude::*;

use super::layout::{
    beyond_device, cluster_count_for, clusters_for, lemma_unit_sizes, read_of, ClusterRange,
    ExfatLayout, VOLUME_DIRTY,
};
use super::upcase::{load_upcase_table, table_loaded};
use super::volume::{transfer_error, ExfatVfs};
use crate::boot::{exfat_magic, has_exfat_magic};
use crate::bytes::{le32, le64};
use crate::codec::{le_u32, FixedCodec};
use crate::codec::exfat::boot::{
    boot_region_checksum, boot_region_checksum_of, ExfatBootRecord, EXFAT_BOOT_RECORD_SIZE,
};
use crate::codec::exfat::consts::{
    END_OF_DIRECTORY, ENTRY_TYPE_ALLOCATION_BITMAP, ENTRY_TYPE_UPCASE_TABLE, EXFAT_ENTRY_SIZE,
};
use crate::codec::exfat::raw_entry::ExfatClusteredMetaEntry;
use crate::device::{read_exact_at, Device};
use crate::error::{CorruptKind, FsError};
use crate::handles::HandleTable;
use crate::name::NamePolicy;
use crate::num::{ceil_div, div_ceil_u64};

verus! {

/// What the root directory says of the two system structures.
#[derive(Debug, Clone, Copy)]
pub struct SystemEntries {
    pub bitmap: Option<ClusterRange>,
    /// The up-case table and its stored checksum.
    pub upcase: Option<(ClusterRange, u32)>,
}

/// The boot record at the start of `img`.
pub open spec fn boot_of(img: Seq<u8>) -> ExfatBootRecord {
    choose|b: ExfatBootRecord| b.layout(img.subrange(0, 120))
}

/// The range that the slot at `off` of `buf` names.
pub open spec fn slot_range(buf: Seq<u8>, off: int) -> ClusterRange {
    ClusterRange {
        first_cluster: le32(buf, off + 20) as u32,
        byte_length: le64(buf, off + 24) as u64,
    }
}

/// What is known after looking at the slot at `off`: of each kind the first
/// entry counts.
pub open spec fn noted(buf: Seq<u8>, off: int, f: SystemEntries) -> SystemEntries {
    if buf[off] == ENTRY_TYPE_ALLOCATION_BITMAP && f.bitmap is None {
        SystemEntries { bitmap: Some(slot_range(buf, off)), ..f }
    } else if buf[off] == ENTRY_TYPE_UPCASE_TABLE && f.upcase is None {
        SystemEntries {
            upcase: Some((slot_range(buf, off), le32(buf, off + 4) as u32)),
            ..f
        }
    } else {
        f
    }
}

/// Looking through one directory cluster from slot `off` on: what is known
/// then, and whether the search is over.
pub open spec fn slots_scanned(buf: Seq<u8>, off: int, f: SystemEntries) -> (SystemEntries, bool)
    decreases buf.len() - off,
{
    if off + 32 > buf.len() {
        (f, false)
    } else if buf[off] == END_OF_DIRECTORY {
        (f, true)
    } else {
        let g = noted(buf, off, f);
        if g.bitmap is Some && g.upcase is Some {
            (g, true)
        } else {
            slots_scanned(buf, off + 32, g)
        }
    }
}

/// The highest cluster number, as 32-bit arithmetic gives it.
pub open spec fn wrapped_last(boot: ExfatBootRecord) -> int {
    (boot.cluster_count + 1) % 0x1_0000_0000
}

/// Searching the root directory's chain from `cluster` on.
pub open spec fn root_scanned(
    boot: ExfatBootRecord,
    img: Seq<u8>,
    cluster: u32,
    walked: int,
    f: SystemEntries,
) -> Result<SystemEntries, FsError<()>>
    decreases boot.cluster_count + 1 - walked,
{
    if walked > boot.cluster_count || cluster < 2 {
        Err(FsError::Corrupt(CorruptKind::ClusterChain))
    } else {
        match read_of(img, boot.cluster_pos(cluster as int), boot.cluster_bytes()) {
            Err(e) => Err(e),
            Ok(buf) => {
                let (g, over) = slots_scanned(buf, 0, f);
                if over {
                    Ok(g)
                } else if boot.fat_pos(cluster as int) + 4 > img.len() {
                    Err(beyond_device())
                } else {
                    let next = le32(img, boot.fat_pos(cluster as int));
                    if 2 <= next <= wrapped_last(boot) {
                        root_scanned(boot, img, next as u32, walked + 1, g)
                    } else {
                        Ok(g)
                    }
                }
            },
        }
    }
}

/// A contiguous range of clusters that starts and ends within the heap.
pub open spec fn range_in_heap(boot: ExfatBootRecord, range: ClusterRange) -> bool {
    &&& 2 <= range.first_cluster <= wrapped_last(boot)
    &&& range.first_cluster + clusters_for(range.byte_length as int, boot.cluster_bytes()) - 1
        <= wrapped_last(boot)
}

/// What mounting finds out: the volume's layout and its up-case mappings.
pub struct MountFacts {
    pub layout: ExfatLayout,
    pub table: Seq<(u16, u16)>,
}

/// Validating the boot region.
pub open spec fn boot_checked(img: Seq<u8>) -> Result<ExfatBootRecord, FsError<()>> {
    let boot = boot_of(img);
    let sb = boot.sector_bytes();
    if img.len() < 120 {
        Err(FsError::Corrupt(CorruptKind::Other))
    } else if !exfat_magic(img) {
        Err(FsError::Unsupported)
    } else if !boot.valid_shifts() {
        Err(FsError::Unsupported)
    } else if 12 * sb > img.len() {
        Err(beyond_device())
    } else if boot_region_checksum_of(img.subrange(0, 11 * sb)) != le32(img, 11 * sb) {
        Err(FsError::Corrupt(CorruptKind::BootSector))
    } else {
        Ok(boot)
    }
}

/// Mounting the volume in `img`.
pub open spec fn mounted(img: Seq<u8>) -> Result<MountFacts, FsError<()>> {
    match boot_checked(img) {
        Err(e) => Err(e),
        Ok(boot) => match root_scanned(
            boot,
            img,
            boot.root_dir_cluster,
            0,
            (SystemEntries { bitmap: None, upcase: None }),
        ) {
            Err(e) => Err(e),
            Ok(SystemEntries { bitmap: Some(bitmap), upcase: Some((upcase, sum)) }) => {
                if !range_in_heap(boot, bitmap) || bitmap.byte_length < ceil_div(
                    boot.cluster_count as int,
                    8,
                ) {
                    Err(FsError::Corrupt(CorruptKind::Other))
                } else if !range_in_heap(boot, upcase) || upcase.byte_length == 0 {
                    Err(FsError::Corrupt(CorruptKind::Other))
                } else {
                    match table_loaded(img, boot, upcase, sum as int) {
                        Err(e) => Err(e),
                        Ok(table) => Ok(
                            MountFacts {
                                layout: ExfatLayout {
                                    boot,
                                    bitmap,
                                    dirty_since_mount: boot.flags & VOLUME_DIRTY != 0,
                                },
                                table,
                            },
                        ),
                    }
                }
            },
            Ok(_) => Err(FsError::Corrupt(CorruptKind::Other)),
        },
    }
}

/// Read and validate the boot region.
fn read_boot<D: Device>(storage: &D) -> (r: Result<ExfatBootRecord, FsError<D::Error>>)
    ensures
        r matches Ok(b) ==> b.valid_shifts() && storage.contents().len() >= 4096,
        match r {
            Ok(b) => boot_checked(storage.contents()) == Ok::<ExfatBootRecord, FsError<()>>(b),
            Err(FsError::Io(_)) => !storage.reliable(),
            Err(e) => boot_checked(storage.contents()) == Err::<ExfatBootRecord, FsError<()>>(
                e.kind(),
            ),
        },
{
    let ghost img = storage.contents();
    let mut vbr: [u8; 120] = [0u8;120];
    let n: usize = match storage.read_up_to(0, &mut vbr) {
        Ok(n) => n,
        Err(e) => {
            return Err(FsError::Io(e));
        },
    };
    if n < EXFAT_BOOT_RECORD_SIZE {
        return Err(FsError::Corrupt(CorruptKind::Other));
    }
    proof {
        assert(vbr@ =~= img.subrange(0, 120));
        assert(img.subrange(0, 120).subrange(3, 11) =~= img.subrange(3, 11));
    }
    if !has_exfat_magic(&vbr) {
        return Err(FsError::Unsupported);
    }
    let boot = match ExfatBootRecord::parse(&vbr) {
        Some(boot) => boot,
        None => {
            return Err(FsError::Corrupt(CorruptKind::Codec));
        },
    };
    proof {
        assert(boot.layout(img.subrange(0, 120)));
        ExfatBootRecord::law_decode_unique(boot, boot_of(img), img.subrange(0, 120));
    }
    // Reject adversarial out-of-range shifts before any size arithmetic.
    if !boot.shifts_valid() {
        return Err(FsError::Unsupported);
    }
    proof {
        lemma_unit_sizes(boot);
    }
    // Verify the Main Boot Checksum over the first 11 sectors: the
    // 12th sector holds that `u32` repeated.
    let sector_bytes: usize = boot.bytes_per_sector() as usize;
    let region_len: usize = 11 * sector_bytes;
    let mut region: Vec<u8> = vec![0u8; 12 * sector_bytes];
    match read_exact_at(storage, 0, region.as_mut_slice()) {
        Ok(_) => {},
        Err(e) => {
            return Err(transfer_error(e));
        },
    }
    let head: &[u8] = &region.as_slice()[0..region_len];
    let calc: u32 = boot_region_checksum(head);
    let stored: u32 = le_u32(region.as_slice(), region_len);
    proof {
        assert(head@ =~= img.subrange(0, region_len as int));
        assert(region@[region_len as int] == img[region_len as int]);
        assert(region@[region_len + 1] == img[region_len + 1]);
        assert(region@[region_len + 2] == img[region_len + 2]);
        assert(region@[region_len + 3] == img[region_len + 3]);
    }
    if calc != stored {
        return Err(FsError::Corrupt(CorruptKind::BootSector));
    }
    Ok(boot)
}

/// Look through one cluster of the root directory.
fn scan_slots(buf: &Vec<u8>, found: SystemEntries) -> (r: (SystemEntries, bool))
    ensures
        r == slots_scanned(buf@, 0, found),
{
    let mut f = found;
    let mut off: usize = 0;
    while buf.len() - off >= EXFAT_ENTRY_SIZE
        invariant
            off <= buf@.len(),
            slots_scanned(buf@, 0, found) == slots_scanned(buf@, off as int, f),
        decreases buf@.len() - off,
    {
        let ty: u8 = buf[off];
        if ty == END_OF_DIRECTORY {
            return (f, true);
        }
        if ty == ENTRY_TYPE_ALLOCATION_BITMAP || ty == ENTRY_TYPE_UPCASE_TABLE {
            let slot: &[u8] = &buf.as_slice()[off..off + EXFAT_ENTRY_SIZE];
            proof {
                assert forall|i: int| 0 <= i < 32 implies slot@[i] == #[trigger] buf@[off + i] by {}
                assert(le32(slot@, 20) == le32(buf@, off + 20));
                assert(le64(slot@, 24) == le64(buf@, off + 24));
                assert(le32(slot@, 4) == le32(buf@, off + 4));
            }
            if let Some(meta) = ExfatClusteredMetaEntry::parse(slot) {
                let range = ClusterRange {
                    first_cluster: meta.first_cluster,
                    byte_length: meta.data_length,
                };
                if ty == ENTRY_TYPE_ALLOCATION_BITMAP {
                    if f.bitmap.is_none() {
                        f.bitmap = Some(range);
                    }
                } else if f.upcase.is_none() {
                    f.upcase = Some((range, meta.table_checksum));
                }
            }
        }
        if f.bitmap.is_some() && f.upcase.is_some() {
            return (f, true);
        }
        off += EXFAT_ENTRY_SIZE;
    }
    (f, false)
}

/// Search the root directory for the allocation bitmap and the up-case
/// table. They may stand anywhere in it, so its whole FAT chain is walked,
/// not just the first cluster; `cluster_count` bounds a corrupt cyclic chain.
fn scan_root<D: Device>(storage: &D, boot: &ExfatBootRecord) -> (r: Result<
    SystemEntries,
    FsError<D::Error>,
>)
    requires
        boot.valid_shifts(),
    ensures
        match r {
            Ok(f) => root_scanned(
                *boot,
                storage.contents(),
                boot.root_dir_cluster,
                0,
                (SystemEntries { bitmap: None, upcase: None }),
            ) == Ok::<SystemEntries, FsError<()>>(f),
            Err(FsError::Io(_)) => !storage.reliable(),
            Err(e) => root_scanned(
                *boot,
                storage.contents(),
                boot.root_dir_cluster,
                0,
                (SystemEntries { bitmap: None, upcase: None }),
            ) == Err::<SystemEntries, FsError<()>>(e.kind()),
        },
{
    proof {
        lemma_unit_sizes(*boot);
    }
    let ghost img = storage.contents();
    let ghost none = SystemEntries { bitmap: None, upcase: None };
    let last_cluster: u32 = boot.cluster_count.wrapping_add(1);
    let cluster_bytes: usize = boot.bytes_per_cluster() as usize;
    let mut found = SystemEntries { bitmap: None, upcase: None };
    let mut cluster: u32 = boot.root_dir_cluster;
    let mut walked: u32 = 0;
    loop
        invariant
            boot.valid_shifts(),
            img == storage.contents(),
            none == (SystemEntries { bitmap: None, upcase: None }),
            last_cluster == wrapped_last(*boot),
            cluster_bytes == boot.cluster_bytes(),
            cluster_bytes >= 512,
            walked == u32::MAX ==> boot.cluster_count < u32::MAX,
            root_scanned(*boot, img, boot.root_dir_cluster, 0, none) == root_scanned(
                *boot,
                img,
                cluster,
                walked as int,
                found,
            ),
        decreases boot.cluster_count + 1 - walked,
    {
        if walked > boot.cluster_count || cluster < 2 {
            return Err(FsError::Corrupt(CorruptKind::ClusterChain));
        }
        let mut buf: Vec<u8> = vec![0u8; cluster_bytes];
        match read_exact_at(storage, boot.cluster_offset(cluster), buf.as_mut_slice()) {
            Ok(_) => {},
            Err(e) => {
                return Err(transfer_error(e));
            },
        }
        let (g, over) = scan_slots(&buf, found);
        found = g;
        if over {
            return Ok(found);
        }
        // Follow the root's FAT chain.

        let mut cell: [u8; 4] = [0u8;4];
        let pos: u64 = boot.fat_cell_offset(cluster);
        match read_exact_at(storage, pos, &mut cell) {
            Ok(_) => {},
            Err(e) => {
                return Err(transfer_error(e));
            },
        }
        let next: u32 = le_u32(&cell, 0);
        proof {
            assert(cell@ == img.subrange(pos as int, pos + 4));
            assert(cell@[0] == img[pos as int] && cell@[1] == img[pos + 1] && cell@[2] == img[pos
                + 2] && cell@[3] == img[pos + 3]);
        }
        if !(next >= 2 && next <= last_cluster) {
            return Ok(found);
        }
        // A chain only goes on where `last_cluster` did not wrap.
        assert(boot.cluster_count < u32::MAX);
        cluster = next;
        walked += 1;
    }
}

fn range_ok(boot: &ExfatBootRecord, range: &ClusterRange) -> (r: bool)
    requires
        boot.valid_shifts(),
    ensures
        r == range_in_heap(*boot, *range),
{
    proof {
        lemma_unit_sizes(*boot);
    }
    let last_cluster: u32 = boot.cluster_count.wrapping_add(1);
    let clusters: u32 = cluster_count_for(range.byte_length, boot.bytes_per_cluster());
    range.first_cluster >= 2 && range.first_cluster <= last_cluster && range.first_cluster as u64
        + clusters as u64 - 1 <= last_cluster as u64
}

impl<D: Device> ExfatVfs<D> {
    /// Mount an exFAT volume. Byte 0 of the storage is the first byte of the
    /// Volume Boot Record.
    pub fn mount(storage: D, auto_timestamps: bool) -> (r: Result<Self, FsError<D::Error>>)
        ensures
            match r {
                Ok(vol) => {
                    &&& vol.wf()
                    &&& vol.dev == storage
                    &&& !vol.volume_dirty
                    &&& vol.auto_timestamps == auto_timestamps
                    &&& forall|k: Seq<u16>| vol.handles.mode(k) is None
                    &&& mounted(storage.contents()) is Ok
                    &&& vol.layout == mounted(storage.contents())->Ok_0.layout
                    &&& vol.name_policy matches NamePolicy::Upcase(t) && t@ == mounted(
                        storage.contents(),
                    )->Ok_0.table
                },
                Err(FsError::Io(_)) => !storage.reliable(),
                Err(e) => mounted(storage.contents()) == Err::<MountFacts, FsError<()>>(e.kind()),
            },
    {
        let boot = match read_boot(&storage) {
            Ok(boot) => boot,
            Err(e) => {
                return Err(e);
            },
        };
        let found = match scan_root(&storage, &boot) {
            Ok(found) => found,
            Err(e) => {
                return Err(e);
            },
        };
        let bitmap: ClusterRange = match found.bitmap {
            Some(b) => b,
            None => {
                return Err(FsError::Corrupt(CorruptKind::Other));
            },
        };
        let (upcase, upcase_checksum) = match found.upcase {
            Some(u) => u,
            None => {
                return Err(FsError::Corrupt(CorruptKind::Other));
            },
        };
        // The bitmap's location comes from an un-checksummed root entry;
        // validate it before every allocator write trusts it.
        let cover: u64 = div_ceil_u64(boot.cluster_count as u64, 8);
        if !range_ok(&boot, &bitmap) || bitmap.byte_length < cover {
            return Err(FsError::Corrupt(CorruptKind::Other));
        }
        // Same for the up-case table's run before it is read.

        if !range_ok(&boot, &upcase) || upcase.byte_length == 0 {
            return Err(FsError::Corrupt(CorruptKind::Other));
        }
        let table: Vec<(u16, u16)> = match load_upcase_table(
            &storage,
            &boot,
            upcase,
            upcase_checksum,
        ) {
            Ok(table) => table,
            Err(e) => {
                return Err(e);
            },
        };
        let dirty_since_mount: bool = boot.flags & VOLUME_DIRTY != 0;
        Ok(
            ExfatVfs {
                dev: storage,
                layout: ExfatLayout { boot, bitmap, dirty_since_mount },
                name_policy: NamePolicy::upcase(table),
                handles: HandleTable::new(),
                auto_timestamps,
                volume_dirty: false,
            },
        )
    }
}

} // verus!
