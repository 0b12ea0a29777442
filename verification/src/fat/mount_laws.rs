//! What a volume that was worked on mounts as.

use vstd::prelude::*;

use super::effects::lemma_untouched;
use super::fs::{bpb_of, ebr32_of, fat_mounted, fsinfo_at};
use super::layout::{FatDisk, FatLayout};
use super::sector_io::fsinfo_image;
use crate::boot::exfat_magic;
use crate::bytes::spliced;
use crate::codec::FixedCodec;
use crate::codec::fat::bpb::{Ebr, Fat32FsInfo, FatBootRecord};
use crate::error::FsError;
use crate::exfat::layout::le_bytes32;
use crate::exfat::regions::lemma_le_bytes32_read;

verus! {

impl FatLayout {
    /// What a mount reads lies before the FAT: the boot record, and behind it
    /// the FSInfo sector where there is one.
    pub open spec fn reserved_in_order(self) -> bool {
        &&& 512 <= self.fat_base(0)
        &&& self.boot.ebr matches Ebr::Fat32(e, _) ==> {
            &&& 512 <= e.fat_info * self.props.sector_size
            &&& e.fat_info * self.props.sector_size + 512 <= self.fat_base(0)
        }
    }
}

/// A volume that is the same before the FAT mounts alike.
pub proof fn lemma_reserved_same(l: FatLayout, a: Seq<u8>, b: Seq<u8>)
    requires
        fat_mounted(a) == Ok::<FatLayout, FsError<()>>(l),
        l.reserved_in_order(),
        a.len() == b.len(),
        forall|i: int| 0 <= i < l.fat_base(0) && i < a.len() ==> #[trigger] b[i] == a[i],
    ensures
        fat_mounted(b) == Ok::<FatLayout, FsError<()>>(l),
{
    assert(a.subrange(0, 36) =~= b.subrange(0, 36));
    assert(a.subrange(36, 512) =~= b.subrange(36, 512));
    assert(a.subrange(3, 11) =~= b.subrange(3, 11));
    assert(exfat_magic(a) == exfat_magic(b));
    if let Ebr::Fat32(e, _) = l.boot.ebr {
        let pos = e.fat_info * bpb_of(a).bytes_per_sector;
        assert(pos == e.fat_info * l.props.sector_size);
        assert(a.subrange(pos, pos + 512) =~= b.subrange(pos, pos + 512));
    }
}

/// Work on files and directories, which touches only FAT cells and bytes
/// behind the FAT, leaves a volume that mounts alike.
pub proof fn law_touched_volume_remounts(
    l: FatLayout,
    a: Seq<u8>,
    b: Seq<u8>,
    cells: Set<int>,
    bytes: Set<int>,
)
    requires
        fat_mounted(a) == Ok::<FatLayout, FsError<()>>(l),
        l.reserved_in_order(),
        l.touches_only(a, b, cells, bytes),
    ensures
        fat_mounted(b) == Ok::<FatLayout, FsError<()>>(l),
{
    lemma_untouched(l, a, b, cells, bytes, 0);
    assert forall|i: int| 0 <= i < l.fat_base(0) && i < a.len() implies #[trigger] b[i] == a[i] by {
        lemma_untouched(l, a, b, cells, bytes, i);
    }
    lemma_reserved_same(l, a, b);
}

/// Every FSInfo record has a sector image.
proof fn lemma_fsinfo_image(f: Fat32FsInfo)
    ensures
        fsinfo_image(f).len() == 512,
        f.layout(fsinfo_image(f)),
{
    let b = le_bytes32(f.lead_signature) + f._reserved1@ + le_bytes32(f.mid_signature)
        + le_bytes32(f.free_cluster_count) + le_bytes32(f.first_free_cluster) + f._reserved2@
        + le_bytes32(f.trail_signature);
    assert(b.len() == 512);
    lemma_le_bytes32_read(b, 0, f.lead_signature);
    lemma_le_bytes32_read(b, 484, f.mid_signature);
    lemma_le_bytes32_read(b, 488, f.free_cluster_count);
    lemma_le_bytes32_read(b, 492, f.first_free_cluster);
    lemma_le_bytes32_read(b, 508, f.trail_signature);
    assert(b.subrange(4, 484) =~= f._reserved1@);
    assert(b.subrange(496, 508) =~= f._reserved2@);
    assert(f.layout(b));
}

/// The FSInfo hints that are written back are the ones that the next mount
/// finds; nothing else about the volume changes.
pub proof fn law_synced_hints_are_found(l: FatLayout, d: FatDisk)
    requires
        fat_mounted(d.img) == Ok::<FatLayout, FsError<()>>(l),
        l.reserved_in_order(),
        d.fsinfo_dirty,
        d.fsinfo.signed(),
        l.boot.ebr is Fat32,
        l.fsinfo_synced(d).out is Ok,
    ensures
        ({
            let e = l.boot.ebr->Fat32_0;
            fat_mounted(l.fsinfo_synced(d).disk.img) == Ok::<FatLayout, FsError<()>>(
                FatLayout {
                    boot: FatBootRecord { bpb: l.boot.bpb, ebr: Ebr::Fat32(e, d.fsinfo) },
                    fat_type: l.fat_type,
                    props: l.props,
                },
            )
        }),
{
    let a = d.img;
    let b = l.fsinfo_synced(d).disk.img;
    let e = l.boot.ebr->Fat32_0;
    let pos = e.fat_info * l.props.sector_size;
    let image = fsinfo_image(d.fsinfo);
    lemma_fsinfo_image(d.fsinfo);
    assert(b == spliced(a, pos, image));
    assert(a.subrange(0, 36) =~= b.subrange(0, 36));
    assert(a.subrange(36, 512) =~= b.subrange(36, 512));
    assert(a.subrange(3, 11) =~= b.subrange(3, 11));
    assert(exfat_magic(a) == exfat_magic(b));
    assert(ebr32_of(b) == e && bpb_of(b) == l.boot.bpb);
    assert(b.subrange(pos, pos + 512) =~= image);
    Fat32FsInfo::law_decode_unique(fsinfo_at(b, pos), d.fsinfo, image);
}

} // verus!
