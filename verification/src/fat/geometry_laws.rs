//! Where the parts of a FAT volume lie, by the bytes of its boot record.

use vstd::prelude::*;

use super::fs::{bpb_of, ebr16_of, ebr32_of, fat_mounted, fsinfo_at, fsinfo_found};
use super::layout::FatLayout;
use crate::boot::exfat_magic;
use crate::codec::FixedCodec;
use crate::codec::fat::bpb::{Ebr, Fat16Ebr, Fat32Ebr, Fat32FsInfo, FatBootRecord, FatBpb};
use crate::codec::fat::fat_entry::{cell_meaning, FatEntry};
use crate::codec::fat::types::FatType;
use crate::error::{CorruptKind, FsError};
use crate::exfat::geometry_laws::word;
use crate::num::ceil_div;

verus! {

/// The 16-bit number whose lowest byte stands at `at`.
pub open spec fn half(img: Seq<u8>, at: int) -> int {
    img[at] + img[at + 1] * 0x100
}

/// The boot record is what the first sector of `img` holds.
pub open spec fn boot_read(br: FatBootRecord, img: Seq<u8>) -> bool {
    &&& img.len() >= 512
    &&& br.bpb.layout(img.subrange(0, 36))
    &&& match br.ebr {
        Ebr::Fat16(e) => half(img, 22) != 0 && e.layout(img.subrange(36, 512)),
        Ebr::Fat32(e, _) => half(img, 22) == 0 && e.decoded_from(img.subrange(36, 512)),
    }
}

/// Sectors of one FAT copy, by the boot sector: the 16-bit field, or the 32-bit
/// field where that is zero.
pub open spec fn table_sectors(img: Seq<u8>) -> int {
    if half(img, 22) != 0 {
        half(img, 22)
    } else {
        word(img, 36)
    }
}

/// First sector behind the reserved sectors, the FAT copies and the fixed root.
pub open spec fn data_sector(img: Seq<u8>) -> int {
    half(img, 14) + img[16] * table_sectors(img) + ceil_div(half(img, 17) * 32, half(img, 11))
}

/// Sectors of the volume, by the boot sector: the 16-bit field, or the 32-bit
/// field where that is zero.
pub open spec fn sectors_in_all(img: Seq<u8>) -> int {
    if half(img, 19) != 0 {
        half(img, 19)
    } else {
        word(img, 32)
    }
}

/// The bytes of the boot sector as the record has them.
proof fn lemma_boot_bytes(br: FatBootRecord, img: Seq<u8>)
    requires
        boot_read(br, img),
    ensures
        br.bpb.bytes_per_sector == half(img, 11),
        br.bpb.sectors_per_cluster == img[13],
        br.bpb.reserved_sector_count == half(img, 14),
        br.bpb.table_count == img[16],
        br.bpb.root_entry_count == half(img, 17),
        br.volume_sectors() == sectors_in_all(img),
        br.fat_sectors() == table_sectors(img),
        br.ebr matches Ebr::Fat32(e, _) ==> {
            &&& e.root_cluster == word(img, 44)
            &&& e.fat_info == half(img, 48)
            &&& e.extended_flags.active_fat == img[40] % 16
            &&& e.extended_flags.mirroring_disabled == (img[40] / 128 == 1)
        },
{
    let b = img.subrange(0, 36);
    assert(b[11] == img[11] && b[12] == img[12] && b[13] == img[13] && b[14] == img[14] && b[15]
        == img[15] && b[16] == img[16] && b[17] == img[17] && b[18] == img[18] && b[19] == img[19]
        && b[20] == img[20] && b[22] == img[22] && b[23] == img[23]);
    assert(b[32] == img[32] && b[33] == img[33] && b[34] == img[34] && b[35] == img[35]);
    let x = img.subrange(36, 512);
    assert(x[0] == img[36] && x[1] == img[37] && x[2] == img[38] && x[3] == img[39]);
    assert(x[4] == img[40] && x[5] == img[41]);
    assert(x[8] == img[44] && x[9] == img[45] && x[10] == img[46] && x[11] == img[47]);
    assert(x[12] == img[48] && x[13] == img[49]);
    if let Ebr::Fat32(e, _) = br.ebr {
        let (lo, hi) = (img[40], img[41]);
        let raw = (lo + hi * 0x100) as u16;
        assert(raw & 0x000F == raw % 16 && (raw & 0x0080 != 0) == ((raw / 128) % 2 == 1)) by (bit_vector);
        assert(raw as int % 16 == lo as int % 16);
        assert((raw as int / 128) % 2 == lo as int / 128);
    }
}

/// The FAT copies follow the reserved sectors one behind the other; the fixed
/// root follows them, and the clusters follow that, as many sectors each as byte
/// 13 says. The clusters that fit whole are numbered from 2. Fewer than 65525
/// make a FAT16 volume, with cells of two bytes, and others a FAT32 volume, with
/// cells of four.
pub proof fn law_parts_lie_where_boot_record_says(l: FatLayout, img: Seq<u8>, c: u32, copy: int)
    requires
        l.wf(),
        boot_read(l.boot, img),
        l.is_cluster(c as int),
        l.props.max_cluster < u32::MAX,
        0 <= copy < img[16],
    ensures
        ({
            let sector = half(img, 11);
            let clusters = (sectors_in_all(img) - data_sector(img)) / (img[13] as int);
            &&& l.props.sector_size == sector
            &&& l.props.cluster_size == img[13] * sector
            &&& l.props.max_cluster == clusters + 1
            &&& 4085 <= clusters
            &&& l.fat_type is FAT16 <==> clusters < 65525
            &&& l.fat_type.cell_bytes() == (if clusters < 65525 {
                2int
            } else {
                4
            })
            &&& l.cluster_pos(c as int) == (data_sector(img) + (c - 2) * img[13]) * sector
            &&& l.fat_base(copy) == (half(img, 14) + copy * table_sectors(img)) * sector
            &&& l.volume_end() == sectors_in_all(img) * sector
        }),
{
    let br = l.boot;
    lemma_boot_bytes(br, img);
    let (n, t) = (br.bpb.table_count as int, br.fat_sectors());
    let spc = br.bpb.sectors_per_cluster as int;
    let total = br.cluster_total();
    assert(spc > 0 && br.data_sectors() > 0) by {
        assert(total >= 4085);
        if spc > 0 && br.data_sectors() == 0 {
            assert(0int / spc == 0) by (nonlinear_arith)
                requires
                    spc > 0,
            ;
        }
    }
    assert(0 <= copy * t <= n * t) by (nonlinear_arith)
        requires
            0 <= copy <= n,
            0 <= t,
    ;
    let bytes = br.bpb.root_entry_count * 32;
    let ss = br.bpb.bytes_per_sector as int;
    assert(0 <= ceil_div(bytes, ss) <= 0xFFFF) by (nonlinear_arith)
        requires
            0 <= bytes <= 0xFFFF * 32,
            512 <= ss,
            ceil_div(bytes, ss) == (bytes + ss - 1) / ss,
    ;
    crate::codec::fat::bpb::law_clusters_fill_data_area(br);
    let i = c as int - 2;
    assert(total <= br.data_sectors()) by (nonlinear_arith)
        requires
            total * spc <= br.data_sectors(),
            spc >= 1,
            total >= 0,
    ;
    assert(0 <= i * spc <= total * spc) by (nonlinear_arith)
        requires
            0 <= i <= total,
            spc >= 0,
    ;
    assert(br.root_sectors() == ceil_div(bytes, ss));
    assert(br.data_start() < br.volume_sectors());
    assert(br.root_start() == br.bpb.reserved_sector_count + n * t);
    assert(br.data_start() == data_sector(img));
    assert(total == (sectors_in_all(img) - data_sector(img)) / spc);
    assert(l.cluster_sector(c as int) == data_sector(img) + i * spc);
    assert(0 <= spc * ss <= 0xFF * 4096) by (nonlinear_arith)
        requires
            0 <= spc <= 0xFF,
            0 <= ss <= 4096,
    ;
}

/// Number of clusters of the volume, by the boot sector.
pub open spec fn clusters_in_all(img: Seq<u8>) -> int {
    if img[13] == 0 || sectors_in_all(img) < data_sector(img) {
        0
    } else {
        (sectors_in_all(img) - data_sector(img)) / (img[13] as int)
    }
}

proof fn lemma_cluster_total(br: FatBootRecord, img: Seq<u8>)
    requires
        boot_read(br, img),
        half(img, 11) >= 512,
    ensures
        br.cluster_total() == clusters_in_all(img),
{
    lemma_boot_bytes(br, img);
    let (n, t) = (br.bpb.table_count as int, br.fat_sectors());
    assert(0 <= n * t) by (nonlinear_arith)
        requires
            0 <= n,
            0 <= t,
    ;
    let bytes = br.bpb.root_entry_count * 32;
    let ss = br.bpb.bytes_per_sector as int;
    assert(0 <= ceil_div(bytes, ss) <= 0xFFFF) by (nonlinear_arith)
        requires
            0 <= bytes <= 0xFFFF * 32,
            512 <= ss,
            ceil_div(bytes, ss) == (bytes + ss - 1) / ss,
    ;
    assert(br.root_sectors() == ceil_div(bytes, ss));
    let spc = br.bpb.sectors_per_cluster as int;
    if spc > 0 {
        assert(0int / spc == 0) by (nonlinear_arith)
            requires
                spc > 0,
        ;
        if data_sector(img) <= 0xFFFF_FFFF {
            assert(br.data_start() == data_sector(img));
        } else {
            assert(br.data_sectors() == 0);
        }
    }
}

/// Which boot sectors are accepted. The sector size is a power of two from 512 to
/// 4096 and fits the medium, a FAT that is selected is one of those there are, the
/// FSInfo sector lies on the medium, there are at least 4085 clusters, and the two
/// signatures are there. Anything else is refused, each for its reason.
pub proof fn law_boot_sector_accepted(br: FatBootRecord, img: Seq<u8>)
    requires
        boot_read(br, img),
    ensures
        ({
            let r = fat_mounted(img);
            let ss = half(img, 11);
            let wide = half(img, 22) == 0;
            let info = half(img, 48) * ss;
            let signed = {
                &&& img[if wide {
                    66int
                } else {
                    38
                }] == 0x29
                &&& img[510] == 0x55
                &&& img[511] == 0xAA
            };
            if exfat_magic(img) || !(ss == 512 || ss == 1024 || ss == 2048 || ss == 4096) {
                r == Err::<FatLayout, FsError<()>>(FsError::Unsupported)
            } else if wide && img[40] / 128 == 1 && img[40] % 16 >= img[16] {
                r == Err::<FatLayout, FsError<()>>(FsError::Corrupt(CorruptKind::BootSector))
            } else if wide && info + ss > img.len() {
                r == Err::<FatLayout, FsError<()>>(FsError::Corrupt(CorruptKind::Other))
            } else if clusters_in_all(img) < 4085 {
                r == Err::<FatLayout, FsError<()>>(FsError::Unsupported)
            } else if !signed || ss > img.len() {
                r == Err::<FatLayout, FsError<()>>(FsError::Corrupt(CorruptKind::BootSector))
            } else {
                &&& r is Ok
                &&& boot_read(r->Ok_0.boot, img)
                &&& r->Ok_0.fat_type == (if clusters_in_all(img) < 65525 {
                    FatType::FAT16
                } else {
                    FatType::FAT32
                })
                &&& r->Ok_0.boot.ebr matches Ebr::Fat32(_, f) ==> f == fsinfo_found(img, info)
            }
        }),
{
    lemma_boot_bytes(br, img);
    let (a, b) = (img.subrange(0, 36), img.subrange(36, 512));
    FatBpb::law_decode_unique(br.bpb, bpb_of(img), a);
    assert(a[22] == img[22] && a[23] == img[23]);
    assert(b[2] == img[38] && b[30] == img[66] && b[474] == img[510] && b[475] == img[511]);
    match br.ebr {
        Ebr::Fat16(e) => {
            Fat16Ebr::law_decode_unique(e, ebr16_of(img), b);
        },
        Ebr::Fat32(e, _) => {
            Fat32Ebr::law_decode_unique(e, ebr32_of(img), b);
        },
    }
    if half(img, 11) >= 512 {
        if let Ebr::Fat32(e, f) = br.ebr {
            let g = fsinfo_found(img, half(img, 48) * half(img, 11));
            let other = FatBootRecord { bpb: br.bpb, ebr: Ebr::Fat32(e, g) };
            assert(boot_read(other, img));
            lemma_cluster_total(other, img);
        } else {
            lemma_cluster_total(br, img);
        }
    }
}

/// The FSInfo hints that a mount goes by are those of the FSInfo sector, if it
/// bears its three signatures, and else none.
pub proof fn law_hints_from_signed_sector(f: Fat32FsInfo, img: Seq<u8>, pos: int)
    requires
        0 <= pos,
        pos + 512 <= img.len(),
        f.layout(img.subrange(pos, pos + 512)),
        exists|blank: Fat32FsInfo| super::fs::blank_fsinfo(blank),
    ensures
        ({
            let g = fsinfo_found(img, pos);
            let signed = word(img, pos) == 0x4161_5252 && word(img, pos + 484) == 0x6141_7272
                && word(img, pos + 508) == 0xAA55_0000;
            &&& signed ==> g.free_cluster_count == word(img, pos + 488) && g.first_free_cluster
                == word(img, pos + 492)
            &&& !signed ==> g.free_cluster_count == 0xFFFF_FFFF && g.first_free_cluster
                == 0xFFFF_FFFF
        }),
{
    let b = img.subrange(pos, pos + 512);
    Fat32FsInfo::law_decode_unique(f, fsinfo_at(img, pos), b);
    assert forall|k: int| 0 <= k < 509 implies #[trigger] word(b, k) == word(img, pos + k) by {}
    assert(word(b, 0) == word(img, pos + 0) && word(b, 484) == word(img, pos + 484) && word(b, 488)
        == word(img, pos + 488) && word(b, 492) == word(img, pos + 492) && word(b, 508) == word(
        img,
        pos + 508,
    ));
}

/// A FAT cell, of which the lowest 16 bits count on FAT16 and the lowest 28 on
/// FAT32: zero is a free cluster, the highest eight values end a chain, the one
/// below them marks a bad cluster, and the number of one of the volume's clusters
/// is a link to it.
pub proof fn law_fat_cell_meaning(raw: u32, max_cluster: int)
    ensures
        ({
            let v = raw & 0xFFFF;
            cell_meaning(raw as int, max_cluster, FatType::FAT16) == (if v == 0 {
                FatEntry::Free
            } else if v == 0xFFF7 {
                FatEntry::Bad
            } else if v >= 0xFFF8 {
                FatEntry::End
            } else if 2 <= v && v <= max_cluster {
                FatEntry::Next(v)
            } else {
                FatEntry::Reserved
            })
        }),
        ({
            let v = raw & 0x0FFF_FFFF;
            cell_meaning(raw as int, max_cluster, FatType::FAT32) == (if v == 0 {
                FatEntry::Free
            } else if v == 0x0FFF_FFF7 {
                FatEntry::Bad
            } else if v >= 0x0FFF_FFF8 {
                FatEntry::End
            } else if 2 <= v && v <= max_cluster {
                FatEntry::Next(v)
            } else {
                FatEntry::Reserved
            })
        }),
{
    assert(raw & 0xFFFF == raw % 0x1_0000 && raw & 0x0FFF_FFFF == raw % 0x1000_0000) by (bit_vector);
}

} // verus!
