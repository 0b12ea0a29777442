//! Where the parts of a volume lie, by the bytes of its boot record.

use vstd::arithmetic::power2::pow2;
use vstd::prelude::*;

use super::direntry::FatEntry;
use super::layout::{clusters_for, lemma_unit_sizes, ExfatLayout};
use super::mount::{boot_checked, boot_of};
use crate::codec::FixedCodec;
use crate::codec::exfat::boot::{boot_region_checksum_of, ExfatBootRecord};
use crate::error::{CorruptKind, FsError};

verus! {

/// The 32-bit number whose lowest byte stands at `at`.
pub open spec fn word(img: Seq<u8>, at: int) -> int {
    img[at] + img[at + 1] * 0x100 + img[at + 2] * 0x1_0000 + img[at + 3] * 0x100_0000
}

/// The volume begins with the letters `EXFAT` and three blanks behind its jump
/// instruction.
pub open spec fn says_exfat(img: Seq<u8>) -> bool {
    &&& img[3] == 0x45
    &&& img[4] == 0x58
    &&& img[5] == 0x46
    &&& img[6] == 0x41
    &&& img[7] == 0x54
    &&& img[8] == 0x20
    &&& img[9] == 0x20
    &&& img[10] == 0x20
}

/// Sectors and clusters are as large as the two shifts at bytes 108 and 109 say.
/// A cluster lies behind the heap's first sector, of which bytes 88 to 91 tell,
/// by as many clusters as its number exceeds 2. Its FAT cell is the four bytes of
/// its number behind the FAT's first sector, of which bytes 80 to 83 tell. Its
/// bit in the allocation bitmap is the one of its number less 2, lowest bits
/// first.
pub proof fn law_parts_lie_where_boot_record_says(l: ExfatLayout, img: Seq<u8>, c: u32)
    requires
        img.len() >= 120,
        l.boot.layout(img.subrange(0, 120)),
        l.boot.valid_shifts(),
        c >= 2,
    ensures
        ({
            let sector = pow2(img[108] as nat) as int;
            let cluster = pow2((img[108] + img[109]) as nat) as int;
            let heap = word(img, 88) * sector;
            let bits = heap + (if l.bitmap.first_cluster < 2 {
                0
            } else {
                l.bitmap.first_cluster - 2
            }) * cluster;
            &&& l.boot.sector_bytes() == sector
            &&& l.boot.cluster_bytes() == cluster
            &&& l.boot.cluster_count == word(img, 92)
            &&& l.boot.root_dir_cluster == word(img, 96)
            &&& l.boot.flags == img[106] + img[107] * 0x100
            &&& l.boot.cluster_pos(c as int) == heap + (c - 2) * cluster
            &&& l.boot.fat_pos(c as int) == word(img, 80) * sector + 4 * c
            &&& l.in_heap(c as int) <==> c <= word(img, 92) + 1
            &&& l.cluster_data(img, c as int) == img.subrange(
                heap + (c - 2) * cluster,
                heap + (c - 2) * cluster + cluster,
            )
            &&& l.allocated(img, c as int) == ((img[bits + (c as int - 2) / 8] >> (((c as int - 2) % 8) as u8))
                & 1 == 1)
        }),
{
    let b = img.subrange(0, 120);
    assert(b[108] == img[108] && b[109] == img[109]);
    assert(b[80] == img[80] && b[81] == img[81] && b[82] == img[82] && b[83] == img[83]);
    assert(b[88] == img[88] && b[89] == img[89] && b[90] == img[90] && b[91] == img[91]);
    assert(b[92] == img[92] && b[93] == img[93] && b[94] == img[94] && b[95] == img[95]);
    assert(b[96] == img[96] && b[97] == img[97] && b[98] == img[98] && b[99] == img[99]);
    assert(b[106] == img[106] && b[107] == img[107]);
}

/// The FAT cell of a cluster is the little-endian word at its place: zero is a
/// free cluster, all ones the end of a chain, eight less a bad cluster, and the
/// number of one of the volume's clusters a link to it.
pub proof fn law_fat_cell_meaning(l: ExfatLayout, img: Seq<u8>, c: u32)
    requires
        l.boot.cluster_count < 0xFFFF_FFF0,
    ensures
        ({
            let w = word(img, l.boot.fat_pos(c as int));
            l.fat_entry(img, c as int) == (if w == 0 {
                FatEntry::Free
            } else if w == 0xFFFF_FFFF {
                FatEntry::Eoc
            } else if w == 0xFFFF_FFF7 {
                FatEntry::Bad
            } else if 2 <= w && w <= l.boot.cluster_count + 1 {
                FatEntry::Next(w as u32)
            } else {
                FatEntry::Invalid
            })
        }),
{
}

/// A boot region is accepted if and only if it says that it is exFAT, its shifts
/// are in range, the device holds its twelve sectors, and the twelfth begins with
/// the checksum of the eleven before it. What is wrong decides the error.
pub proof fn law_boot_region_accepted(img: Seq<u8>, boot: ExfatBootRecord)
    requires
        img.len() >= 120,
        boot.layout(img.subrange(0, 120)),
    ensures
        ({
            let sector = pow2(img[108] as nat) as int;
            let known = says_exfat(img) && 9 <= img[108] && img[108] <= 12 && img[108] + img[109] <= 25;
            &&& !known ==> boot_checked(img) == Err::<ExfatBootRecord, FsError<()>>(
                FsError::Unsupported,
            )
            &&& known && 12 * sector > img.len() ==> boot_checked(img) == Err::<
                ExfatBootRecord,
                FsError<()>,
            >(FsError::Corrupt(CorruptKind::Other))
            &&& known && 12 * sector <= img.len() ==> boot_checked(img) == (if word(img, 11 * sector)
                == boot_region_checksum_of(img.subrange(0, 11 * sector)) {
                Ok::<ExfatBootRecord, FsError<()>>(boot)
            } else {
                Err(FsError::Corrupt(CorruptKind::BootSector))
            })
        }),
{
    let b = img.subrange(0, 120);
    ExfatBootRecord::law_decode_unique(boot, boot_of(img), b);
    assert(b[108] == img[108] && b[109] == img[109]);
    let m = img.subrange(3, 11);
    let magic = seq![0x45u8, 0x58u8, 0x46u8, 0x41u8, 0x54u8, 0x20u8, 0x20u8, 0x20u8];
    assert(m[0] == img[3] && m[1] == img[4] && m[2] == img[5] && m[3] == img[6] && m[4] == img[7]
        && m[5] == img[8] && m[6] == img[9] && m[7] == img[10]);
    if says_exfat(img) {
        assert(m =~= magic);
    } else {
        assert(m != magic) by {
            if m == magic {
                assert(m[0] == magic[0] && m[1] == magic[1] && m[2] == magic[2] && m[3] == magic[3]
                    && m[4] == magic[4] && m[5] == magic[5] && m[6] == magic[6] && m[7] == magic[7]);
            }
        }
    }
    if boot.valid_shifts() {
        lemma_unit_sizes(boot);
    }
}

/// A directory of `n` bytes is walked over as many clusters as that takes, and
/// over one if it says that it has none; a stream of `n` bytes has as many.
pub proof fn law_walk_covers_length(l: ExfatLayout, n: int)
    requires
        l.boot.valid_shifts(),
        0 <= n <= 0xFFFF_FFFF * l.boot.cluster_bytes(),
    ensures
        ({
            let cb = l.boot.cluster_bytes();
            let k = l.walk_limit(n);
            let m = clusters_for(n, cb);
            &&& n == 0 ==> k == 1 && m == 0
            &&& n > 0 ==> k == m
            &&& n > 0 ==> (m - 1) * cb < n <= m * cb
        }),
{
    lemma_unit_sizes(l.boot);
    let cb = l.boot.cluster_bytes();
    if n > 0 {
        super::create_laws::lemma_count_fits(n, cb);
        let q = crate::num::ceil_div(n, cb);
        assert(q <= 0xFFFF_FFFF) by (nonlinear_arith)
            requires
                (q - 1) * cb < n,
                n <= 0xFFFF_FFFF * cb,
                cb > 0,
        ;
    } else {
        assert((cb - 1) / cb == 0) by (nonlinear_arith)
            requires
                cb > 0,
        ;
    }
}

/// An entry fits the volume if it has written no more than it holds, and either has
/// neither clusters nor bytes, or begins at a cluster of the heap, takes up no more
/// clusters than there are and, where they lie side by side, ends within the heap.
pub proof fn law_entry_fits_heap(
    boot: ExfatBootRecord,
    first: u32,
    len: u64,
    valid: u64,
    contiguous: bool,
    n: int,
)
    requires
        boot.valid_shifts(),
        boot.cluster_count < 0xFFFF_FFFF,
        0 <= n,
        (n - 1) * boot.cluster_bytes() < len <= n * boot.cluster_bytes(),
    ensures
        boot.geometry_ok(first as int, len as int, valid as int, contiguous) <==> {
            &&& valid <= len
            &&& first == 0 ==> len == 0
            &&& first != 0 ==> {
                &&& 2 <= first <= boot.cluster_count + 1
                &&& n <= boot.cluster_count
                &&& contiguous ==> first + n <= boot.cluster_count + 2
            }
        },
{
    lemma_unit_sizes(boot);
    let cb = boot.cluster_bytes();
    assert(n * cb == (n - 1) * cb + cb) by (nonlinear_arith);
    let r = len + cb - 1 - n * cb;
    assert(0 <= r < cb);
    assert(n * cb == cb * n) by (nonlinear_arith);
    vstd::arithmetic::div_mod::lemma_fundamental_div_mod_converse(len + cb - 1, cb, n, r);
    assert(crate::num::ceil_div(len as int, cb) == n);
}

} // verus!
