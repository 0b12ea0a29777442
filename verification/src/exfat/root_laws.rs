//! How mounting finds the allocation bitmap and the up-case table.

use vstd::prelude::*;

use super::format_laws::{lemma_flag_bits, long};
use super::geometry_laws::word;
use super::layout::{clusters_for, lemma_unit_sizes, ClusterRange};
use super::mount::{
    boot_checked, mounted, noted, root_scanned, slots_scanned, MountFacts, SystemEntries,
};
use super::upcase::mappings;
use crate::codec::exfat::boot::{upcase_table_checksum_of, ExfatBootRecord};
use crate::error::{CorruptKind, FsError};
use crate::num::ceil_div;

verus! {

/// Where slot `i` of the directory made of the clusters `cs` lies.
pub open spec fn slot_at(boot: ExfatBootRecord, cs: Seq<u32>, i: int) -> int {
    let per = boot.cluster_bytes() / 32;
    boot.cluster_pos(cs[i / per] as int) + 32 * (i % per)
}

/// The root directory of `img` is the chain `cs`, all of it on the device.
pub open spec fn root_chain(boot: ExfatBootRecord, img: Seq<u8>, cs: Seq<u32>) -> bool {
    &&& 0 < cs.len() <= boot.cluster_count
    &&& boot.cluster_count < 0xFFFF_FFFF
    &&& cs[0] == boot.root_dir_cluster
    &&& forall|i: int|
        0 <= i < cs.len() ==> {
            let c = #[trigger] cs[i] as int;
            &&& 2 <= c <= boot.cluster_count + 1
            &&& boot.cluster_pos(c) + boot.cluster_bytes() <= img.len()
            &&& boot.fat_pos(c) + 4 <= img.len()
            &&& i + 1 < cs.len() ==> word(img, boot.fat_pos(c)) == cs[i + 1]
            &&& i + 1 == cs.len() ==> !(2 <= word(img, boot.fat_pos(c)) <= boot.cluster_count + 1)
        }
}

/// `k` is the place of the first slot of type `ty` among the first `n`, or `n`.
pub open spec fn first_of_type(
    boot: ExfatBootRecord,
    img: Seq<u8>,
    cs: Seq<u32>,
    n: int,
    ty: u8,
    k: int,
) -> bool {
    &&& 0 <= k <= n
    &&& forall|j: int| 0 <= j < k ==> img[#[trigger] slot_at(boot, cs, j)] != ty
    &&& k < n ==> img[slot_at(boot, cs, k)] == ty
}

/// `n` slots of the root directory are in use: the next one, if there is one, marks
/// the end.
pub open spec fn slots_in_use(boot: ExfatBootRecord, img: Seq<u8>, cs: Seq<u32>, n: int) -> bool {
    let total = cs.len() * (boot.cluster_bytes() / 32);
    &&& 0 <= n <= total
    &&& forall|j: int| 0 <= j < n ==> img[#[trigger] slot_at(boot, cs, j)] != 0
    &&& n < total ==> img[slot_at(boot, cs, n)] == 0
}

/// The clusters and the length that a system slot names.
pub open spec fn named_range(img: Seq<u8>, at: int) -> ClusterRange {
    ClusterRange { first_cluster: word(img, at + 20) as u32, byte_length: long(img, at + 24) as u64 }
}

/// What is known of the two once the first `i` slots were looked at.
spec fn known(boot: ExfatBootRecord, img: Seq<u8>, cs: Seq<u32>, kb: int, ku: int, i: int) -> SystemEntries {
    SystemEntries {
        bitmap: if kb < i {
            Some(named_range(img, slot_at(boot, cs, kb)))
        } else {
            None
        },
        upcase: if ku < i {
            Some(
                (
                    named_range(img, slot_at(boot, cs, ku)),
                    word(img, slot_at(boot, cs, ku) + 4) as u32,
                ),
            )
        } else {
            None
        },
    }
}

proof fn lemma_slot_place(boot: ExfatBootRecord, cs: Seq<u32>, w: int, j: int)
    requires
        boot.valid_shifts(),
        0 <= w,
        0 <= j < boot.cluster_bytes() / 32,
    ensures
        slot_at(boot, cs, w * (boot.cluster_bytes() / 32) + j) == boot.cluster_pos(cs[w] as int)
            + 32 * j,
{
    let per = boot.cluster_bytes() / 32;
    let i = w * per + j;
    vstd::arithmetic::div_mod::lemma_fundamental_div_mod_converse(i, per, w, j);
}

/// Looking through the rest of one cluster, from slot `j` of cluster `w` on.
proof fn lemma_cluster_scanned(
    boot: ExfatBootRecord,
    img: Seq<u8>,
    cs: Seq<u32>,
    n: int,
    kb: int,
    ku: int,
    w: int,
    j: int,
)
    requires
        boot.valid_shifts(),
        root_chain(boot, img, cs),
        slots_in_use(boot, img, cs, n),
        first_of_type(boot, img, cs, n, 0x81, kb),
        first_of_type(boot, img, cs, n, 0x82, ku),
        0 <= w < cs.len(),
        0 <= j <= boot.cluster_bytes() / 32,
        w * (boot.cluster_bytes() / 32) + j <= n,
        w * (boot.cluster_bytes() / 32) + j <= kb || w * (boot.cluster_bytes() / 32) + j <= ku,
    ensures
        ({
            let per = boot.cluster_bytes() / 32;
            let at = boot.cluster_pos(cs[w] as int);
            let buf = img.subrange(at, at + boot.cluster_bytes());
            let r = slots_scanned(buf, 32 * j, known(boot, img, cs, kb, ku, w * per + j));
            let end = (w + 1) * per;
            &&& r.1 ==> r.0 == known(boot, img, cs, kb, ku, n)
            &&& !r.1 ==> r.0 == known(boot, img, cs, kb, ku, end) && end <= n && (end <= kb || end
                <= ku)
        }),
    decreases boot.cluster_bytes() / 32 - j,
{
    lemma_unit_sizes(boot);
    let per = boot.cluster_bytes() / 32;
    let at = boot.cluster_pos(cs[w] as int);
    let buf = img.subrange(at, at + boot.cluster_bytes());
    let i = w * per + j;
    let f = known(boot, img, cs, kb, ku, i);
    assert((w + 1) * per == w * per + per) by (nonlinear_arith);
    let len = cs.len() as int;
    assert((w + 1) * per <= len * per) by (nonlinear_arith)
        requires
            w + 1 <= len,
            0 <= per,
    ;
    assert(boot.cluster_bytes() == 32 * per) by {
        lemma_cluster_holds_slots(boot);
    }
    assert(cs[w] == cs[w] && at + boot.cluster_bytes() <= img.len());
    if j < per {
        lemma_slot_place(boot, cs, w, j);
        let s = at + 32 * j;
        assert(slot_at(boot, cs, i) == s);
        assert forall|k: int| 0 <= k < 32 implies #[trigger] buf[32 * j + k] == img[s + k] by {}
        assert(buf[32 * j + 0] == img[s + 0]);
        if i < n {
            assert(word(buf, 32 * j + 20) == word(img, s + 20)) by {
                assert(buf[32 * j + 20] == img[s + 20] && buf[32 * j + 21] == img[s + 21] && buf[32
                    * j + 22] == img[s + 22] && buf[32 * j + 23] == img[s + 23]);
            }
            assert(word(buf, 32 * j + 4) == word(img, s + 4)) by {
                assert(buf[32 * j + 4] == img[s + 4] && buf[32 * j + 5] == img[s + 5] && buf[32 * j
                    + 6] == img[s + 6] && buf[32 * j + 7] == img[s + 7]);
            }
            assert(long(buf, 32 * j + 24) == long(img, s + 24)) by {
                assert(buf[32 * j + 24] == img[s + 24] && buf[32 * j + 25] == img[s + 25] && buf[32
                    * j + 26] == img[s + 26] && buf[32 * j + 27] == img[s + 27]);
                assert(buf[32 * j + 28] == img[s + 28] && buf[32 * j + 29] == img[s + 29] && buf[32
                    * j + 30] == img[s + 30] && buf[32 * j + 31] == img[s + 31]);
            }
            assert(img[slot_at(boot, cs, i)] != 0);
            let g = noted(buf, 32 * j, f);
            assert(super::mount::slot_range(buf, 32 * j) == named_range(img, s));
            if i == kb {
                assert(img[s] == 0x81);
                assert(g == known(boot, img, cs, kb, ku, i + 1));
            } else if i == ku {
                assert(img[s] == 0x82);
                assert(g == known(boot, img, cs, kb, ku, i + 1));
            } else {
                assert(i < kb ==> img[slot_at(boot, cs, i)] != 0x81);
                assert(i < ku ==> img[slot_at(boot, cs, i)] != 0x82);
                assert(g == known(boot, img, cs, kb, ku, i + 1));
            }
            if g.bitmap is Some && g.upcase is Some {
                assert(g == known(boot, img, cs, kb, ku, n));
            } else {
                lemma_cluster_scanned(boot, img, cs, n, kb, ku, w, j + 1);
            }
        }
    }
}

/// A cluster is a whole number of slots.
proof fn lemma_cluster_holds_slots(boot: ExfatBootRecord)
    requires
        boot.valid_shifts(),
    ensures
        boot.cluster_bytes() == 32 * (boot.cluster_bytes() / 32),
        boot.cluster_bytes() / 32 > 0,
{
    let n = boot.sector_shift + boot.cluster_shift;
    vstd::arithmetic::power2::lemma_pow2_adds(5, (n - 5) as nat);
    vstd::arithmetic::power2::lemma_pow2_pos((n - 5) as nat);
    vstd::arithmetic::power2::lemma2_to64();
    let k = vstd::arithmetic::power2::pow2((n - 5) as nat) as int;
    assert(boot.cluster_bytes() == 32 * k);
}

proof fn lemma_root_scanned(
    boot: ExfatBootRecord,
    img: Seq<u8>,
    cs: Seq<u32>,
    n: int,
    kb: int,
    ku: int,
    w: int,
)
    requires
        boot.valid_shifts(),
        root_chain(boot, img, cs),
        slots_in_use(boot, img, cs, n),
        first_of_type(boot, img, cs, n, 0x81, kb),
        first_of_type(boot, img, cs, n, 0x82, ku),
        0 <= w < cs.len(),
        w * (boot.cluster_bytes() / 32) <= n,
        w * (boot.cluster_bytes() / 32) <= kb || w * (boot.cluster_bytes() / 32) <= ku,
    ensures
        root_scanned(
            boot,
            img,
            cs[w],
            w,
            known(boot, img, cs, kb, ku, w * (boot.cluster_bytes() / 32)),
        ) == Ok::<SystemEntries, FsError<()>>(known(boot, img, cs, kb, ku, n)),
    decreases cs.len() - w,
{
    let per = boot.cluster_bytes() / 32;
    let c = cs[w] as int;
    let at = boot.cluster_pos(c);
    assert(2 <= c <= boot.cluster_count + 1);
    lemma_unit_sizes(boot);
    lemma_cluster_scanned(boot, img, cs, n, kb, ku, w, 0);
    let buf = img.subrange(at, at + boot.cluster_bytes());
    let (g, over) = slots_scanned(buf, 0, known(boot, img, cs, kb, ku, w * per));
    if !over {
        if w + 1 < cs.len() {
            assert(2 <= cs[w + 1] <= boot.cluster_count + 1);
            lemma_root_scanned(boot, img, cs, n, kb, ku, w + 1);
        } else {
            assert((w + 1) * per == cs.len() * per);
        }
    }
}

/// The range begins at a cluster of the heap and ends within it.
pub open spec fn within_heap(boot: ExfatBootRecord, r: ClusterRange) -> bool {
    &&& 2 <= r.first_cluster <= boot.cluster_count + 1
    &&& r.first_cluster + ceil_div(r.byte_length as int, boot.cluster_bytes()) <= boot.cluster_count
        + 2
}

/// Mounting a volume whose boot region is right. The bitmap is the one that the
/// first slot of type 0x81 of the root directory names, and the up-case table the
/// one that the first slot of type 0x82 names, wherever in the directory they
/// stand. Both have to be there and lie within the heap; the bitmap has to have a
/// bit for every cluster; the table has to be there, to be no longer than a table
/// can be, and to have its checksum. The volume was not unmounted cleanly if the
/// flag for it is set.
pub proof fn law_mount_finds_system_entries(
    boot: ExfatBootRecord,
    img: Seq<u8>,
    cs: Seq<u32>,
    n: int,
    kb: int,
    ku: int,
)
    requires
        boot_checked(img) == Ok::<ExfatBootRecord, FsError<()>>(boot),
        root_chain(boot, img, cs),
        slots_in_use(boot, img, cs, n),
        first_of_type(boot, img, cs, n, 0x81, kb),
        first_of_type(boot, img, cs, n, 0x82, ku),
    ensures
        ({
            let b = named_range(img, slot_at(boot, cs, kb));
            let u = named_range(img, slot_at(boot, cs, ku));
            let sum = word(img, slot_at(boot, cs, ku) + 4);
            let pos = boot.cluster_pos(u.first_cluster as int);
            let bytes = img.subrange(pos, pos + u.byte_length);
            let good = {
                &&& kb < n && ku < n
                &&& within_heap(boot, b) && within_heap(boot, u)
                &&& 8 * b.byte_length >= boot.cluster_count
                &&& 0 < u.byte_length <= 0x4_0000
            };
            &&& !good ==> mounted(img) == Err::<MountFacts, FsError<()>>(
                FsError::Corrupt(CorruptKind::Other),
            )
            &&& good && pos + u.byte_length <= img.len() ==> {
                &&& upcase_table_checksum_of(bytes) != sum ==> mounted(img) == Err::<
                    MountFacts,
                    FsError<()>,
                >(FsError::Corrupt(CorruptKind::Other))
                &&& upcase_table_checksum_of(bytes) == sum ==> match mappings(bytes, 0, 0) {
                    Err(e) => mounted(img) == Err::<MountFacts, FsError<()>>(e),
                    Ok(table) => {
                        let m = mounted(img);
                        &&& m is Ok
                        &&& m->Ok_0.table == table
                        &&& m->Ok_0.layout.boot == boot
                        &&& m->Ok_0.layout.bitmap == b
                        &&& m->Ok_0.layout.dirty_since_mount <==> boot.flags & 0x0002 == 0x0002
                    },
                }
            }
        }),
{
    lemma_root_scanned(boot, img, cs, n, kb, ku, 0);
    assert(known(boot, img, cs, kb, ku, 0) == (SystemEntries { bitmap: None, upcase: None }));
    lemma_flag_bits(0, boot.flags);
    lemma_unit_sizes(boot);
    let b = named_range(img, slot_at(boot, cs, kb));
    let u = named_range(img, slot_at(boot, cs, ku));
    lemma_within(boot, b);
    lemma_within(boot, u);
}

proof fn lemma_within(boot: ExfatBootRecord, r: ClusterRange)
    requires
        boot.valid_shifts(),
        boot.cluster_count < 0xFFFF_FFFF,
    ensures
        within_heap(boot, r) == super::mount::range_in_heap(boot, r),
{
    lemma_unit_sizes(boot);
    let n = ceil_div(r.byte_length as int, boot.cluster_bytes());
    assert(clusters_for(r.byte_length as int, boot.cluster_bytes()) == (if n > u32::MAX {
        u32::MAX as int
    } else {
        n
    }));
}

} // verus!
