//! The FSInfo hints decide nothing: neither whether a volume mounts, nor as
//! what, nor what its directories list.

use vstd::prelude::*;

use super::dir_slots::{FatDir, SlotPos};
use super::fs::{bpb_of, fat_mounted, fsinfo_found};
use super::layout::{lemma_cluster_size, FatLayout};
use super::regions::lemma_geometry;
use super::slot_iter::{fat_listing, listed_from, listing_start, stepped, SlotState, MAX_DIR_SLOTS};
use crate::boot::exfat_magic;
use crate::codec::fat::bpb::{Ebr, FatBootRecord};
use crate::error::FsError;

verus! {

/// The two layouts differ at most in their FSInfo hints.
pub open spec fn same_but_hints(l: FatLayout, m: FatLayout) -> bool {
    &&& m.fat_type == l.fat_type
    &&& m.props == l.props
    &&& m.boot.bpb == l.boot.bpb
    &&& l.boot.ebr is Fat32
    &&& m.boot.ebr is Fat32
    &&& m.boot.ebr->Fat32_0 == l.boot.ebr->Fat32_0
}

/// The images agree from the FAT on.
pub open spec fn same_from_fat(l: FatLayout, a: Seq<u8>, b: Seq<u8>) -> bool {
    &&& a.len() == b.len()
    &&& forall|i: int| l.fat_base(0) <= i < a.len() ==> #[trigger] a[i] == b[i]
}

/// Where things lie: no cell before the FAT, no cluster before the directories.
proof fn lemma_behind_fat(l: FatLayout, c: int)
    requires
        l.wf(),
        0 <= c,
    ensures
        0 <= l.fat_base(0) <= l.root_pos() <= l.cluster_pos(c),
        l.fat_base(0) <= l.cell_pos(c),
        l.cluster_pos(c) + l.props.cluster_size <= u64::MAX,
        l.root_pos() + l.root_bytes() <= u64::MAX,
{
    lemma_geometry(l);
    lemma_cluster_size(l);
    let s = l.props.sector_size as int;
    let ff = l.props.first_fat_sector as int;
    let (n, f) = (l.props.fat_table_count as int, l.props.fat_sector_size as int);
    let (r, data) = (
        l.props.first_root_dir_sector as int,
        l.props.first_data_sector as int,
    );
    assert(0 <= n * f) by (nonlinear_arith)
        requires
            0 <= n,
            0 <= f,
    ;
    let act = l.active_copy();
    assert(0 <= act * f) by (nonlinear_arith)
        requires
            0 <= act,
            0 <= f,
    ;
    let base = crate::num::saturated32(ff + crate::num::saturated32(act * f));
    assert(0 * f == 0) by (nonlinear_arith);
    let k = l.cluster_sector(c);
    let spc = l.props.sec_per_clus as int;
    let index = if c < 2 {
        0
    } else {
        c - 2
    };
    assert(0 <= index * spc) by (nonlinear_arith)
        requires
            0 <= index,
            0 <= spc,
    ;
    assert(ff * s <= r * s && r * s <= k * s && ff * s <= base * s && 0 <= ff * s && k * s
        <= 0xFFFF_FFFF * 4096) by (nonlinear_arith)
        requires
            0 <= ff <= r,
            r <= k <= 0xFFFF_FFFF,
            ff <= base,
            0 < s <= 4096,
    ;
    let w = l.fat_type.cell_bytes();
    assert(0 <= c * w) by (nonlinear_arith)
        requires
            0 <= c,
            0 <= w,
    ;
    let rs = l.boot.root_sectors();
    assert(r * s + rs * s == data * s && data * s <= 0xFFFF_FFFF * 4096) by (nonlinear_arith)
        requires
            data == r + rs,
            0 <= data <= 0xFFFF_FFFF,
            0 < s <= 4096,
    ;
}

/// Reading behind the start of the FAT gives the same.
proof fn lemma_read_same(l: FatLayout, m: FatLayout, a: Seq<u8>, b: Seq<u8>, off: int, len: int)
    requires
        same_but_hints(l, m),
        same_from_fat(l, a, b),
        0 <= l.fat_base(0) <= off,
        0 <= len,
    ensures
        m.read(b, off, len) == l.read(a, off, len),
{
    if off + len <= a.len() {
        assert(a.subrange(off, off + len) =~= b.subrange(off, off + len));
    }
}

/// The cell of a cluster reads the same.
proof fn lemma_cell_same(l: FatLayout, m: FatLayout, a: Seq<u8>, b: Seq<u8>, c: int)
    requires
        l.wf(),
        same_but_hints(l, m),
        same_from_fat(l, a, b),
        0 <= c,
    ensures
        m.fat_read(b, c) == l.fat_read(a, c),
{
    lemma_behind_fat(l, c);
    let (p, w) = (l.cell_pos(c), l.fat_type.cell_bytes());
    assert(m.cell_pos(c) == p);
    lemma_read_same(l, m, a, b, p, w);
    if p + w <= a.len() {
        assert(a[p] == b[p] && a[p + 1] == b[p + 1]);
        if l.fat_type is FAT32 {
            assert(a[p + 2] == b[p + 2] && a[p + 3] == b[p + 3]);
        }
    }
}

/// A directory slot reads the same, and so does the one after it.
proof fn lemma_slot_same(l: FatLayout, m: FatLayout, a: Seq<u8>, b: Seq<u8>, pos: SlotPos)
    requires
        l.wf(),
        same_but_hints(l, m),
        same_from_fat(l, a, b),
        l.root_pos() <= pos.offset,
    ensures
        m.slot_read(b, pos) == l.slot_read(a, pos),
        m.slot_after(b, pos) == l.slot_after(a, pos),
        l.slot_after(a, pos) matches Ok(Some(next)) ==> l.root_pos() <= next.offset,
{
    lemma_behind_fat(l, 2);
    lemma_read_same(l, m, a, b, pos.offset as int, 32);
    if let Some(c) = pos.cluster {
        lemma_behind_fat(l, c as int);
        lemma_cell_same(l, m, a, b, c as int);
        if let Ok(Some(n)) = l.successor(a, c as int) {
            lemma_behind_fat(l, n as int);
        }
    }
}

/// One step of a listing is the same.
proof fn lemma_step_same(l: FatLayout, m: FatLayout, a: Seq<u8>, b: Seq<u8>, st: SlotState)
    requires
        l.wf(),
        same_but_hints(l, m),
        same_from_fat(l, a, b),
        st.cursor matches Some(pos) ==> l.root_pos() <= pos.offset,
    ensures
        stepped(m, b, st) == stepped(l, a, st),
        stepped(l, a, st).0 is Ok ==> (stepped(l, a, st).1.cursor matches Some(pos)
            ==> l.root_pos() <= pos.offset),
{
    if let Some(pos) = st.cursor {
        lemma_slot_same(l, m, a, b, pos);
    }
}

/// The rest of a listing is the same.
proof fn lemma_listed_same(l: FatLayout, m: FatLayout, a: Seq<u8>, b: Seq<u8>, st: SlotState)
    requires
        l.wf(),
        same_but_hints(l, m),
        same_from_fat(l, a, b),
        st.cursor matches Some(pos) ==> l.root_pos() <= pos.offset,
    ensures
        listed_from(m, b, st) == listed_from(l, a, st),
    decreases MAX_DIR_SLOTS - st.seen,
{
    if st.cursor is Some && st.seen < MAX_DIR_SLOTS {
        lemma_step_same(l, m, a, b, st);
        let (r, next) = stepped(l, a, st);
        if next.seen > st.seen && r is Ok {
            lemma_listed_same(l, m, a, b, next);
        }
    }
}

/// Every directory lists the same.
proof fn lemma_listing_same(l: FatLayout, m: FatLayout, a: Seq<u8>, b: Seq<u8>, dir: FatDir)
    requires
        l.wf(),
        same_but_hints(l, m),
        same_from_fat(l, a, b),
    ensures
        fat_listing(m, b, dir) == fat_listing(l, a, dir),
{
    lemma_behind_fat(l, 2);
    if let FatDir::Clusters(c) = dir {
        lemma_behind_fat(l, c as int);
    }
    assert(listing_start(m, dir) == listing_start(l, dir));
    lemma_listed_same(l, m, a, b, listing_start(l, dir));
}

/// A volume mounts whatever its FSInfo sector holds, as the same kind of volume
/// with the same layout but for the hints, and every directory lists the same.
/// The sector must lie behind the boot record and before the FAT.
pub proof fn law_hints_do_not_matter(l: FatLayout, a: Seq<u8>, b: Seq<u8>, dir: FatDir)
    requires
        fat_mounted(a) == Ok::<FatLayout, FsError<()>>(l),
        l.boot.ebr is Fat32,
        a.len() == b.len(),
        ({
            let pos = l.boot.ebr->Fat32_0.fat_info * l.props.sector_size;
            &&& 512 <= pos
            &&& pos + l.props.sector_size <= l.fat_base(0)
            &&& forall|i: int|
                0 <= i < a.len() && !(pos <= i < pos + l.props.sector_size) ==> #[trigger] a[i]
                    == b[i]
        }),
    ensures
        ({
            let e = l.boot.ebr->Fat32_0;
            let pos = e.fat_info * l.props.sector_size;
            let m = FatLayout {
                boot: FatBootRecord {
                    bpb: l.boot.bpb,
                    ebr: Ebr::Fat32(e, fsinfo_found(b, pos)),
                },
                fat_type: l.fat_type,
                props: l.props,
            };
            &&& fat_mounted(b) == Ok::<FatLayout, FsError<()>>(m)
            &&& fat_listing(m, b, dir) == fat_listing(l, a, dir)
        }),
{
    let e = l.boot.ebr->Fat32_0;
    let pos = e.fat_info * l.props.sector_size;
    assert(pos == e.fat_info * bpb_of(a).bytes_per_sector);
    let m = FatLayout {
        boot: FatBootRecord { bpb: l.boot.bpb, ebr: Ebr::Fat32(e, fsinfo_found(b, pos)) },
        fat_type: l.fat_type,
        props: l.props,
    };
    assert(a.subrange(0, 36) =~= b.subrange(0, 36));
    assert(a.subrange(36, 512) =~= b.subrange(36, 512));
    assert(a.subrange(3, 11) =~= b.subrange(3, 11));
    assert(exfat_magic(a) == exfat_magic(b));
    assert(fat_mounted(b) == Ok::<FatLayout, FsError<()>>(m));
    lemma_listing_same(l, m, a, b, dir);
}

} // verus!
