//! A volume into whose root directory an entry was inserted mounts alike.

use vstd::prelude::*;

use super::alloc_laws::law_new_allocation;
use super::chains::{law_stream_read, law_stream_written, lemma_stream_byte, members};
use super::dir_edit::{end_slot, grown_set, lemma_end_slot_bounds};
use super::dir_laws::{
    clusters_added, grow_from, law_append_to_directory, lemma_append_grown, lemma_append_steps,
    lemma_clusters_added, lemma_dir_stream, lemma_dir_untouched, lemma_free_apart, lemma_set_kept,
    lemma_stream_dir_kept,
};
use super::direntry::{DirExtent, SetLoc};
use super::entry_laws::{lemma_insert_steps, stream_at};
use super::frame_laws::{law_insert_leaves_others, lemma_left_alone};
use super::layout::{lemma_unit_sizes, read_of, Disk, ExfatLayout, VOLUME_DIRTY};
use super::mount::{
    mounted, noted, root_scanned, slots_scanned, wrapped_last, MountFacts, SystemEntries,
};
use super::mount_laws::{
    lemma_boot_kept, lemma_parts_mount, lemma_range_kept, lemma_root_scan_kept,
    lemma_root_scanned_same, no_entries, reflagged,
};
use super::regions::is_flag_place;
use super::upcase::table_loaded;
use crate::bytes::{le16, le32, le64, spliced};
use crate::calendar::PrimitiveDateTime;
use crate::codec::exfat::consts::{
    ENTRY_TYPE_ALLOCATION_BITMAP, ENTRY_TYPE_FILE, ENTRY_TYPE_STREAM_EXTENSION,
    ENTRY_TYPE_UPCASE_TABLE,
};
use crate::error::FsError;
use crate::name::NamePolicy;
use crate::num::ceil_div;
use crate::vfs::NewEntry;

verus! {

/// Two slots with the same bytes say the same.
proof fn lemma_noted_same(a: Seq<u8>, i: int, b: Seq<u8>, j: int, f: SystemEntries)
    requires
        forall|k: int| 0 <= k < 32 ==> #[trigger] a[i + k] == b[j + k],
    ensures
        a[i] == b[j],
        noted(a, i, f) == noted(b, j, f),
{
    assert(a[i + 0] == b[j + 0]);
    assert(le32(a, i + 4) == le32(b, j + 4)) by {
        assert(a[i + 4] == b[j + 4] && a[i + 5] == b[j + 5] && a[i + 6] == b[j + 6] && a[i + 7] == b[j
            + 7]);
    }
    assert(le32(a, i + 20) == le32(b, j + 20)) by {
        assert(a[i + 20] == b[j + 20] && a[i + 21] == b[j + 21] && a[i + 22] == b[j + 22] && a[i + 23]
            == b[j + 23]);
    }
    assert(le64(a, i + 24) == le64(b, j + 24)) by {
        assert(a[i + 24] == b[j + 24] && a[i + 25] == b[j + 25] && a[i + 26] == b[j + 26] && a[i + 27]
            == b[j + 27]);
        assert(a[i + 28] == b[j + 28] && a[i + 29] == b[j + 29] && a[i + 30] == b[j + 30] && a[i + 31]
            == b[j + 31]);
    }
}

/// Looking through the second of two pieces.
proof fn lemma_scan_second(x: Seq<u8>, y: Seq<u8>, off: int, f: SystemEntries)
    requires
        0 <= off,
    ensures
        slots_scanned(x + y, x.len() + off, f) == slots_scanned(y, off, f),
    decreases y.len() - off,
{
    let z = x + y;
    if off + 32 <= y.len() {
        assert forall|k: int| 0 <= k < 32 implies #[trigger] z[x.len() + off + k] == y[off + k] by {}
        lemma_noted_same(z, x.len() + off, y, off, f);
        lemma_scan_second(x, y, off + 32, noted(y, off, f));
    }
}

/// Looking through two pieces is looking through the one, then the other.
proof fn lemma_scan_joined(x: Seq<u8>, y: Seq<u8>, off: int, f: SystemEntries)
    requires
        x.len() % 32 == 0,
        off % 32 == 0,
        0 <= off <= x.len(),
    ensures
        slots_scanned(x + y, off, f) == (if slots_scanned(x, off, f).1 {
            slots_scanned(x, off, f)
        } else {
            slots_scanned(y, 0, slots_scanned(x, off, f).0)
        }),
    decreases x.len() - off,
{
    let z = x + y;
    if off + 32 <= x.len() {
        assert forall|k: int| 0 <= k < 32 implies #[trigger] z[off + k] == x[off + k] by {}
        lemma_noted_same(z, off, x, off, f);
        lemma_scan_joined(x, y, off + 32, noted(x, off, f));
    } else {
        lemma_scan_second(x, y, 0, f);
    }
}

/// The search is over before the directory's end once both entries are found,
/// so what comes behind the end does not matter.
proof fn lemma_scan_prefix(buf: Seq<u8>, new: Seq<u8>, off: int, f: SystemEntries)
    requires
        0 <= off <= buf.len() <= new.len(),
        buf.len() % 32 == 0,
        off % 32 == 0,
        f.bitmap is None || f.upcase is None,
        ({
            let g = slots_scanned(buf, off, f).0;
            g.bitmap is Some && g.upcase is Some
        }),
        forall|i: int| off <= i < end_slot(buf, off) ==> #[trigger] new[i] == buf[i],
    ensures
        slots_scanned(new, off, f).0 == slots_scanned(buf, off, f).0,
    decreases buf.len() - off,
{
    assert(off + 32 <= buf.len() && buf[off] != 0);
    lemma_end_slot_bounds(buf, off + 32);
    assert forall|k: int| 0 <= k < 32 implies #[trigger] new[off + k] == buf[off + k] by {}
    lemma_noted_same(new, off, buf, off, f);
    let g = noted(buf, off, f);
    if g.bitmap is None || g.upcase is None {
        lemma_scan_prefix(buf, new, off + 32, g);
    }
}

/// The bytes of a list of clusters start with those of the first.
proof fn lemma_stream_head(l: ExfatLayout, img: Seq<u8>, cs: Seq<u32>)
    requires
        l.boot.valid_shifts(),
        l.on_device(img, cs),
        cs.len() > 0,
    ensures
        l.stream_of(img, cs) == l.cluster_data(img, cs[0] as int) + l.stream_of(
            img,
            cs.subrange(1, cs.len() as int),
        ),
        l.on_device(img, cs.subrange(1, cs.len() as int)),
{
    lemma_unit_sizes(l.boot);
    let (n, cb) = (cs.len() as int, l.boot.cluster_bytes());
    let rest = cs.subrange(1, n);
    assert(l.on_device(img, rest)) by {
        assert forall|k: int| 0 <= k < rest.len() implies l.boot.cluster_pos(
            (#[trigger] rest[k]) as int,
        ) + cb <= img.len() by {
            assert(rest[k] == cs[k + 1]);
        }
    }
    assert(n * cb == cb + (n - 1) * cb && 0 <= (n - 1) * cb) by (nonlinear_arith)
        requires
            n > 0,
            cb > 0,
    ;
    assert(l.boot.cluster_pos(cs[0] as int) + cb <= img.len());
    let (s, h, t) = (
        l.stream_of(img, cs),
        l.cluster_data(img, cs[0] as int),
        l.stream_of(img, rest),
    );
    assert forall|i: int| 0 <= i < n * cb implies #[trigger] s[i] == (h + t)[i] by {
        lemma_stream_byte(l, img, cs, i);
        if i < cb {
            vstd::arithmetic::div_mod::lemma_fundamental_div_mod_converse(i, cb, 0, i);
        } else {
            let j = i - cb;
            lemma_stream_byte(l, img, rest, j);
            vstd::arithmetic::div_mod::lemma_fundamental_div_mod(j, cb);
            assert(i == cb * (j / cb + 1) + j % cb) by (nonlinear_arith)
                requires
                    i == j + cb,
                    j == cb * (j / cb) + j % cb,
            ;
            vstd::arithmetic::div_mod::lemma_fundamental_div_mod_converse(
                i,
                cb,
                j / cb + 1,
                j % cb,
            );
            assert(rest[j / cb] == cs[j / cb + 1]);
        }
    }
    assert(s =~= h + t);
}

/// Searching the root directory is looking through its bytes.
proof fn lemma_scan_is_stream(l: ExfatLayout, img: Seq<u8>, cs: Seq<u32>, walked: int, f: SystemEntries)
    requires
        l.wf(),
        l.regions_apart(),
        cs.len() > 0,
        0 <= walked,
        l.dir_walk(img, Some(cs[0]), false, u32::MAX as int, walked) == Ok::<
            Seq<u32>,
            FsError<()>,
        >(cs),
        l.on_device(img, cs),
        forall|k: int| 0 <= k < cs.len() ==> l.in_heap((#[trigger] cs[k]) as int),
    ensures
        root_scanned(l.boot, img, cs[0], walked, f) == Ok::<SystemEntries, FsError<()>>(
            slots_scanned(l.stream_of(img, cs), 0, f).0,
        ),
    decreases cs.len(),
{
    lemma_unit_sizes(l.boot);
    let boot = l.boot;
    let c = cs[0] as int;
    let n = cs.len() as int;
    let rest = cs.subrange(1, n);
    assert(l.in_heap(c));
    assert(boot.cluster_pos(c) + boot.cluster_bytes() <= img.len());
    let buf = l.cluster_data(img, c);
    lemma_stream_head(l, img, cs);
    lemma_scan_joined(buf, l.stream_of(img, rest), 0, f);
    let (g, over) = slots_scanned(buf, 0, f);
    let next = l.successor(img, c, false)->Ok_0;
    lemma_walk_tail(l, img, cs, walked);
    if next is Some {
        assert forall|k: int| 0 <= k < rest.len() implies l.in_heap((#[trigger] rest[k]) as int) by {
            assert(rest[k] == cs[k + 1]);
        }
        lemma_scan_is_stream(l, img, rest, walked + 1, g);
    } else {
        let cb = boot.cluster_bytes();
        assert(0 * cb == 0) by (nonlinear_arith);
        assert(l.stream_of(img, rest).len() == 0);
        assert(slots_scanned(l.stream_of(img, rest), 0, g) == (g, false));
    }
    lemma_scan_step(l, img, c, walked, f);
}

/// One step of a chain's walk.
proof fn lemma_walk_tail(l: ExfatLayout, img: Seq<u8>, cs: Seq<u32>, walked: int)
    requires
        cs.len() > 0,
        l.dir_walk(img, Some(cs[0]), false, u32::MAX as int, walked) == Ok::<
            Seq<u32>,
            FsError<()>,
        >(cs),
    ensures
        ({
            let next = l.successor(img, cs[0] as int, false);
            let rest = cs.subrange(1, cs.len() as int);
            &&& walked < l.boot.cluster_count
            &&& next is Ok
            &&& l.dir_walk(img, next->Ok_0, false, u32::MAX as int, walked + 1) == Ok::<
                Seq<u32>,
                FsError<()>,
            >(rest)
            &&& match next->Ok_0 {
                Some(m) => rest.len() > 0 && rest[0] == m,
                None => rest.len() == 0,
            }
        }),
{
    let next = l.successor(img, cs[0] as int, false)->Ok_0;
    let tail = l.dir_walk(img, next, false, u32::MAX as int, walked + 1)->Ok_0;
    let whole = seq![cs[0]] + tail;
    assert(whole == cs);
    assert(whole.len() == tail.len() + 1);
    assert(cs.subrange(1, cs.len() as int) =~= tail) by {
        assert forall|k: int| 0 <= k < tail.len() implies tail[k] == cs[k + 1] by {
            assert(whole[k + 1] == cs[k + 1]);
        }
    }
}

/// One step of the search of the root directory.
proof fn lemma_scan_step(l: ExfatLayout, img: Seq<u8>, c: int, walked: int, f: SystemEntries)
    requires
        l.wf(),
        l.regions_apart(),
        l.in_heap(c),
        0 <= walked < l.boot.cluster_count,
        l.cluster_on(img, c),
        l.successor(img, c, false) is Ok,
    ensures
        ({
            let (g, over) = slots_scanned(l.cluster_data(img, c), 0, f);
            root_scanned(l.boot, img, c as u32, walked, f) == (if over {
                Ok::<SystemEntries, FsError<()>>(g)
            } else {
                match l.successor(img, c, false)->Ok_0 {
                    Some(m) => root_scanned(l.boot, img, m, walked + 1, g),
                    None => Ok(g),
                }
            })
        }),
{
    lemma_unit_sizes(l.boot);
    assert(read_of(img, l.boot.cluster_pos(c), l.boot.cluster_bytes()) == Ok::<Seq<u8>, FsError<()>>(
        l.cluster_data(img, c),
    ));
    assert(wrapped_last(l.boot) == l.boot.cluster_count + 1);
}

/// The up-case table of a volume on which it was left alone loads as before.
proof fn lemma_table_left(
    l: ExfatLayout,
    a: Seq<u8>,
    b: Seq<u8>,
    own: Set<int>,
    flags: u16,
    percent: u8,
)
    requires
        l.wf(),
        l.leaves_alone(a, b, own),
        forall|c: int| #[trigger] l.holds_table(a, c) ==> l.cluster_kept(a, c) && !own.contains(c),
    ensures
        forall|sum: int| #[trigger]
            table_loaded(b, reflagged(l.boot, flags, percent), l.table_range(a), sum)
                == table_loaded(a, l.boot, l.table_range(a), sum),
{
    let boot = l.boot;
    let other = reflagged(boot, flags, percent);
    let t = l.table_range(a);
    let (first, n) = (t.first_cluster as int, t.byte_length as int);
    lemma_left_alone(l, a, b, own, 2);
    let p = boot.cluster_pos(first);
    assert(other.cluster_pos(first) == p);
    if p + n <= a.len() && first >= 2 {
        assert forall|c: int|
            #![trigger l.cluster_data(a, c)]
            #![trigger l.cluster_on(a, c)]
            first <= c < first + ceil_div(n, boot.cluster_bytes()) implies l.cluster_on(a, c)
            && l.cluster_data(b, c) == l.cluster_data(a, c) by {
            assert(l.holds_table(a, c));
            lemma_left_alone(l, a, b, own, c);
        }
        lemma_range_kept(l, a, b, first, n);
    }
}

/// Inserting an entry into the root directory leaves the system entries where
/// a mount finds them.
proof fn lemma_root_inserted(
    l: ExfatLayout,
    p: NamePolicy,
    d: Disk,
    entry: NewEntry,
    now: PrimitiveDateTime,
    root: Seq<u32>,
)
    requires
        l.volume_sound(d.img),
        l.holds_dir(d.img, l.boot.root_dir_cluster, false, u32::MAX as int, root),
        l.dir_sound(d.img, l.root()),
        entry.times.wf(),
        now.wf(),
        l.inserted(p, d, l.root(), entry, now).out is Ok,
        root_scanned(l.boot, d.img, l.boot.root_dir_cluster, 0, no_entries()) matches Ok(f)
            && f.bitmap is Some && f.upcase is Some,
    ensures
        root_scanned(
            l.boot,
            l.inserted(p, d, l.root(), entry, now).disk.img,
            l.boot.root_dir_cluster,
            0,
            no_entries(),
        ) == root_scanned(l.boot, d.img, l.boot.root_dir_cluster, 0, no_entries()),
{
    let ext = l.root();
    let (mid, _, set) = lemma_insert_steps(l, p, d, ext, entry, now);
    law_append_to_directory(l, mid, ext, set);
    let a = l.inserted(p, d, ext, entry, now).disk.img;
    let buf = stream_at(l, d.img, ext);
    lemma_whole_root(l, d.img, root);
    let (cs, new) = l.dir_read(a, ext.first_cluster, false, u32::MAX as int)->Ok_0;
    assert(l.holds_dir(a, l.boot.root_dir_cluster, false, u32::MAX as int, cs));
    lemma_whole_root(l, a, cs);
    lemma_end_slot_bounds(buf, 0);
    lemma_scan_prefix(buf, new, 0, no_entries());
}

/// The root directory's search and bytes, and a length of whole slots.
proof fn lemma_whole_root(l: ExfatLayout, img: Seq<u8>, root: Seq<u32>)
    requires
        l.wf(),
        l.regions_apart(),
        l.holds_dir(img, l.boot.root_dir_cluster, false, u32::MAX as int, root),
    ensures
        root_scanned(l.boot, img, l.boot.root_dir_cluster, 0, no_entries()) == Ok::<
            SystemEntries,
            FsError<()>,
        >(slots_scanned(l.stream_of(img, root), 0, no_entries()).0),
        l.stream_of(img, root).len() % 32 == 0,
{
    assert(l.dir_walk(img, Some(l.boot.root_dir_cluster), false, u32::MAX as int, 0) is Ok);
    assert(root.len() > 0 && root[0] == l.boot.root_dir_cluster);
    assert forall|k: int| 0 <= k < root.len() implies l.in_heap((#[trigger] root[k]) as int) by {
        assert(l.data_cluster(root[k] as int));
    }
    lemma_scan_is_stream(l, img, root, 0, no_entries());
    lemma_unit_sizes(l.boot);
    let (n, cb) = (root.len() as int, l.boot.cluster_bytes());
    assert(0 <= n * cb && (n * cb) % 32 == 0) by (nonlinear_arith)
        requires
            0 <= n,
            0 < cb,
            cb % 32 == 0,
    ;
}

/// A volume into whose root directory an entry was inserted mounts alike, but
/// for the boot fields that change in place.
pub proof fn law_root_insert_remounts(
    l: ExfatLayout,
    p: NamePolicy,
    d: Disk,
    entry: NewEntry,
    now: PrimitiveDateTime,
    root: Seq<u32>,
    table: Seq<(u16, u16)>,
)
    requires
        mounted(d.img) == Ok::<MountFacts, FsError<()>>(MountFacts { layout: l, table }),
        l.volume_sound(d.img),
        l.fixed_parts(d.img, root),
        l.dir_sound(d.img, l.root()),
        forall|c: int| #[trigger]
            l.holds_table(d.img, c) ==> l.cluster_kept(d.img, c) && !members(root).contains(c),
        entry.times.wf(),
        now.wf(),
        l.inserted(p, d, l.root(), entry, now).out is Ok,
    ensures
        ({
            let b = l.inserted(p, d, l.root(), entry, now).disk.img;
            mounted(b) == Ok::<MountFacts, FsError<()>>(
                MountFacts {
                    layout: ExfatLayout {
                        boot: reflagged(l.boot, le16(b, 106) as u16, b[112]),
                        bitmap: l.bitmap,
                        dirty_since_mount: (le16(b, 106) as u16) & VOLUME_DIRTY != 0,
                    },
                    table,
                },
            )
        }),
{
    let a = d.img;
    let b = l.inserted(p, d, l.root(), entry, now).disk.img;
    let own = members(root);
    let (flags, percent) = (le16(b, 106) as u16, b[112]);
    assert(0 <= le16(b, 106) <= u16::MAX);
    law_insert_leaves_others(l, p, d, l.root(), entry, now);
    assert(l.leaves_alone(a, b, own));
    lemma_left_alone(l, a, b, own, 2);
    assert forall|i: int|
        0 <= i < 12 * l.boot.sector_bytes() && i < a.len() && !is_flag_place(i) implies #[trigger] a[i]
        == b[i] by {
        lemma_left_alone(l, a, b, own, i);
    }
    lemma_boot_kept(l, a, b, flags, percent);
    lemma_root_inserted(l, p, d, entry, now, root);
    lemma_root_scanned_same(
        l,
        b,
        b,
        flags,
        percent,
        l.boot.root_dir_cluster,
        0,
        no_entries(),
    );
    lemma_table_left(l, a, b, own, flags, percent);
    lemma_parts_mount(l, a, b, flags, percent, table);
}

/// Work that leaves the root directory and the up-case table alone, such as an
/// insertion into a directory further down, leaves a volume that mounts alike,
/// but for the boot fields that change in place.
pub proof fn law_left_alone_volume_remounts(
    l: ExfatLayout,
    a: Seq<u8>,
    b: Seq<u8>,
    own: Set<int>,
    root: Seq<u32>,
    table: Seq<(u16, u16)>,
)
    requires
        mounted(a) == Ok::<MountFacts, FsError<()>>(MountFacts { layout: l, table }),
        l.volume_sound(a),
        l.fixed_parts(a, root),
        l.leaves_alone(a, b, own),
        own.disjoint(members(root)),
        forall|c: int| #[trigger] l.holds_table(a, c) ==> l.cluster_kept(a, c) && !own.contains(c),
    ensures
        mounted(b) == Ok::<MountFacts, FsError<()>>(
            MountFacts {
                layout: ExfatLayout {
                    boot: reflagged(l.boot, le16(b, 106) as u16, b[112]),
                    bitmap: l.bitmap,
                    dirty_since_mount: (le16(b, 106) as u16) & VOLUME_DIRTY != 0,
                },
                table,
            },
        ),
{
    let (flags, percent) = (le16(b, 106) as u16, b[112]);
    assert(0 <= le16(b, 106) <= u16::MAX);
    lemma_left_alone(l, a, b, own, 2);
    assert forall|i: int|
        0 <= i < 12 * l.boot.sector_bytes() && i < a.len() && !is_flag_place(i) implies #[trigger] a[i]
        == b[i] by {
        lemma_left_alone(l, a, b, own, i);
    }
    lemma_boot_kept(l, a, b, flags, percent);
    assert forall|k: int| 0 <= k < root.len() implies {
        let c = (#[trigger] root[k]) as int;
        &&& l.in_heap(c)
        &&& l.cluster_on(a, c)
        &&& l.cluster_data(b, c) == l.cluster_data(a, c)
        &&& l.fat_read(b, c) == l.fat_read(a, c)
    } by {
        let c = root[k] as int;
        assert(l.data_cluster(c));
        assert(l.has_bit_on(a, c));
        assert(l.cluster_kept(a, c));
        assert(members(root).contains(c));
        lemma_left_alone(l, a, b, own, c);
    }
    assert(root.len() > 0 && root[0] == l.boot.root_dir_cluster) by {
        assert(l.dir_walk(a, Some(l.boot.root_dir_cluster), false, u32::MAX as int, 0) is Ok);
    }
    assert(root.subrange(0, root.len() as int) =~= root);
    lemma_root_scan_kept(l, a, b, flags, percent, root, 0, no_entries());
    lemma_table_left(l, a, b, own, flags, percent);
    lemma_parts_mount(l, a, b, flags, percent, table);
}

/// Slot `k` holds the same bytes in both streams.
spec fn slot_same(a: Seq<u8>, b: Seq<u8>, k: int) -> bool {
    forall|i: int| k <= i < k + 32 ==> #[trigger] a[i] == b[i]
}

/// Two streams whose slots have the same types, and the same bytes where a
/// system entry stands, are searched with the same result.
proof fn lemma_scan_alike(a: Seq<u8>, b: Seq<u8>, off: int, f: SystemEntries)
    requires
        a.len() == b.len(),
        0 <= off,
        off % 32 == 0,
        forall|k: int| k % 32 == 0 && 0 <= k < a.len() ==> #[trigger] a[k] == b[k],
        forall|k: int|
            k % 32 == 0 && 0 <= k && k + 32 <= a.len() && (a[k] == ENTRY_TYPE_ALLOCATION_BITMAP
                || a[k] == ENTRY_TYPE_UPCASE_TABLE) ==> #[trigger] slot_same(a, b, k),
    ensures
        slots_scanned(a, off, f) == slots_scanned(b, off, f),
    decreases a.len() - off,
{
    if off + 32 <= a.len() {
        assert(a[off] == b[off]);
        if a[off] == ENTRY_TYPE_ALLOCATION_BITMAP || a[off] == ENTRY_TYPE_UPCASE_TABLE {
            assert(slot_same(a, b, off));
            assert forall|k: int| 0 <= k < 32 implies #[trigger] a[off + k] == b[off + k] by {}
            lemma_noted_same(a, off, b, off, f);
        }
        lemma_scan_alike(a, b, off + 32, noted(a, off, f));
    }
}

/// The bytes of a stream that a rewritten entry set leaves.
proof fn lemma_set_replaced(buf: Seq<u8>, at: int, g: Seq<u8>)
    requires
        0 <= at,
        g.len() >= 64,
        at + g.len() <= buf.len(),
        g[0] == buf[at],
        g[32] == buf[at + 32],
        forall|i: int| 64 <= i < g.len() ==> #[trigger] g[i] == buf[at + i],
    ensures
        ({
            let new = spliced(buf, at, g);
            &&& new.len() == buf.len()
            &&& new[at] == buf[at]
            &&& new[at + 32] == buf[at + 32]
            &&& forall|i: int|
                0 <= i < buf.len() && !(at <= i < at + 64) ==> #[trigger] buf[i] == new[i]
        }),
{
    let new = spliced(buf, at, g);
    assert forall|i: int| 0 <= i < buf.len() && !(at <= i < at + 64) implies #[trigger] buf[i]
        == new[i] by {
        if at <= i < at + g.len() {
            assert(g[i - at] == buf[at + (i - at)]);
        }
    }
}

/// Rewriting the first two slots of an entry set, types kept, leaves the system
/// entries of the stream.
proof fn lemma_two_slots_scanned(buf: Seq<u8>, new: Seq<u8>, at: int, f: SystemEntries)
    requires
        0 <= at,
        at % 32 == 0,
        at + 64 <= buf.len(),
        new.len() == buf.len(),
        buf[at] == ENTRY_TYPE_FILE,
        buf[at + 32] == ENTRY_TYPE_STREAM_EXTENSION,
        new[at] == buf[at],
        new[at + 32] == buf[at + 32],
        forall|i: int| 0 <= i < buf.len() && !(at <= i < at + 64) ==> #[trigger] buf[i] == new[i],
    ensures
        slots_scanned(new, 0, f) == slots_scanned(buf, 0, f),
{
    assert forall|k: int| k % 32 == 0 && 0 <= k < buf.len() implies #[trigger] buf[k] == new[k] by {
        if at <= k < at + 64 {
            assert(k == at || k == at + 32);
        }
    }
    assert forall|k: int|
        k % 32 == 0 && 0 <= k && k + 32 <= buf.len() && (buf[k] == ENTRY_TYPE_ALLOCATION_BITMAP
            || buf[k] == ENTRY_TYPE_UPCASE_TABLE) implies #[trigger] slot_same(buf, new, k) by {
        assert(k != at && k != at + 32);
        assert(k + 32 <= at || at + 64 <= k);
    }
    lemma_scan_alike(buf, new, 0, f);
}

/// Recording a directory's growth in its entry set leaves the system entries of
/// the stream that holds the set.
proof fn lemma_growth_scanned(buf: Seq<u8>, at: int, n: int, added: int, f: SystemEntries)
    requires
        0 <= at,
        at % 32 == 0,
        n >= 64,
        at + n <= buf.len(),
        buf[at] == ENTRY_TYPE_FILE,
        buf[at + 32] == ENTRY_TYPE_STREAM_EXTENSION,
    ensures
        slots_scanned(spliced(buf, at, grown_set(buf.subrange(at, at + n), added)), 0, f)
            == slots_scanned(buf, 0, f),
{
    let set = buf.subrange(at, at + n);
    let g = grown_set(set, added);
    lemma_grown_bytes(set, added);
    assert forall|i: int| 64 <= i < g.len() implies #[trigger] g[i] == buf[at + i] by {
        assert(g[i] == set[i]);
    }
    lemma_set_replaced(buf, at, g);
    lemma_two_slots_scanned(buf, spliced(buf, at, g), at, f);
}

/// What recording growth keeps of an entry set.
proof fn lemma_grown_bytes(set: Seq<u8>, added: int)
    requires
        set.len() >= 64,
    ensures
        ({
            let g = grown_set(set, added);
            &&& g.len() == set.len()
            &&& g[0] == set[0]
            &&& g[32] == set[32]
            &&& forall|i: int| 64 <= i < set.len() ==> #[trigger] g[i] == set[i]
        }),
{
}

/// The root directory once the growth of a directory in it was recorded.
proof fn lemma_recorded_in_root(l: ExfatLayout, d: Disk, loc: SetLoc, added: int, root: Seq<u32>)
    requires
        l.volume_sound(d.img),
        l.holds_dir(d.img, l.boot.root_dir_cluster, false, u32::MAX as int, root),
        in_root(l, loc),
        loc.logical + loc.len <= root.len() * l.boot.cluster_bytes(),
        l.set_read(d.img, loc) matches Ok(set) && set[0] == ENTRY_TYPE_FILE,
        l.growth_recorded(d, loc, added).out is Ok,
    ensures
        root_scanned(
            l.boot,
            l.growth_recorded(d, loc, added).disk.img,
            l.boot.root_dir_cluster,
            0,
            no_entries(),
        ) == root_scanned(l.boot, d.img, l.boot.root_dir_cluster, 0, no_entries()),
{
    let (at, n) = (loc.logical as int, loc.len as int);
    lemma_dir_stream(l, d.img, l.boot.root_dir_cluster, false, u32::MAX as int, root);
    law_stream_read(l, d.img, root, at, n);
    let buf = l.stream_of(d.img, root);
    let set = buf.subrange(at, at + n);
    let g = grown_set(set, added);
    assert(g.len() == set.len());
    law_stream_written(l, d, root, at, g);
    let u = l.growth_recorded(d, loc, added).disk.img;
    lemma_stream_dir_kept(l, d.img, u, l.boot.root_dir_cluster, false, u32::MAX as int, root);
    lemma_whole_root(l, d.img, root);
    lemma_whole_root(l, u, root);
    assert(buf[at] == set[0] && buf[at + 32] == set[32]);
    lemma_growth_scanned(buf, at, n, added, no_entries());
}

/// The entry set at `loc` stands in the root directory, at a slot.
pub open spec fn in_root(l: ExfatLayout, loc: SetLoc) -> bool {
    &&& loc.dir_first_cluster == l.boot.root_dir_cluster
    &&& !loc.dir_no_fat_chain
    &&& loc.dir_max_clusters == u32::MAX
    &&& loc.logical % 32 == 0
    &&& loc.len >= 64
}

/// Appending to a directory whose entry set is in the root directory leaves the
/// system entries where a mount finds them, whether or not it grows.
proof fn lemma_append_below_root(
    l: ExfatLayout,
    d: Disk,
    ext: DirExtent,
    loc: SetLoc,
    set: Seq<u8>,
    root: Seq<u32>,
)
    requires
        l.volume_sound(d.img),
        l.dir_sound(d.img, ext),
        l.refreshed(d.img, ext) == ext,
        ext.parent_entry == Some(loc),
        in_root(l, loc),
        l.holds_dir(d.img, l.boot.root_dir_cluster, false, u32::MAX as int, root),
        l.set_read(d.img, loc) matches Ok(s) && s[0] == ENTRY_TYPE_FILE,
        l.set_appended(d, ext, set).out is Ok,
    ensures
        root_scanned(
            l.boot,
            l.set_appended(d, ext, set).disk.img,
            l.boot.root_dir_cluster,
            0,
            no_entries(),
        ) == root_scanned(l.boot, d.img, l.boot.root_dir_cluster, 0, no_entries()),
{
    let e = Set::<int>::empty();
    let (first, nfc, max) = (ext.first_cluster, ext.no_fat_chain, ext.max_clusters as int);
    let rc = l.boot.root_dir_cluster;
    let cs = l.dir_clusters(d.img, first, nfc, max)->Ok_0;
    let buf = l.stream_of(d.img, cs);
    lemma_whole_root(l, d.img, root);
    if end_slot(buf, 0) + set.len() <= buf.len() {
        lemma_dir_stream(l, d.img, first, nfc, max, cs);
        lemma_end_slot_bounds(buf, 0);
        lemma_unit_sizes(l.boot);
        let (n, cb) = (cs.len() as int, l.boot.cluster_bytes());
        assert(0 <= n * cb) by (nonlinear_arith)
            requires
                0 <= n,
                0 < cb,
        ;
        law_stream_written(l, d, cs, end_slot(buf, 0), set);
        let a = l.set_appended(d, ext, set).disk.img;
        lemma_dir_untouched(l, d.img, a, e, e, members(cs), rc, false, u32::MAX as int, root);
        lemma_whole_root(l, a, root);
    } else {
        lemma_append_steps(l, d, ext, cs, set);
        lemma_clusters_added(l, buf, set.len() as int);
        let n = clusters_added(l, buf, set.len() as int);
        lemma_append_grown(l, d, ext, cs, set, n);
        let grown = l.dir_grown(grow_from(l, d, ext, cs), cs.last(), n);
        let more = grown.out->Ok_0;
        let w = l.stream_written(grown.disk, cs + more, end_slot(buf, 0), set);
        let m = members(cs).union(members(more));
        lemma_free_apart(l, d.img, more, root);
        assert(m.disjoint(members(root)));
        lemma_dir_untouched(
            l,
            d.img,
            w.disk.img,
            m,
            members(more),
            m,
            rc,
            false,
            u32::MAX as int,
            root,
        );
        lemma_whole_root(l, w.disk.img, root);
        lemma_set_kept(l, d.img, w.disk.img, m, members(more), m, loc, cs);
        lemma_recorded_in_root(l, w.disk, loc, n * l.boot.cluster_bytes(), root);
    }
}

/// A volume into which an entry was inserted, in a directory that is itself in
/// the root directory, mounts alike, but for the boot fields that change in
/// place. Where the directory grows, that is recorded in the root directory.
pub proof fn law_insert_below_root_remounts(
    l: ExfatLayout,
    p: NamePolicy,
    d: Disk,
    parent: DirExtent,
    loc: SetLoc,
    entry: NewEntry,
    now: PrimitiveDateTime,
    root: Seq<u32>,
    table: Seq<(u16, u16)>,
)
    requires
        mounted(d.img) == Ok::<MountFacts, FsError<()>>(MountFacts { layout: l, table }),
        l.volume_sound(d.img),
        l.fixed_parts(d.img, root),
        l.dir_sound(d.img, l.refreshed(d.img, parent)),
        parent.parent_entry == Some(loc),
        in_root(l, loc),
        l.set_read(d.img, loc) matches Ok(s) && s[0] == ENTRY_TYPE_FILE,
        forall|c: int| #[trigger]
            l.holds_table(d.img, c) ==> l.cluster_kept(d.img, c) && !l.dir_and_parent(
                d.img,
                l.refreshed(d.img, parent),
            ).contains(c),
        entry.times.wf(),
        now.wf(),
        l.inserted(p, d, parent, entry, now).out is Ok,
    ensures
        ({
            let b = l.inserted(p, d, parent, entry, now).disk.img;
            mounted(b) == Ok::<MountFacts, FsError<()>>(
                MountFacts {
                    layout: ExfatLayout {
                        boot: reflagged(l.boot, le16(b, 106) as u16, b[112]),
                        bitmap: l.bitmap,
                        dirty_since_mount: (le16(b, 106) as u16) & VOLUME_DIRTY != 0,
                    },
                    table,
                },
            )
        }),
{
    let a = d.img;
    let ext = l.refreshed(a, parent);
    let own = l.dir_and_parent(a, ext);
    let b = l.inserted(p, d, parent, entry, now).disk.img;
    let (flags, percent) = (le16(b, 106) as u16, b[112]);
    assert(0 <= le16(b, 106) <= u16::MAX);
    law_insert_leaves_others(l, p, d, parent, entry, now);
    lemma_left_alone(l, a, b, own, 2);
    assert forall|i: int|
        0 <= i < 12 * l.boot.sector_bytes() && i < a.len() && !is_flag_place(i) implies #[trigger] a[i]
        == b[i] by {
        lemma_left_alone(l, a, b, own, i);
    }
    lemma_boot_kept(l, a, b, flags, percent);
    // The root directory after the allocation, then after the append.
    let (mid, _, set) = lemma_insert_steps(l, p, d, parent, entry, now);
    let taken = law_new_allocation(l, d, entry);
    let m = members(taken);
    let rc = l.boot.root_dir_cluster;
    lemma_free_apart(l, a, taken, root);
    lemma_dir_untouched(l, a, mid.img, m, m, m, rc, false, u32::MAX as int, root);
    lemma_whole_root(l, a, root);
    lemma_whole_root(l, mid.img, root);
    let cs = l.dir_clusters(
        a,
        ext.first_cluster,
        ext.no_fat_chain,
        ext.max_clusters as int,
    )->Ok_0;
    lemma_set_kept(l, a, mid.img, m, m, m, loc, cs);
    lemma_append_below_root(l, mid, ext, loc, set, root);
    lemma_root_scanned_same(l, b, b, flags, percent, rc, 0, no_entries());
    lemma_table_left(l, a, b, own, flags, percent);
    lemma_parts_mount(l, a, b, flags, percent, table);
}

} // verus!
