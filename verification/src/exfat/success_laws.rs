//! When work on a file succeeds: where there is room, it does.

use vstd::prelude::*;

use super::chains::{law_stream_written, lemma_walk_distinct, members};
use super::cluster_map::{lemma_whole_clusters, ExfatClusterMap};
use super::compose::{law_composed_exists, set_bytes};
use super::create::new_set;
use super::dir_edit::{end_slot, lemma_end_slot_bounds};
use super::dir_laws::lemma_guard_kept;
use super::direntry::{DirExtent, FatEntry};
use super::effects::{lemma_cell_effect, lemma_untouched};
use super::file::{zeros, ExfatFileRun};
use super::file_laws::{lemma_file_clusters, lemma_heap_kept, lemma_room_made};
use super::layout::{lemma_unit_sizes, Disk, ExfatLayout};
use super::move_laws::lemma_first_named_in;
use super::regions::{law_bit_marked, law_search_finds_free, lemma_cluster_places};
use super::removal_laws::{lemma_chain_cleared, lemma_range_cleared};
use super::resolve::first_named;
use super::set_laws::lemma_stream_write_succeeds;
use super::stream_laws::{
    law_stream_started, lemma_chain_extended, lemma_steps_along, lemma_stream_fits,
    lemma_tail_found, lemma_tail_linked, lemma_unrolled,
};
use crate::calendar::PrimitiveDateTime;
use crate::codec::exfat::consts::FAT_EOC;
use crate::error::{FileError, FsError};
use crate::file::FileState;
use crate::name::NamePolicy;
use crate::num::ceil_div;
use crate::text::utf16_of;
use crate::vfs::NewEntry;

verus! {

/// The FAT cell and the bit of a cluster lie on the device, and the bitmap can be
/// searched.
proof fn lemma_on_device(l: ExfatLayout, img: Seq<u8>, c: int)
    requires
        l.volume_sound(img),
        l.heap_on(img),
        l.in_heap(c),
    ensures
        l.cell_on_device(img, c),
        113 <= l.boot.fat_pos(c),
        l.has_bit_on(img, c),
        l.free_search(img) is Ok,
{
    lemma_cluster_places(l, c, 2);
    lemma_unit_sizes(l.boot);
    assert(l.cluster_on(img, c));
    let n = l.boot.cluster_count as int;
    assert(l.in_heap(n + 1));
    assert(l.has_bit_on(img, n + 1));
    assert((n + 7) / 8 == (n - 1) / 8 + 1);
    assert(l.bitmap_span() == (n + 7) / 8);
}

/// A cell on the device can be written.
proof fn lemma_cell_writable(l: ExfatLayout, d: Disk, c: int, value: u32)
    requires
        l.cell_on_device(d.img, c),
        113 <= l.boot.fat_pos(c),
    ensures
        l.fat_written(d, c, value).out is Ok,
        l.fat_written(d, c, value).disk.img.len() == d.img.len(),
{
}

/// With a free cluster at hand, a chain can be extended or started.
proof fn lemma_one_more(l: ExfatLayout, d: Disk, tail: u32, c: u32)
    requires
        l.volume_sound(d.img),
        l.heap_on(d.img),
        l.in_heap(tail as int),
        l.in_heap(c as int),
        !l.allocated(d.img, c as int),
    ensures
        l.chain_extended(d, tail).out is Ok,
        l.chain_started(d).out is Ok,
        l.chain_extended(d, tail).disk.img.len() == d.img.len(),
        l.chain_started(d).disk.img.len() == d.img.len(),
{
    lemma_on_device(l, d.img, c as int);
    lemma_on_device(l, d.img, tail as int);
    law_search_finds_free(l, d.img, 1);
    let x = l.free_search(d.img)->Ok_0->0;
    assert(l.free_search(d.img) == Ok::<Option<u32>, FsError<()>>(Some(x)));
    lemma_on_device(l, d.img, x as int);
    let m = l.marked(d, x as int, true);
    assert(m.out is Ok);
    law_bit_marked(l, d, x as int, true);
    lemma_cell_writable(l, m.disk, tail as int, x);
    let w = l.fat_written(m.disk, tail as int, x);
    lemma_cell_writable(l, w.disk, x as int, FAT_EOC);
    lemma_cell_writable(l, m.disk, x as int, FAT_EOC);
}

/// A stream in order grows while there are free clusters.
proof fn lemma_grows(
    l: ExfatLayout,
    d: Disk,
    map: ExfatClusterMap,
    cs: Seq<u32>,
    needed: int,
    free: Seq<u32>,
)
    requires
        l.volume_sound(d.img),
        l.heap_on(d.img),
        l.holds_stream(d.img, cs, false),
        !map.no_fat_chain,
        map.cluster_size == l.boot.cluster_bytes(),
        map.allocated_len == cs.len() * l.boot.cluster_bytes(),
        l.all_free(d.img, free),
        free.no_duplicates(),
        needed <= map.allocated_len + free.len() * l.boot.cluster_bytes(),
    ensures
        l.grown(d, map, cs[0], cs.last(), needed).out is Ok,
    decreases free.len(),
{
    lemma_unit_sizes(l.boot);
    lemma_stream_fits(l, d.img, cs);
    let (k, cb, n) = (cs.len() as int, l.boot.cluster_bytes(), free.len() as int);
    assert(0 <= k * cb <= 0xFFFF_FFFF * 0x200_0000 && (k + 1) * cb == k * cb + cb)
        by (nonlinear_arith)
        requires
            0 <= k <= 0xFFFF_FFFF,
            0 <= cb <= 0x200_0000,
    ;
    if map.allocated_len < needed {
        assert(n > 0) by {
            if n == 0 {
                assert(n * cb == 0) by (nonlinear_arith)
                    requires
                        n == 0,
                ;
            }
        }
        assert(n * cb == (n - 1) * cb + cb) by (nonlinear_arith);
        assert(cs[k - 1] == cs.last());
        assert(l.data_cluster(free[0] as int));
        lemma_one_more(l, d, cs.last(), free[0]);
        lemma_chain_extended(l, d, cs);
        let s = l.chain_extended(d, cs.last());
        let c = s.out->Ok_0;
        let a = s.disk.img;
        let cells = set![c as int, cs.last() as int];
        let e = Set::<int>::empty();
        let at = if free.contains(c) {
            free.index_of(c)
        } else {
            n - 1
        };
        let rest = free.remove(at);
        assert forall|i: int| 0 <= i < rest.len() implies l.data_cluster((#[trigger] rest[i]) as int)
            && !l.allocated(a, rest[i] as int) by {
            let j = if i < at {
                i
            } else {
                i + 1
            };
            assert(rest[i] == free[j]);
            assert(l.data_cluster(free[j] as int));
            assert(rest[i] != c) by {
                if free.contains(c) {
                    assert(free[at] == c);
                } else {
                    assert(free.contains(free[j]));
                }
            }
            lemma_on_device(l, d.img, rest[i] as int);
            lemma_untouched(l, d.img, a, cells, set![c as int], e, rest[i] as int);
        }
        assert(rest.no_duplicates()) by {
            assert forall|i: int, j: int| 0 <= i < rest.len() && 0 <= j < rest.len() && i
                != j implies rest[i] != rest[j] by {
                let p = if i < at {
                    i
                } else {
                    i + 1
                };
                let q = if j < at {
                    j
                } else {
                    j + 1
                };
                assert(rest[i] == free[p] && rest[j] == free[q]);
            }
        }
        lemma_heap_kept(l, d.img, a);
        let more = cs.push(c);
        assert(more[0] == cs[0] && more.last() == c);
        lemma_grows(l, s.disk, map.longer(), more, needed, rest);
        reveal(ExfatLayout::grown_by_one);
        assert(l.grown_by_one(d, map, cs[0], cs.last()).out == Ok::<u32, FsError<()>>(c));
    }
}

/// The cells of a run in the heap can be linked.
proof fn lemma_linkable(l: ExfatLayout, d: Disk, from: int, to: int)
    requires
        l.volume_sound(d.img),
        l.heap_on(d.img),
        forall|c: int| from <= c < to ==> #[trigger] l.in_heap(c),
    ensures
        l.neighbours_linked(d, from, to).out is Ok,
        l.neighbours_linked(d, from, to).disk.img.len() == d.img.len(),
    decreases to - from,
{
    if from < to {
        assert(l.in_heap(from));
        lemma_on_device(l, d.img, from);
        lemma_cell_writable(l, d, from, (from + 1) as u32);
        let w = l.fat_written(d, from, (from + 1) as u32);
        lemma_cell_effect(l, d, from, (from + 1) as u32);
        lemma_guard_kept(l, d.img, w.disk.img, set![from], set![], set![]);
        lemma_heap_kept(l, d.img, w.disk.img);
        lemma_linkable(l, w.disk, from + 1, to);
    }
}

/// A file grows while there are free clusters.
proof fn lemma_room_there(
    l: ExfatLayout,
    d: Disk,
    s: FileState,
    m: ExfatClusterMap,
    cs: Seq<u32>,
    needed: int,
    free: Seq<u32>,
)
    requires
        l.volume_sound(d.img),
        l.file_sound(d.img, s, m, cs),
        l.all_free(d.img, free),
        free.no_duplicates(),
        0 <= needed <= m.allocated_len + free.len() * l.boot.cluster_bytes(),
    ensures
        l.room_made(d, s, m, needed).out is Ok,
{
    lemma_unit_sizes(l.boot);
    let (k, cb, n) = (cs.len() as int, l.boot.cluster_bytes(), free.len() as int);
    if needed > m.allocated_len {
        assert(n > 0) by {
            if n == 0 {
                assert(n * cb == 0) by (nonlinear_arith)
                    requires
                        n == 0,
                ;
            }
        }
        assert(n * cb == (n - 1) * cb + cb) by (nonlinear_arith);
        assert(l.data_cluster(free[0] as int));
        if k == 0 {
            lemma_started(l, d, m, needed, free);
            assert(k * cb == 0) by (nonlinear_arith)
                requires
                    k == 0,
            ;
        } else {
            lemma_stream_fits(l, d.img, cs);
            assert(l.in_heap(cs[0] as int) && l.in_heap(cs[k - 1] as int));
            assert(0 <= k * cb <= 0xFFFF_FFFF * 0x200_0000) by (nonlinear_arith)
                requires
                    0 <= k <= 0xFFFF_FFFF,
                    0 <= cb <= 0x200_0000,
            ;
            if m.no_fat_chain {
                lemma_contiguous_grows(l, d, m, cs, needed, free);
            } else {
                lemma_tail_found(l, d.img, cs, 0);
                lemma_grows(l, d, m, cs, needed, free);
            }
        }
    }
}

/// A contiguous stream grows: its chain is written out first.
proof fn lemma_contiguous_grows(
    l: ExfatLayout,
    d: Disk,
    m: ExfatClusterMap,
    cs: Seq<u32>,
    needed: int,
    free: Seq<u32>,
)
    requires
        l.volume_sound(d.img),
        l.heap_on(d.img),
        m.no_fat_chain,
        l.holds_stream(d.img, cs, true),
        m.cluster_size == l.boot.cluster_bytes(),
        m.allocated_len == cs.len() * l.boot.cluster_bytes(),
        m.allocated_len <= 0xFFFF_FFFF * 0x200_0000,
        l.all_free(d.img, free),
        free.no_duplicates(),
        free.len() > 0,
        m.allocated_len < needed <= m.allocated_len + free.len() * l.boot.cluster_bytes(),
    ensures
        l.grown(d, m, cs[0], cs[0], needed).out is Ok,
{
    lemma_unit_sizes(l.boot);
    lemma_stream_fits(l, d.img, cs);
    let (k, cb) = (cs.len() as int, l.boot.cluster_bytes());
    lemma_whole_clusters(k, cb);
    let first = cs[0] as int;
    assert forall|c: int| first <= c < first + k implies #[trigger] l.in_heap(c) by {
        assert(l.in_heap(cs[c - first] as int));
    }
    lemma_linkable(l, d, first, first + k - 1);
    let w = l.neighbours_linked(d, first, first + k - 1);
    assert(l.in_heap(first + k - 1));
    lemma_on_device(l, d.img, first + k - 1);
    lemma_cell_writable(l, w.disk, first + k - 1, FAT_EOC);
    lemma_unrolled(l, d, cs);
    let u = l.unrolled(d, cs[0], k);
    let y = u.disk.img;
    let e = Set::<int>::empty();
    lemma_untouched(l, d.img, y, members(cs), e, e, 2);
    lemma_heap_kept(l, d.img, y);
    assert forall|i: int| 0 <= i < free.len() implies l.data_cluster((#[trigger] free[i]) as int)
        && !l.allocated(y, free[i] as int) by {
        assert(l.data_cluster(free[i] as int));
        lemma_on_device(l, d.img, free[i] as int);
        lemma_untouched(l, d.img, y, members(cs), e, e, free[i] as int);
    }
    let chained = ExfatClusterMap { no_fat_chain: false, ..m };
    lemma_grows(l, u.disk, chained, cs, needed, free);
    reveal(ExfatLayout::grown_by_one);
    assert(m.longer() == chained.longer());
}

/// An empty stream starts and grows.
proof fn lemma_started(
    l: ExfatLayout,
    d: Disk,
    m: ExfatClusterMap,
    needed: int,
    free: Seq<u32>,
)
    requires
        l.volume_sound(d.img),
        l.heap_on(d.img),
        m.cluster_size == l.boot.cluster_bytes(),
        l.all_free(d.img, free),
        free.no_duplicates(),
        free.len() > 0,
        0 <= needed <= free.len() * l.boot.cluster_bytes(),
    ensures
        l.stream_extended(d, m, None, None, needed).out is Ok,
{
    lemma_unit_sizes(l.boot);
    assert(l.data_cluster(free[0] as int));
    lemma_one_more(l, d, free[0], free[0]);
    let s = l.chain_started(d);
    let c = s.out->Ok_0;
    let one = ExfatClusterMap {
        first: c,
        no_fat_chain: false,
        allocated_len: m.cluster_size as u64,
        cluster_size: m.cluster_size,
    };
    let cb = l.boot.cluster_bytes();
    assert(l.grown(s.disk, one, c, c, cb).out is Ok);
    assert(l.stream_extended(d, m, None, None, cb).out is Ok);
    let cs = law_stream_started(l, d, m, None, None, cb);
    let a = s.disk.img;
    assert(cs.len() == 1) by {
        let n = cs.len() as int;
        assert(n * cb == cb ==> n == 1) by (nonlinear_arith)
            requires
                cb > 0,
        ;
    }
    assert(cs =~= seq![c]);
    let e = Set::<int>::empty();
    let n = free.len() as int;
    let at = if free.contains(c) {
        free.index_of(c)
    } else {
        n - 1
    };
    let rest = free.remove(at);
    assert forall|i: int| 0 <= i < rest.len() implies l.data_cluster((#[trigger] rest[i]) as int)
        && !l.allocated(a, rest[i] as int) by {
        let j = if i < at {
            i
        } else {
            i + 1
        };
        assert(rest[i] == free[j]);
        assert(l.data_cluster(free[j] as int));
        assert(rest[i] != c) by {
            if free.contains(c) {
                assert(free[at] == c);
            } else {
                assert(free.contains(free[j]));
            }
        }
        lemma_on_device(l, d.img, rest[i] as int);
        assert(!members(cs).contains(rest[i] as int));
        lemma_untouched(l, d.img, a, members(cs), members(cs), e, rest[i] as int);
    }
    assert(rest.no_duplicates()) by {
        assert forall|i: int, j: int| 0 <= i < rest.len() && 0 <= j < rest.len() && i
            != j implies rest[i] != rest[j] by {
            let p = if i < at {
                i
            } else {
                i + 1
            };
            let q = if j < at {
                j
            } else {
                j + 1
            };
            assert(rest[i] == free[p] && rest[j] == free[q]);
        }
    }
    lemma_heap_kept(l, d.img, a);
    assert(n * cb == (n - 1) * cb + cb) by (nonlinear_arith);
    assert(cs.len() * cb == cb);
    lemma_grows(l, s.disk, one, cs, needed, rest);
}

/// Work on a file that may be written succeeds where there is room: in the clusters
/// that the file has, or with as many free clusters as it needs more. It is refused
/// to a file that may not be written, which then stays as it is.
pub proof fn law_work_succeeds_with_room(
    l: ExfatLayout,
    d: Disk,
    s: FileState,
    m: ExfatClusterMap,
    cs: Seq<u32>,
    bytes: Seq<u8>,
    size: u64,
    now: PrimitiveDateTime,
    free: Seq<u32>,
)
    requires
        l.volume_sound(d.img),
        l.file_sound(d.img, s, m, cs),
        !s.fat_size_cap,
        l.all_free(d.img, free),
        free.no_duplicates(),
        bytes.len() <= usize::MAX,
    ensures
        ({
            let room = m.allocated_len + free.len() * l.boot.cluster_bytes();
            let w = l.file_written(d, s, m, bytes, now);
            let r = l.file_resized(d, s, m, size, now);
            &&& !s.writable ==> {
                &&& w == (ExfatFileRun {
                    out: Err::<usize, FileError<()>>(FileError::ReadOnly),
                    disk: d,
                    state: s,
                    map: m,
                })
                &&& r == (ExfatFileRun {
                    out: Err::<(), FileError<()>>(FileError::ReadOnly),
                    disk: d,
                    state: s,
                    map: m,
                })
            }
            &&& s.writable && s.pos + bytes.len() <= room && s.pos + bytes.len() <= u64::MAX ==> w.out
                == Ok::<usize, FileError<()>>(bytes.len() as usize)
            &&& s.writable && s.pos + bytes.len() > u64::MAX && bytes.len() > 0 ==> w == (
            ExfatFileRun {
                out: Err::<usize, FileError<()>>(FileError::FileTooLarge),
                disk: d,
                state: s,
                map: m,
            })
            &&& s.writable && s.len <= size <= room ==> r.out is Ok
            &&& bytes.len() == 0 && s.writable ==> w.disk == d && w.state == s && w.map == m
        }),
{
    let end = s.pos + bytes.len();
    let room = m.allocated_len + free.len() * l.boot.cluster_bytes();
    if s.writable && size <= room {
        lemma_room_there(l, d, s, m, cs, size as int, free);
    }
    if s.writable && end <= room && end <= u64::MAX && bytes.len() > 0 {
        lemma_room_there(l, d, s, m, cs, end, free);
        let all = lemma_room_made(l, d, s, m, cs, end);
        let g = l.room_made(d, s, m, end);
        lemma_file_clusters(l, g.disk.img, g.state, g.map, all);
        let gap = if s.pos > s.valid_len {
            s.pos - s.valid_len
        } else {
            0
        };
        law_stream_written(l, g.disk, all, s.valid_len as int, zeros(gap));
        let z = l.stream_written(g.disk, all, s.valid_len as int, zeros(gap));
        law_stream_written(l, z.disk, all, s.pos as int, bytes);
    }
}

/// What a new entry needs is allocated where it is to be had: one free cluster for
/// a directory, and clusters that lie side by side for a file of some size.
pub proof fn law_allocation_succeeds_with_room(l: ExfatLayout, d: Disk, entry: NewEntry, at: int)
    requires
        l.volume_sound(d.img),
        l.heap_on(d.img),
        entry.first_cluster < 2,
        l.in_heap(at),
        !entry.is_dir && entry.size > 0 ==> {
            let n = ceil_div(entry.size as int, l.boot.cluster_bytes());
            &&& n <= u32::MAX
            &&& at + n <= l.boot.cluster_count + 2
            &&& forall|c: int| at <= c < at + n ==> !#[trigger] l.allocated(d.img, c)
        },
        entry.is_dir ==> !l.allocated(d.img, at),
    ensures
        l.new_allocation(d, entry).out is Ok,
{
    let cb = l.boot.cluster_bytes();
    lemma_unit_sizes(l.boot);
    lemma_on_device(l, d.img, at);
    if entry.is_dir {
        law_search_finds_free(l, d.img, 1);
        let c = l.free_search(d.img)->Ok_0->0;
        assert(l.free_search(d.img) == Ok::<Option<u32>, FsError<()>>(Some(c)));
        lemma_on_device(l, d.img, c as int);
        lemma_cluster_places(l, c as int, 2);
        assert(l.cluster_on(d.img, c as int));
    } else if entry.size > 0 {
        let n = ceil_div(entry.size as int, cb);
        assert(n >= 1) by (nonlinear_arith)
            requires
                n == (entry.size + cb - 1) / cb,
                entry.size >= 1,
                cb > 0,
        ;
        law_search_finds_free(l, d.img, n);
        lemma_bitmap_searched(l, d.img, n);
        assert(l.run_free(d.img, at, n));
        let s = l.run_search(d.img, n)->Ok_0->0;
        assert(l.run_search(d.img, n) == Ok::<Option<u32>, FsError<()>>(Some(s)));
        lemma_markable(l, d, s as int, s + n);
    }
}

/// A bitmap on the device can be searched for a run.
proof fn lemma_bitmap_searched(l: ExfatLayout, img: Seq<u8>, count: int)
    requires
        l.volume_sound(img),
        l.boot.cluster_count > 0,
    ensures
        l.run_search(img, count) is Ok,
{
    let n = l.boot.cluster_count as int;
    assert(l.in_heap(n + 1));
    assert(l.has_bit_on(img, n + 1));
    assert((n + 7) / 8 == (n - 1) / 8 + 1);
    assert(l.bitmap_span() == (n + 7) / 8);
}

/// The clusters of the heap can be marked.
proof fn lemma_markable(l: ExfatLayout, d: Disk, from: int, to: int)
    requires
        l.volume_sound(d.img),
        2 <= from,
        to <= l.boot.cluster_count + 2,
    ensures
        l.range_marked(d, from, to, true).out is Ok,
    decreases to - from,
{
    if from < to {
        assert(l.in_heap(from));
        assert(l.has_bit_on(d.img, from));
        let m = l.marked(d, from, true);
        law_bit_marked(l, d, from, true);
        let a = m.disk.img;
        assert(l.bitmap_guarded(a)) by {
            assert forall|c: int| l.in_heap(c) implies #[trigger] l.has_bit_on(a, c) by {
                assert(l.has_bit_on(d.img, c));
            }
            assert forall|c: int| l.in_heap(c) && l.holds_bitmap(c) implies #[trigger] l.allocated(
                a,
                c,
            ) by {
                assert(l.has_bit_on(a, c));
                assert(l.allocated(d.img, c));
            }
        }
        lemma_markable(l, m.disk, from + 1, to);
    }
}

/// A new empty file whose name has one to 255 units and is not taken can be
/// inserted where its entry set fits behind the entries of its directory.
pub proof fn law_insert_succeeds_with_room(
    l: ExfatLayout,
    p: NamePolicy,
    d: Disk,
    parent: DirExtent,
    entry: NewEntry,
    now: PrimitiveDateTime,
    cs: Seq<u32>,
    buf: Seq<u8>,
)
    requires
        l.wf(),
        l.regions_apart(),
        entry.times.wf(),
        now.wf(),
        !entry.is_dir,
        entry.size == 0,
        1 <= utf16_of(entry.name@).len() <= 255,
        ({
            let ext = l.refreshed(d.img, parent);
            &&& l.in_heap(ext.first_cluster as int)
            &&& l.dir_read(d.img, ext.first_cluster, ext.no_fat_chain, ext.max_clusters as int)
                == Ok::<(Seq<u32>, Seq<u8>), FsError<()>>((cs, buf))
            &&& l.listing(d.img, ext) matches Ok(all) && forall|i: int|
                0 <= i < all.len() ==> !p.same_name(#[trigger] all[i].name, entry.name@)
        }),
        end_slot(buf, 0) + 32 * (2 + (utf16_of(entry.name@).len() + 14) / 15) <= buf.len(),
    ensures
        l.inserted(p, d, parent, entry, now).out is Ok,
{
    let ext = l.refreshed(d.img, parent);
    let all = l.listing(d.img, ext)->Ok_0;
    if first_named(p, all, entry.name@) is Some {
        let i = lemma_first_named_in(p, all, entry.name@);
        assert(!p.same_name(all[i].name, entry.name@));
    }
    let (first, valid, length, contiguous) = l.new_allocation(d, entry).out->Ok_0;
    assert(l.new_allocation(d, entry).disk == d);
    let f = new_set(p, entry, now, first, valid, length, contiguous);
    law_composed_exists(f);
    let set = set_bytes(f);
    let end = end_slot(buf, 0);
    lemma_end_slot_bounds(buf, 0);
    lemma_walk_distinct(l, d.img, Some(ext.first_cluster), ext.no_fat_chain, ext.max_clusters as int, 0);
    lemma_unit_sizes(l.boot);
    lemma_stream_write_succeeds(l, d, cs, end, set);
}

/// The rest of a chain can be freed once the cell before it was written.
proof fn lemma_rest_freeable(l: ExfatLayout, d: Disk, y: Disk, cs: Seq<u32>, keep: int)
    requires
        l.volume_sound(d.img),
        cs.no_duplicates(),
        l.all_in_use(d.img, cs),
        0 < keep < cs.len() <= l.boot.cluster_count,
        y.img.len() == d.img.len(),
        cs.subrange(keep, cs.len() as int).no_duplicates(),
        l.linked_in_order(y.img, cs.subrange(keep, cs.len() as int)),
    ensures
        l.chain_freed(y, cs[keep] as int, 0).out is Ok,
{
    let rest = cs.subrange(keep, cs.len() as int);
    assert forall|i: int| 0 <= i < rest.len() implies l.in_heap((#[trigger] rest[i]) as int)
        && l.has_bit_on(y.img, rest[i] as int) by {
        let c = cs[keep + i] as int;
        assert(rest[i] == c);
        assert(l.data_cluster(cs[keep + i] as int));
        assert(l.has_bit_on(d.img, c));
    }
    lemma_chain_cleared(l, y, rest, 0);
}

/// Ending a chain behind its first clusters and freeing the others succeeds.
#[verifier::spinoff_prover]
#[verifier::rlimit(30)]
proof fn lemma_cuttable(l: ExfatLayout, d: Disk, cs: Seq<u32>, keep: int, freed: int)
    requires
        l.volume_sound(d.img),
        l.heap_on(d.img),
        l.holds_stream(d.img, cs, false),
        0 < keep < cs.len(),
    ensures
        l.chain_cut(d, cs[0], keep, freed).out is Ok,
{
    lemma_stream_fits(l, d.img, cs);
    lemma_steps_along(l, d.img, cs, 0, keep - 1);
    let cur = cs[keep - 1];
    assert(l.in_heap(cur as int));
    assert(l.fat_read(d.img, cs[keep - 1] as int) == Ok::<FatEntry, FsError<()>>(
        FatEntry::Next(cs[keep]),
    ));
    lemma_on_device(l, d.img, cur as int);
    lemma_cell_writable(l, d, cur as int, FAT_EOC);
    let w = l.fat_written(d, cur as int, FAT_EOC);
    lemma_cell_effect(l, d, cur as int, FAT_EOC);
    lemma_tail_linked(l, d.img, w.disk.img, cs, keep);
    lemma_rest_freeable(l, d, w.disk, cs, keep);
    assert(l.steps_along(d.img, cs[0], keep - 1) == Ok::<u32, FsError<()>>(cur));
    assert(l.successor(d.img, cur as int, false) == Ok::<Option<u32>, FsError<()>>(Some(cs[keep])));
}

/// All clusters of a stream can be freed, and so can those behind the first ones of
/// a contiguous stream.
proof fn lemma_freeable(l: ExfatLayout, d: Disk, cs: Seq<u32>, contiguous: bool, keep: int)
    requires
        l.volume_sound(d.img),
        l.holds_stream(d.img, cs, contiguous),
        0 <= keep < cs.len(),
        contiguous || keep == 0,
    ensures
        l.clusters_freed(d, cs[0] + keep, cs.len() - keep, contiguous).out is Ok,
{
    lemma_stream_fits(l, d.img, cs);
    assert forall|i: int| 0 <= i < cs.len() implies l.in_heap((#[trigger] cs[i]) as int)
        && l.has_bit_on(d.img, cs[i] as int) by {
        assert(l.data_cluster(cs[i] as int));
    }
    if contiguous {
        let (from, to) = (cs[0] + keep, cs[0] + cs.len());
        assert forall|k: int| from <= k < to implies #[trigger] l.has_bit_on(d.img, k) by {
            assert(cs[k - cs[0]] == k);
        }
        lemma_range_cleared(l, d, from, to);
    } else {
        lemma_chain_cleared(l, d, cs, 0);
    }
}

/// Shortening a file in order succeeds.
pub proof fn law_shortening_succeeds(
    l: ExfatLayout,
    d: Disk,
    s: FileState,
    m: ExfatClusterMap,
    cs: Seq<u32>,
    size: u64,
    now: PrimitiveDateTime,
)
    requires
        l.volume_sound(d.img),
        l.file_sound(d.img, s, m, cs),
        !s.fat_size_cap,
        s.writable,
        size < s.len,
    ensures
        l.file_resized(d, s, m, size, now).out is Ok,
{
    lemma_unit_sizes(l.boot);
    let (n, cb) = (cs.len() as int, l.boot.cluster_bytes());
    assert(n > 0) by {
        if n == 0 {
            assert(n * cb == 0) by (nonlinear_arith)
                requires
                    n == 0,
            ;
        }
    }
    lemma_stream_fits(l, d.img, cs);
    assert(l.in_heap(cs[0] as int));
    lemma_whole_clusters(n, cb);
    let keep = ceil_div(size as int, cb);
    assert(0 <= keep <= n) by (nonlinear_arith)
        requires
            keep == (size + cb - 1) / cb,
            0 <= size <= n * cb,
            cb > 0,
    ;
    if keep < n {
        if m.no_fat_chain || keep == 0 {
            lemma_freeable(l, d, cs, m.no_fat_chain, keep);
        } else {
            lemma_cuttable(l, d, cs, keep, n - keep);
        }
    }
    assert(l.tail_freed(d, m, cs[0], size as int).out is Ok);
}

} // verus!
