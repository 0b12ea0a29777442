//! What extending and shortening a stream does to its clusters.

use vstd::prelude::*;

use super::chains::{law_chain_freed, members};
use super::cluster_map::{lemma_whole_clusters, real_cluster, ExfatClusterMap};
use super::dir_laws::{lemma_guard_kept, lemma_members_joined};
use super::direntry::FatEntry;
use super::effects::{
    lemma_bit_effect, lemma_bit_reads, lemma_cell_effect, lemma_cell_reads, lemma_range_effect,
    lemma_touches_more, lemma_touches_nothing, lemma_touches_then, lemma_untouched,
};
use super::growth::{lemma_distinct_fit, lemma_linked_effect, lemma_links_walk};
use super::layout::{clusters_for, lemma_unit_sizes, Disk, ExfatLayout};
use super::regions::{law_range_marked, law_search_finds_free};
use crate::codec::exfat::consts::FAT_EOC;
use crate::error::FsError;
use crate::num::ceil_div;

verus! {

/// Each cluster of the list is the right neighbour of the one before.
pub open spec fn consecutive(cs: Seq<u32>) -> bool {
    forall|i: int| 0 <= i < cs.len() ==> #[trigger] cs[i] == cs[0] + i
}

impl ExfatLayout {
    /// `cs` are the clusters of a stream: different ones, in use, and
    /// consecutive or linked in order.
    pub open spec fn holds_stream(self, img: Seq<u8>, cs: Seq<u32>, no_fat_chain: bool) -> bool {
        &&& cs.len() > 0
        &&& cs.no_duplicates()
        &&& self.all_in_use(img, cs)
        &&& if no_fat_chain {
            consecutive(cs)
        } else {
            self.linked_in_order(img, cs)
        }
    }
}

/// Walking a chain from its cluster number `i` on ends at its last cluster.
pub proof fn lemma_tail_found(l: ExfatLayout, img: Seq<u8>, cs: Seq<u32>, i: int)
    requires
        l.linked_in_order(img, cs),
        0 <= i < cs.len(),
        cs.len() <= l.boot.cluster_count,
    ensures
        l.tail_of(img, cs[i], i) == Ok::<u32, FsError<()>>(cs.last()),
    decreases cs.len() - i,
{
    if i < cs.len() - 1 {
        assert(l.fat_read(img, cs[i] as int) == Ok::<FatEntry, FsError<()>>(
            FatEntry::Next(cs[i + 1]),
        ));
        lemma_tail_found(l, img, cs, i + 1);
    } else {
        assert(cs[i] == cs.last());
    }
}

/// The clusters of a stream lie in the heap.
pub proof fn lemma_stream_fits(l: ExfatLayout, img: Seq<u8>, cs: Seq<u32>)
    requires
        cs.no_duplicates(),
        l.all_in_use(img, cs),
    ensures
        forall|i: int| 0 <= i < cs.len() ==> l.in_heap((#[trigger] cs[i]) as int),
        cs.len() <= l.boot.cluster_count,
{
    assert forall|i: int| 0 <= i < cs.len() implies l.in_heap((#[trigger] cs[i]) as int) by {
        assert(l.data_cluster(cs[i] as int));
    }
    lemma_distinct_fit(l, cs);
}

/// Taking one cluster behind a stream's last: free before, in use and the
/// end of the chain afterwards; nothing else is touched.
pub proof fn lemma_chain_extended(l: ExfatLayout, d: Disk, cs: Seq<u32>)
    requires
        l.volume_sound(d.img),
        l.holds_stream(d.img, cs, false),
        l.chain_extended(d, cs.last()).out is Ok,
    ensures
        ({
            let r = l.chain_extended(d, cs.last());
            let c = r.out->Ok_0;
            let a = r.disk.img;
            &&& l.volume_sound(a)
            &&& l.holds_stream(a, cs.push(c), false)
            &&& l.all_free(d.img, seq![c])
            &&& l.touches_only(
                d.img,
                a,
                set![c as int, cs.last() as int],
                set![c as int],
                set![],
            )
        }),
{
    let e = Set::<int>::empty();
    let tail = cs.last();
    let c = l.free_search(d.img)->Ok_0->0;
    law_search_finds_free(l, d.img, 1);
    let (ti, ci) = (tail as int, c as int);
    assert(l.data_cluster(ci));
    lemma_stream_fits(l, d.img, cs);
    assert(tail == cs[cs.len() - 1]);
    assert(l.in_heap(ti));
    assert(l.allocated(d.img, ti));
    let m = l.marked(d, ci, true);
    let w = l.fat_written(m.disk, ti, c);
    let z = l.fat_written(w.disk, ci, FAT_EOC);
    let (x, y, v, a) = (d.img, m.disk.img, w.disk.img, z.disk.img);
    let (cells, bits) = (set![ci, ti], set![ci]);
    lemma_bit_effect(l, d, ci, true);
    lemma_bit_reads(l, d, ci, true);
    lemma_touches_more(l, x, y, e, bits, e, cells, bits, e);
    lemma_cell_effect(l, m.disk, ti, c);
    lemma_cell_reads(l, m.disk, ti, c);
    lemma_touches_more(l, y, v, set![ti], e, e, cells, bits, e);
    lemma_touches_then(l, x, y, v, cells, bits, e);
    lemma_cell_effect(l, w.disk, ci, FAT_EOC);
    lemma_cell_reads(l, w.disk, ci, FAT_EOC);
    lemma_touches_more(l, v, a, set![ci], e, e, cells, bits, e);
    lemma_touches_then(l, x, v, a, cells, bits, e);
    lemma_untouched(l, v, a, set![ci], e, e, ti);
    assert(l.has_bit_on(y, ci)) by {
        lemma_untouched(l, x, y, e, bits, e, ci);
    }
    lemma_untouched(l, y, v, set![ti], e, e, ci);
    assert(l.has_bit_on(v, ci));
    lemma_untouched(l, v, a, set![ci], e, e, ci);
    assert(l.allocated(a, ci));
    lemma_guard_kept(l, x, a, cells, bits, e);
    let all = cs.push(c);
    assert forall|i: int| 0 <= i < cs.len() implies (#[trigger] cs[i]) != c && l.allocated(
        a,
        cs[i] as int,
    ) by {
        assert(l.allocated(x, cs[i] as int));
        assert(l.in_heap(cs[i] as int));
        assert(l.has_bit_on(x, cs[i] as int));
        lemma_untouched(l, x, a, cells, bits, e, cs[i] as int);
    }
    assert forall|i: int, j: int| 0 <= i < all.len() && 0 <= j < all.len() && i != j implies all[i]
        != all[j] by {
        if i < cs.len() && j < cs.len() {
            assert(all[i] == cs[i] && all[j] == cs[j]);
        } else if i < cs.len() {
            assert(all[i] == cs[i] && all[j] == c);
        } else {
            assert(all[i] == c && all[j] == cs[j]);
        }
    }
    assert forall|i: int| 0 <= i < all.len() implies l.data_cluster((#[trigger] all[i]) as int)
        && l.allocated(a, all[i] as int) by {
        if i < cs.len() {
            assert(all[i] == cs[i]);
            assert(l.data_cluster(cs[i] as int));
        }
    }
    assert forall|i: int| 0 <= i < all.len() - 1 implies #[trigger] l.fat_read(a, all[i] as int)
        == Ok::<FatEntry, FsError<()>>(FatEntry::Next(all[i + 1])) by {
        assert(all[i] == cs[i]);
        if i < cs.len() - 1 {
            assert(cs[i] != cs[cs.len() - 1]);
            assert(l.in_heap(cs[i] as int));
            lemma_untouched(l, x, a, cells, bits, e, cs[i] as int);
            assert(all[i + 1] == cs[i + 1]);
        } else {
            assert(all[i + 1] == c);
        }
    }
    assert(all.last() == c);
    assert(seq![c][0] == c);
}

/// One step of growing a chained stream.
proof fn lemma_grown_step(
    l: ExfatLayout,
    d: Disk,
    map: ExfatClusterMap,
    first: u32,
    tail: u32,
    needed: int,
)
    requires
        !map.no_fat_chain,
        map.cluster_size > 0,
        map.allocated_len < needed,
        map.allocated_len + map.cluster_size <= u64::MAX,
        l.grown(d, map, first, tail, needed).out is Ok,
    ensures
        ({
            let s = l.chain_extended(d, tail);
            &&& s.out is Ok
            &&& l.grown(d, map, first, tail, needed) == l.grown(
                s.disk,
                map.longer(),
                first,
                s.out->Ok_0,
                needed,
            )
        }),
{
    reveal(ExfatLayout::grown_by_one);
}

/// Growing a chained stream cluster by cluster.
proof fn lemma_grown(
    l: ExfatLayout,
    d: Disk,
    map: ExfatClusterMap,
    cs: Seq<u32>,
    needed: int,
) -> (new: Seq<u32>)
    requires
        l.volume_sound(d.img),
        l.holds_stream(d.img, cs, false),
        !map.no_fat_chain,
        map.cluster_size == l.boot.cluster_bytes(),
        map.allocated_len == cs.len() * l.boot.cluster_bytes(),
        l.grown(d, map, cs[0], cs.last(), needed).out is Ok,
    ensures
        grown_to(l, d, map, cs, new, needed),
    decreases
            (if map.allocated_len >= needed {
                0
            } else {
                needed - map.allocated_len
            }),
{
    let e = Set::<int>::empty();
    lemma_unit_sizes(l.boot);
    lemma_stream_fits(l, d.img, cs);
    let (k, cb) = (cs.len() as int, l.boot.cluster_bytes());
    assert(0 <= k * cb <= 0xFFFF_FFFF * 0x200_0000 && (k + 1) * cb == k * cb + cb)
        by (nonlinear_arith)
        requires
            0 <= k <= 0xFFFF_FFFF,
            0 <= cb <= 0x200_0000,
    ;
    if map.allocated_len >= needed {
        lemma_touches_nothing(l, d.img, members(seq![]).union(members(cs)), members(seq![]), e);
        assert(cs + Seq::<u32>::empty() =~= cs);
        seq![]
    } else {
        let s = l.chain_extended(d, cs.last());
        let c = s.out->Ok_0;
        lemma_grown_step(l, d, map, cs[0], cs.last(), needed);
        lemma_chain_extended(l, d, cs);
        let more = cs.push(c);
        assert(more[0] == cs[0] && more.last() == c);
        let rest = lemma_grown(l, s.disk, map.longer(), more, needed);
        let new = seq![c] + rest;
        assert(more + rest =~= cs + new);
        lemma_grown_joined(l, d.img, s.disk.img, l.grown(d, map, cs[0], cs.last(), needed).disk.img, cs, c, rest);
        assert((cs + new).len() == (more + rest).len());
        assert(rest.len() == 0 ==> (cs + new).len() - 1 == k);
        new
    }
}

/// What growing leaves: the stream is longer by clusters that were free, holds
/// at least the bytes asked for, and nothing else was touched.
pub open spec fn grown_to(
    l: ExfatLayout,
    d: Disk,
    map: ExfatClusterMap,
    cs: Seq<u32>,
    new: Seq<u32>,
    needed: int,
) -> bool {
    let r = l.grown(d, map, cs[0], cs.last(), needed);
    let a = r.disk.img;
    let all = cs + new;
    &&& l.volume_sound(a)
    &&& l.holds_stream(a, all, r.map.no_fat_chain)
    &&& r.map.allocated_len == all.len() * l.boot.cluster_bytes()
    &&& r.map.allocated_len >= needed
    &&& r.map.first == map.first
    &&& r.map.cluster_size == map.cluster_size
    &&& r.out->Ok_0.first_cluster == cs[0]
    &&& r.out->Ok_0.tail == all.last()
    &&& l.all_free(d.img, new)
    &&& !r.map.no_fat_chain
    &&& new.len() == 0 <==> map.allocated_len >= needed
    &&& new.len() > 0 ==> (all.len() - 1) * l.boot.cluster_bytes() < needed
    &&& l.touches_only(
        d.img,
        a,
        members(new).union(members(cs)),
        members(new),
        set![],
    )
}

/// One step of growing: the cluster taken first, then the rest.
proof fn lemma_grown_joined(
    l: ExfatLayout,
    x: Seq<u8>,
    y: Seq<u8>,
    a: Seq<u8>,
    cs: Seq<u32>,
    c: u32,
    rest: Seq<u32>,
)
    requires
        cs.len() > 0,
        l.bitmap_guarded(x),
        l.all_free(x, seq![c]),
        l.all_in_use(y, cs.push(c)),
        l.touches_only(x, y, set![c as int, cs.last() as int], set![c as int], set![]),
        l.all_free(y, rest),
        l.touches_only(
            y,
            a,
            members(rest).union(members(cs.push(c))),
            members(rest),
            set![],
        ),
    ensures
        l.all_free(x, seq![c] + rest),
        l.touches_only(
            x,
            a,
            members(seq![c] + rest).union(members(cs)),
            members(seq![c] + rest),
            set![],
        ),
{
    let e = Set::<int>::empty();
    let new = seq![c] + rest;
    let ci = c as int;
    assert(seq![c][0] == c);
    lemma_members_joined(seq![c], rest);
    lemma_members_joined(cs, seq![c]);
    assert(cs.push(c) =~= cs + seq![c]);
    assert(members(seq![c]) =~= set![ci]) by {
        assert(seq![c].contains(c));
    }
    assert(members(cs).contains(cs.last() as int)) by {
        assert(cs[cs.len() - 1] == cs.last());
    }
    let cells = members(new).union(members(cs));
    lemma_touches_more(
        l,
        x,
        y,
        set![ci, cs.last() as int],
        set![ci],
        e,
        cells,
        members(new),
        e,
    );
    lemma_touches_more(
        l,
        y,
        a,
        members(rest).union(members(cs.push(c))),
        members(rest),
        e,
        cells,
        members(new),
        e,
    );
    lemma_touches_then(l, x, y, a, cells, members(new), e);
    assert forall|i: int| 0 <= i < new.len() implies l.data_cluster((#[trigger] new[i]) as int)
        && !l.allocated(x, new[i] as int) by {
        if i > 0 {
            assert(new[i] == rest[i - 1]);
            let k = rest[i - 1] as int;
            assert(!l.allocated(y, k));
            assert(l.data_cluster(k));
            assert(cs.push(c)[cs.len() as int] == c);
            assert(l.allocated(y, ci));
            assert(l.has_bit_on(x, k));
            lemma_untouched(l, x, y, set![ci, cs.last() as int], set![ci], e, k);
        } else {
            assert(l.data_cluster(seq![c][0] as int));
        }
    }
}

/// Linking neighbours is linking the clusters of a run in order.
proof fn lemma_neighbours(l: ExfatLayout, d: Disk, cs: Seq<u32>, i: int)
    requires
        cs.len() > 0,
        consecutive(cs),
        0 <= i < cs.len(),
    ensures
        l.neighbours_linked(d, cs[0] + i, cs[0] + cs.len() - 1) == l.chain_linked(d, cs, i),
    decreases cs.len() - i,
{
    if i + 1 < cs.len() {
        assert(cs[i] == cs[0] + i && cs[i + 1] == cs[0] + i + 1);
        let w = l.fat_written(d, cs[i] as int, cs[i + 1]);
        lemma_neighbours(l, w.disk, cs, i + 1);
    }
}

/// Writing out the FAT chain of a contiguous stream: the same clusters, linked
/// in order; only their cells are touched.
pub proof fn lemma_unrolled(l: ExfatLayout, d: Disk, cs: Seq<u32>)
    requires
        l.volume_sound(d.img),
        l.holds_stream(d.img, cs, true),
        l.materialized(d, cs[0] as int, cs.len() as int).out is Ok,
    ensures
        ({
            let u = l.unrolled(d, cs[0], cs.len() as int);
            let y = u.disk.img;
            &&& u.out == Ok::<u32, FsError<()>>(cs.last())
            &&& l.volume_sound(y)
            &&& l.holds_stream(y, cs, false)
            &&& l.touches_only(d.img, y, members(cs), set![], set![])
        }),
{
    let e = Set::<int>::empty();
    let n = cs.len() as int;
    lemma_stream_fits(l, d.img, cs);
    assert(cs[n - 1] == cs[0] + n - 1);
    assert(l.in_heap(cs[n - 1] as int) && l.in_heap(cs[0] as int));
    lemma_neighbours(l, d, cs, 0);
    let w = l.chain_linked(d, cs, 0);
    lemma_linked_effect(l, d, cs, 0);
    let tail = cs.last() as int;
    assert(cs.last() == cs[n - 1]);
    let z = l.fat_written(w.disk, tail, FAT_EOC);
    lemma_cell_effect(l, w.disk, tail, FAT_EOC);
    lemma_cell_reads(l, w.disk, tail, FAT_EOC);
    let (x, v, y) = (d.img, w.disk.img, z.disk.img);
    assert(members(cs).contains(tail));
    lemma_touches_more(l, v, y, set![tail], e, e, members(cs), e, e);
    lemma_touches_then(l, x, v, y, members(cs), e, e);
    lemma_guard_kept(l, x, y, members(cs), e, e);
    assert forall|i: int| 0 <= i < n implies l.data_cluster((#[trigger] cs[i]) as int)
        && l.allocated(y, cs[i] as int) by {
        assert(l.data_cluster(cs[i] as int));
        assert(l.has_bit_on(x, cs[i] as int));
        lemma_untouched(l, x, y, members(cs), e, e, cs[i] as int);
    }
    assert(l.linked_in_order(y, cs)) by {
        assert forall|i: int| 0 <= i < n - 1 implies #[trigger] l.fat_read(y, cs[i] as int) == Ok::<
            FatEntry,
            FsError<()>,
        >(FatEntry::Next(cs[i + 1])) by {
            assert(cs[i] != cs[n - 1]);
            assert(l.in_heap(cs[i] as int));
            lemma_untouched(l, v, y, set![tail], e, e, cs[i] as int);
            assert(l.fat_read(v, cs[i] as int) == Ok::<FatEntry, FsError<()>>(
                FatEntry::Next(cs[i + 1]),
            ));
        }
    }
    lemma_tail_found(l, y, cs, 0);
}

/// Growing a contiguous stream: its chain is written out first, then it grows
/// as a chained one.
proof fn lemma_grown_contiguous(
    l: ExfatLayout,
    d: Disk,
    map: ExfatClusterMap,
    cs: Seq<u32>,
    tail: u32,
    needed: int,
)
    requires
        map.no_fat_chain,
        map.cluster_size > 0,
        clusters_for(map.allocated_len as int, map.cluster_size as int) == cs.len(),
        cs.len() > 0,
        map.allocated_len < needed,
        map.allocated_len + map.cluster_size <= u64::MAX,
        l.grown(d, map, cs[0], tail, needed).out is Ok,
    ensures
        ({
            let u = l.unrolled(d, cs[0], cs.len() as int);
            &&& u.out is Ok
            &&& l.grown(d, map, cs[0], tail, needed) == l.grown(
                u.disk,
                (ExfatClusterMap { no_fat_chain: false, ..map }),
                cs[0],
                u.out->Ok_0,
                needed,
            )
        }),
{
    reveal(ExfatLayout::grown_by_one);
    let u = l.unrolled(d, cs[0], cs.len() as int);
    let chained = ExfatClusterMap { no_fat_chain: false, ..map };
    assert(chained.longer() == map.longer());
    let x = l.chain_extended(u.disk, u.out->Ok_0);
    assert(l.grown(d, map, cs[0], tail, needed) == l.grown(
        x.disk,
        map.longer(),
        cs[0],
        x.out->Ok_0,
        needed,
    ));
    assert(l.grown(u.disk, chained, cs[0], u.out->Ok_0, needed) == l.grown(
        x.disk,
        chained.longer(),
        cs[0],
        x.out->Ok_0,
        needed,
    ));
}

/// Extending a stream: clusters that were free are added behind it, as few as
/// will do for it to hold the bytes asked for; it keeps its first cluster and all
/// the clusters it had. Once it has grown it is a FAT chain, also if it was
/// contiguous before; if it has not, it is what it was. Nothing
/// is touched but the cells of the stream's own clusters and of the new ones
/// and the bits of the new ones; the volume stays sound.
pub proof fn law_stream_extended(
    l: ExfatLayout,
    d: Disk,
    map: ExfatClusterMap,
    cs: Seq<u32>,
    tail: Option<u32>,
    needed: int,
) -> (new: Seq<u32>)
    requires
        l.volume_sound(d.img),
        l.holds_stream(d.img, cs, map.no_fat_chain),
        map.first == cs[0],
        map.cluster_size == l.boot.cluster_bytes(),
        map.allocated_len == cs.len() * l.boot.cluster_bytes(),
        tail == Some(cs.last()) || tail is None,
        l.stream_extended(d, map, Some(cs[0]), tail, needed).out is Ok,
    ensures
        ({
            let r = l.stream_extended(d, map, Some(cs[0]), tail, needed);
            let a = r.disk.img;
            let all = cs + new;
            &&& l.volume_sound(a)
            &&& l.holds_stream(a, all, r.map.no_fat_chain)
            &&& r.map.first == map.first
            &&& r.map.cluster_size == map.cluster_size
            &&& r.map.allocated_len == all.len() * l.boot.cluster_bytes()
            &&& r.map.allocated_len >= needed
            &&& r.out->Ok_0.first_cluster == cs[0]
            &&& tail is Some || new.len() > 0 ==> r.out->Ok_0.tail == all.last()
            &&& new.len() == 0 <==> map.allocated_len >= needed
            &&& new.len() == 0 ==> r.map == map && r.disk == d
            &&& new.len() > 0 ==> {
                &&& !r.map.no_fat_chain
                &&& l.linked_in_order(a, all)
                &&& (all.len() - 1) * l.boot.cluster_bytes() < needed
            }
            &&& l.all_free(d.img, new)
            &&& l.touches_only(
                d.img,
                a,
                members(new).union(members(cs)),
                members(new),
                set![],
            )
        }),
{
    let e = Set::<int>::empty();
    lemma_unit_sizes(l.boot);
    lemma_stream_fits(l, d.img, cs);
    assert(l.in_heap(cs[0] as int) && l.in_heap(cs[cs.len() - 1] as int));
    assert(cs.last() == cs[cs.len() - 1]);
    let (k, cb) = (cs.len() as int, l.boot.cluster_bytes());
    assert(0 <= k * cb <= 0xFFFF_FFFF * 0x200_0000) by (nonlinear_arith)
        requires
            0 <= k <= 0xFFFF_FFFF,
            0 <= cb <= 0x200_0000,
    ;
    if map.allocated_len >= needed {
        lemma_touches_nothing(l, d.img, members(seq![]).union(members(cs)), members(seq![]), e);
        assert(cs + Seq::<u32>::empty() =~= cs);
        seq![]
    } else if map.no_fat_chain {
        lemma_whole_clusters(k, cb);
        let t = if tail is Some {
            cs.last()
        } else {
            cs[0]
        };
        lemma_grown_contiguous(l, d, map, cs, t, needed);
        lemma_unrolled(l, d, cs);
        let u = l.unrolled(d, cs[0], k);
        let chained = ExfatClusterMap { no_fat_chain: false, ..map };
        let new = lemma_grown(l, u.disk, chained, cs, needed);
        let y = u.disk.img;
        let a = l.grown(u.disk, chained, cs[0], cs.last(), needed).disk.img;
        let cells = members(new).union(members(cs));
        lemma_touches_more(l, d.img, y, members(cs), e, e, cells, members(new), e);
        lemma_touches_then(l, d.img, y, a, cells, members(new), e);
        assert(l.all_free(d.img, new)) by {
            assert forall|i: int| 0 <= i < new.len() implies l.data_cluster(
                (#[trigger] new[i]) as int,
            ) && !l.allocated(d.img, new[i] as int) by {
                assert(l.data_cluster(new[i] as int));
                assert(l.has_bit_on(d.img, new[i] as int));
                lemma_untouched(l, d.img, y, members(cs), e, e, new[i] as int);
            }
        }
        new
    } else {
        lemma_tail_found(l, d.img, cs, 0);
        lemma_grown(l, d, map, cs, needed)
    }
}

/// Giving an empty stream its first clusters: they were free, form a FAT chain of
/// their own, and are as few as will hold the bytes asked for, but at least one.
pub proof fn law_stream_started(
    l: ExfatLayout,
    d: Disk,
    map: ExfatClusterMap,
    first: Option<u32>,
    tail: Option<u32>,
    needed: int,
) -> (cs: Seq<u32>)
    requires
        l.volume_sound(d.img),
        map.cluster_size == l.boot.cluster_bytes(),
        real_cluster(first) is None,
        l.stream_extended(d, map, first, tail, needed).out is Ok,
    ensures
        ({
            let r = l.stream_extended(d, map, first, tail, needed);
            let a = r.disk.img;
            &&& l.volume_sound(a)
            &&& l.holds_stream(a, cs, r.map.no_fat_chain)
            &&& r.map.first == cs[0]
            &&& r.map.cluster_size == map.cluster_size
            &&& r.map.allocated_len == cs.len() * l.boot.cluster_bytes()
            &&& r.map.allocated_len >= needed
            &&& r.out->Ok_0.first_cluster == cs[0]
            &&& r.out->Ok_0.tail == cs.last()
            &&& l.all_free(d.img, cs)
            &&& !r.map.no_fat_chain
            &&& cs.len() == 1 || (cs.len() - 1) * l.boot.cluster_bytes() < needed
            &&& l.touches_only(d.img, a, members(cs), members(cs), set![])
        }),
{
    let e = Set::<int>::empty();
    lemma_unit_sizes(l.boot);
    let c = l.free_search(d.img)->Ok_0->0;
    law_search_finds_free(l, d.img, 1);
    let ci = c as int;
    assert(l.data_cluster(ci));
    let m = l.marked(d, ci, true);
    let w = l.fat_written(m.disk, ci, FAT_EOC);
    let (x, y, z) = (d.img, m.disk.img, w.disk.img);
    lemma_bit_effect(l, d, ci, true);
    lemma_bit_reads(l, d, ci, true);
    lemma_cell_effect(l, m.disk, ci, FAT_EOC);
    lemma_cell_reads(l, m.disk, ci, FAT_EOC);
    let one = seq![c];
    assert(one[0] == c && one.last() == c);
    assert(members(one) =~= set![ci]) by {
        assert(one.contains(c));
    }
    lemma_touches_more(l, x, y, e, set![ci], e, set![ci], set![ci], e);
    lemma_touches_more(l, y, z, set![ci], e, e, set![ci], set![ci], e);
    lemma_touches_then(l, x, y, z, set![ci], set![ci], e);
    lemma_untouched(l, x, y, e, set![ci], e, ci);
    assert(l.has_bit_on(y, ci));
    lemma_untouched(l, y, z, set![ci], e, e, ci);
    lemma_guard_kept(l, x, z, set![ci], set![ci], e);
    let started = ExfatClusterMap {
        first: c,
        no_fat_chain: false,
        allocated_len: map.cluster_size as u64,
        cluster_size: map.cluster_size,
    };
    assert(one.len() * l.boot.cluster_bytes() == l.boot.cluster_bytes()) by (nonlinear_arith)
        requires
            one.len() == 1,
    ;
    let new = lemma_grown(l, w.disk, started, one, needed);
    let a = l.grown(w.disk, started, c, c, needed).disk.img;
    let all = one + new;
    lemma_members_joined(one, new);
    lemma_touches_more(l, x, z, set![ci], set![ci], e, members(all), members(all), e);
    lemma_touches_more(
        l,
        z,
        a,
        members(new).union(members(one)),
        members(new),
        e,
        members(all),
        members(all),
        e,
    );
    lemma_touches_then(l, x, z, a, members(all), members(all), e);
    assert(l.all_free(x, all)) by {
        assert forall|i: int| 0 <= i < all.len() implies l.data_cluster((#[trigger] all[i]) as int)
            && !l.allocated(x, all[i] as int) by {
            if i > 0 {
                assert(all[i] == new[i - 1]);
                assert(l.data_cluster(new[i - 1] as int));
                assert(l.has_bit_on(x, new[i - 1] as int));
                lemma_untouched(l, x, z, set![ci], set![ci], e, new[i - 1] as int);
            }
        }
    }
    all
}

/// Walking a chain `n` steps from its cluster number `i`.
pub proof fn lemma_steps_along(l: ExfatLayout, img: Seq<u8>, cs: Seq<u32>, i: int, n: int)
    requires
        l.linked_in_order(img, cs),
        0 <= i,
        0 <= n,
        i + n < cs.len(),
    ensures
        l.steps_along(img, cs[i], n) == Ok::<u32, FsError<()>>(cs[i + n]),
    decreases n,
{
    if n > 0 {
        assert(l.fat_read(img, cs[i] as int) == Ok::<FatEntry, FsError<()>>(
            FatEntry::Next(cs[i + 1]),
        ));
        lemma_steps_along(l, img, cs, i + 1, n - 1);
    }
}

/// The clusters of the list are not in use.
pub open spec fn none_in_use(l: ExfatLayout, img: Seq<u8>, cs: Seq<u32>) -> bool {
    forall|i: int| 0 <= i < cs.len() ==> !l.allocated(img, (#[trigger] cs[i]) as int)
}

/// Freeing a whole chain whose last cluster is not bad.
pub proof fn lemma_chain_given_up(l: ExfatLayout, d: Disk, cs: Seq<u32>)
    requires
        l.wf(),
        l.regions_apart(),
        cs.len() > 0,
        cs.no_duplicates(),
        forall|i: int| 0 <= i < cs.len() ==> l.in_heap((#[trigger] cs[i]) as int),
        l.linked_in_order(d.img, cs),
        l.fat_entry(d.img, cs.last() as int) != FatEntry::Bad,
        l.chain_freed(d, cs[0] as int, 0).out is Ok,
    ensures
        ({
            let a = l.chain_freed(d, cs[0] as int, 0).disk.img;
            &&& none_in_use(l, a, cs)
            &&& l.touches_only(d.img, a, members(cs), members(cs), set![])
        }),
{
    lemma_distinct_fit(l, cs);
    lemma_links_walk(l, d.img, cs, 0, 0);
    assert(l.in_heap(cs[0] as int));
    law_chain_freed(l, d, cs[0], 0);
    let a = l.chain_freed(d, cs[0] as int, 0).disk.img;
    assert forall|i: int| 0 <= i < cs.len() implies !l.allocated(a, (#[trigger] cs[i]) as int) by {
        if i < cs.len() - 1 {
            assert(l.fat_read(d.img, cs[i] as int) == Ok::<FatEntry, FsError<()>>(
                FatEntry::Next(cs[i + 1]),
            ));
        } else {
            assert(cs[i] == cs.last());
        }
        assert(l.fat_entry(d.img, cs[i] as int) != FatEntry::Bad);
    }
}

/// Freeing the tail of a contiguous stream.
proof fn lemma_run_cut(l: ExfatLayout, d: Disk, cs: Seq<u32>, keep: int)
    requires
        l.volume_sound(d.img),
        l.holds_stream(d.img, cs, true),
        0 <= keep < cs.len(),
        l.range_marked(d, cs[0] + keep, cs[0] + cs.len(), false).out is Ok,
    ensures
        ({
            let a = l.range_marked(d, cs[0] + keep, cs[0] + cs.len(), false).disk.img;
            &&& keep > 0 ==> l.holds_stream(a, cs.subrange(0, keep), true)
            &&& none_in_use(l, a, cs.subrange(keep, cs.len() as int))
            &&& l.touches_only(d.img, a, members(cs), members(cs), set![])
        }),
{
    let e = Set::<int>::empty();
    let (from, to) = (cs[0] + keep, cs[0] + cs.len());
    let a = l.range_marked(d, from, to, false).disk.img;
    law_range_marked(l, d, from, to, false);
    lemma_range_effect(l, d, from, to, false);
    let bits = Set::new(|k: int| from <= k < to);
    assert(bits.subset_of(members(cs))) by {
        assert forall|k: int| bits.contains(k) implies members(cs).contains(k) by {
            let i = k - cs[0];
            assert(cs[i] == cs[0] + i);
        }
    }
    lemma_touches_more(l, d.img, a, e, bits, e, members(cs), members(cs), e);
    let head = cs.subrange(0, keep);
    let rest = cs.subrange(keep, cs.len() as int);
    assert forall|i: int| 0 <= i < rest.len() implies !l.allocated(a, (#[trigger] rest[i]) as int) by {
        assert(rest[i] == cs[keep + i]);
        assert(cs[keep + i] == cs[0] + (keep + i));
        assert(l.allocated(a, from + i) == false);
    }
    assert forall|i: int| 0 <= i < head.len() implies l.data_cluster((#[trigger] head[i]) as int)
        && l.allocated(a, head[i] as int) by {
        assert(head[i] == cs[i]);
        assert(l.data_cluster(cs[i] as int));
        assert(cs[i] == cs[0] + i);
        assert(l.has_bit_on(d.img, cs[i] as int));
        lemma_untouched(l, d.img, a, e, bits, e, cs[i] as int);
    }
    if keep > 0 {
        assert forall|i: int| 0 <= i < head.len() implies #[trigger] head[i] == head[0] + i by {
            assert(head[i] == cs[i] && head[0] == cs[0]);
        }
    }
}

/// The part of a chain behind its first `keep` clusters is a chain, whatever
/// becomes of the cell before it.
pub proof fn lemma_tail_linked(l: ExfatLayout, x: Seq<u8>, y: Seq<u8>, cs: Seq<u32>, keep: int)
    requires
        l.linked_in_order(x, cs),
        cs.no_duplicates(),
        0 < keep < cs.len(),
        forall|i: int| 0 <= i < cs.len() ==> l.in_heap((#[trigger] cs[i]) as int),
        l.touches_only(x, y, set![cs[keep - 1] as int], set![], set![]),
    ensures
        ({
            let rest = cs.subrange(keep, cs.len() as int);
            &&& rest.no_duplicates()
            &&& forall|i: int| 0 <= i < rest.len() ==> l.in_heap((#[trigger] rest[i]) as int)
            &&& rest[0] == cs[keep]
            &&& rest.last() == cs.last()
            &&& l.linked_in_order(y, rest)
            &&& l.fat_read(y, cs.last() as int) == l.fat_read(x, cs.last() as int)
            &&& forall|i: int|
                0 <= i < keep - 1 ==> l.fat_read(y, (#[trigger] cs[i]) as int) == l.fat_read(
                    x,
                    cs[i] as int,
                )
        }),
{
    let e = Set::<int>::empty();
    let n = cs.len() as int;
    let cur = cs[keep - 1] as int;
    let rest = cs.subrange(keep, n);
    assert forall|i: int| 0 <= i < n && i != keep - 1 implies l.fat_read(
        y,
        (#[trigger] cs[i]) as int,
    ) == l.fat_read(x, cs[i] as int) by {
        assert(cs[i] != cs[keep - 1]);
        assert(l.in_heap(cs[i] as int));
        lemma_untouched(l, x, y, set![cur], e, e, cs[i] as int);
    }
    assert forall|i: int| 0 <= i < rest.len() implies (#[trigger] rest[i]) == cs[keep + i] by {}
    assert forall|i: int, j: int|
        0 <= i < rest.len() && 0 <= j < rest.len() && i != j implies rest[i] != rest[j] by {
        assert(rest[i] == cs[keep + i] && rest[j] == cs[keep + j]);
    }
    assert(rest.last() == cs[n - 1] && cs.last() == cs[n - 1]);
    assert forall|i: int| 0 <= i < rest.len() - 1 implies #[trigger] l.fat_read(y, rest[i] as int)
        == Ok::<FatEntry, FsError<()>>(FatEntry::Next(rest[i + 1])) by {
        assert(rest[i] == cs[keep + i] && rest[i + 1] == cs[keep + i + 1]);
        assert(l.fat_read(x, cs[keep + i] as int) == Ok::<FatEntry, FsError<()>>(
            FatEntry::Next(cs[keep + i + 1]),
        ));
    }
    assert(l.fat_read(y, cs[n - 1] as int) == l.fat_read(x, cs[n - 1] as int));
}

/// Ending a chain after `keep` clusters and freeing the rest.
proof fn lemma_chain_cut(l: ExfatLayout, d: Disk, cs: Seq<u32>, keep: int, freed: int)
    requires
        l.volume_sound(d.img),
        l.holds_stream(d.img, cs, false),
        l.fat_entry(d.img, cs.last() as int) != FatEntry::Bad,
        0 < keep < cs.len(),
        l.chain_cut(d, cs[0], keep, freed).out is Ok,
    ensures
        ({
            let a = l.chain_cut(d, cs[0], keep, freed).disk.img;
            &&& l.holds_stream(a, cs.subrange(0, keep), false)
            &&& none_in_use(l, a, cs.subrange(keep, cs.len() as int))
            &&& l.touches_only(d.img, a, members(cs), members(cs), set![])
        }),
{
    let e = Set::<int>::empty();
    let n = cs.len() as int;
    lemma_stream_fits(l, d.img, cs);
    lemma_steps_along(l, d.img, cs, 0, keep - 1);
    let cur = cs[keep - 1];
    let (head, rest) = (cs.subrange(0, keep), cs.subrange(keep, n));
    assert(l.in_heap(cur as int));
    assert(l.fat_read(d.img, cs[keep - 1] as int) == Ok::<FatEntry, FsError<()>>(
        FatEntry::Next(cs[keep]),
    ));
    let w = l.fat_written(d, cur as int, FAT_EOC);
    let y = w.disk.img;
    lemma_cell_effect(l, d, cur as int, FAT_EOC);
    lemma_cell_reads(l, d, cur as int, FAT_EOC);
    assert(members(cs).contains(cur as int));
    lemma_touches_more(l, d.img, y, set![cur as int], e, e, members(cs), members(cs), e);
    lemma_tail_linked(l, d.img, y, cs, keep);
    lemma_chain_given_up(l, w.disk, rest);
    let a = l.chain_freed(w.disk, rest[0] as int, 0).disk.img;
    assert(members(rest).subset_of(members(cs))) by {
        assert forall|c: int| members(rest).contains(c) implies members(cs).contains(c) by {
            let i = choose|i: int| 0 <= i < rest.len() && rest[i] == c as u32;
            assert(cs[keep + i] == c as u32);
        }
    }
    lemma_touches_more(l, y, a, members(rest), members(rest), e, members(cs), members(cs), e);
    lemma_touches_then(l, d.img, y, a, members(cs), members(cs), e);
    lemma_untouched(l, d.img, y, set![cur as int], e, e, 2);
    assert forall|i: int| 0 <= i < keep implies l.fat_read(a, (#[trigger] cs[i]) as int)
        == l.fat_read(y, cs[i] as int) && l.allocated(a, cs[i] as int) by {
        if members(rest).contains(cs[i] as int) {
            let j = choose|j: int| 0 <= j < rest.len() && rest[j] == cs[i];
            assert(cs[keep + j] == cs[i]);
        }
        assert(l.data_cluster(cs[i] as int));
        assert(l.has_bit_on(d.img, cs[i] as int));
        lemma_untouched(l, d.img, y, set![cur as int], e, e, cs[i] as int);
        assert(l.has_bit_on(y, cs[i] as int));
        lemma_untouched(l, y, a, members(rest), members(rest), e, cs[i] as int);
    }
    assert(l.all_in_use(a, head)) by {
        assert forall|i: int| 0 <= i < head.len() implies l.data_cluster((#[trigger] head[i]) as int)
            && l.allocated(a, head[i] as int) by {
            assert(head[i] == cs[i]);
            assert(l.data_cluster(cs[i] as int));
        }
    }
    assert(l.linked_in_order(a, head)) by {
        assert forall|i: int| 0 <= i < head.len() - 1 implies #[trigger] l.fat_read(
            a,
            head[i] as int,
        ) == Ok::<FatEntry, FsError<()>>(FatEntry::Next(head[i + 1])) by {
            assert(head[i] == cs[i] && head[i + 1] == cs[i + 1]);
            assert(l.fat_read(a, cs[i] as int) == l.fat_read(y, cs[i] as int));
            assert(l.fat_read(y, cs[i] as int) == l.fat_read(d.img, cs[i] as int));
            assert(l.fat_read(d.img, cs[i] as int) == Ok::<FatEntry, FsError<()>>(
                FatEntry::Next(cs[i + 1]),
            ));
        }
        assert(head.last() == cs[keep - 1]);
        assert(l.fat_read(a, cs[keep - 1] as int) == l.fat_read(y, cs[keep - 1] as int));
    }
}

/// Shortening a stream: the clusters that hold the bytes to keep stay, all
/// behind them are free again, and nothing of any other stream is touched. The
/// stream's last cluster must not be marked bad: a bad cluster is left alone.
pub proof fn law_stream_cut(
    l: ExfatLayout,
    d: Disk,
    map: ExfatClusterMap,
    cs: Seq<u32>,
    keep_len: int,
)
    requires
        l.volume_sound(d.img),
        l.holds_stream(d.img, cs, map.no_fat_chain),
        !map.no_fat_chain ==> l.fat_entry(d.img, cs.last() as int) != FatEntry::Bad,
        map.cluster_size == l.boot.cluster_bytes(),
        map.allocated_len == cs.len() * l.boot.cluster_bytes(),
        0 <= keep_len <= map.allocated_len,
        l.tail_freed(d, map, cs[0], keep_len).out is Ok,
    ensures
        ({
            let r = l.tail_freed(d, map, cs[0], keep_len);
            let keep = ceil_div(keep_len, l.boot.cluster_bytes());
            &&& 0 <= keep <= cs.len()
            &&& r.map.allocated_len == keep * l.boot.cluster_bytes()
            &&& r.out->Ok_0.first_cluster == (if keep == 0 {
                0
            } else {
                cs[0]
            })
            &&& keep > 0 ==> l.holds_stream(
                r.disk.img,
                cs.subrange(0, keep),
                r.map.no_fat_chain,
            )
            &&& none_in_use(l, r.disk.img, cs.subrange(keep, cs.len() as int))
            &&& l.touches_only(d.img, r.disk.img, members(cs), members(cs), set![])
        }),
{
    let e = Set::<int>::empty();
    lemma_unit_sizes(l.boot);
    lemma_stream_fits(l, d.img, cs);
    let (n, cb) = (cs.len() as int, l.boot.cluster_bytes());
    let keep = ceil_div(keep_len, cb);
    assert(0 <= keep <= n && (keep == 0 ==> keep_len == 0)) by (nonlinear_arith)
        requires
            keep == (keep_len + cb - 1) / cb,
            0 <= keep_len <= n * cb,
            cb > 0,
    ;
    assert(0 <= keep * cb <= 0xFFFF_FFFF * 0x200_0000) by (nonlinear_arith)
        requires
            0 <= keep <= 0xFFFF_FFFF,
            0 <= cb <= 0x200_0000,
    ;
    lemma_whole_clusters(n, cb);
    assert(l.in_heap(cs[0] as int));
    let r = l.tail_freed(d, map, cs[0], keep_len);
    assert(cs.subrange(0, n) =~= cs);
    if keep == n {
        lemma_touches_nothing(l, d.img, members(cs), members(cs), e);
        assert(cs.subrange(n, n) =~= seq![]);
    } else if map.no_fat_chain {
        lemma_run_cut(l, d, cs, keep);
    } else if keep == 0 {
        lemma_chain_given_up(l, d, cs);
    } else {
        lemma_chain_cut(l, d, cs, keep, n - keep);
    }
}

} // verus!
