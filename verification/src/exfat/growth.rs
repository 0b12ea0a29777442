//! What growing a directory or allocating an extent does to the volume: only
//! clusters that were free are taken, and the FAT links them in order.

use vstd::prelude::*;

use super::chains::{lemma_walk_suffix, members};
use super::direntry::FatEntry;
use super::effects::{
    lemma_bit_effect, lemma_bit_reads, lemma_cell_effect, lemma_cell_reads, lemma_filled_effect,
    lemma_touches_more, lemma_touches_nothing, lemma_touches_then, lemma_untouched,
};
use super::layout::{Disk, ExfatLayout};
use super::regions::law_search_finds_free;
use crate::codec::exfat::consts::FAT_EOC;
use crate::error::FsError;

verus! {

impl ExfatLayout {
    /// The device holds the whole bitmap, and the bitmap says that its own
    /// clusters are in use.
    pub open spec fn bitmap_guarded(self, img: Seq<u8>) -> bool {
        &&& forall|c: int| self.in_heap(c) ==> #[trigger] self.has_bit_on(img, c)
        &&& forall|c: int|
            self.in_heap(c) && self.holds_bitmap(c) ==> #[trigger] self.allocated(img, c)
    }

    /// The FAT links each cluster of the list to the next, and ends behind
    /// the last.
    pub open spec fn linked_in_order(self, img: Seq<u8>, cs: Seq<u32>) -> bool {
        &&& forall|i: int|
            0 <= i < cs.len() - 1 ==> #[trigger] self.fat_read(img, cs[i] as int) == Ok::<
                FatEntry,
                FsError<()>,
            >(FatEntry::Next(cs[i + 1]))
        &&& cs.len() > 0 ==> (self.fat_read(img, cs.last() as int) matches Ok(f) && !(f is Next))
    }
}

/// A list of different clusters of the heap is no longer than the heap.
pub proof fn lemma_distinct_fit(l: ExfatLayout, cs: Seq<u32>)
    requires
        cs.no_duplicates(),
        forall|i: int| 0 <= i < cs.len() ==> l.in_heap((#[trigger] cs[i]) as int),
    ensures
        cs.len() <= l.boot.cluster_count,
{
    let wide = cs.map_values(|c: u32| c as int);
    assert(wide.no_duplicates()) by {
        assert forall|i: int, j: int| 0 <= i < wide.len() && 0 <= j < wide.len() && i != j implies wide[i]
            != wide[j] by {
            assert(cs[i] != cs[j]);
        }
    }
    wide.unique_seq_to_set();
    let (lo, hi) = (2int, l.boot.cluster_count + 2);
    vstd::set_lib::lemma_int_range(lo, hi);
    let heap = vstd::set_lib::set_int_range(lo, hi);
    assert(wide.to_set().subset_of(heap)) by {
        assert forall|c: int| wide.to_set().contains(c) implies heap.contains(c) by {
            let i = choose|i: int| 0 <= i < wide.len() && wide[i] == c;
            assert(l.in_heap(cs[i] as int));
        }
    }
    vstd::set_lib::lemma_len_subset(wide.to_set(), heap);
}

/// Clusters that are linked in order are walked in order.
pub proof fn lemma_links_walk(l: ExfatLayout, img: Seq<u8>, cs: Seq<u32>, max: int, walked: int)
    requires
        cs.len() > 0,
        l.linked_in_order(img, cs),
        0 <= walked,
        walked + cs.len() <= l.boot.cluster_count,
    ensures
        l.dir_walk(img, Some(cs[0]), false, max, walked) == Ok::<Seq<u32>, FsError<()>>(cs),
    decreases cs.len(),
{
    let rest = cs.subrange(1, cs.len() as int);
    if cs.len() == 1 {
        assert(cs.last() == cs[0]);
        let next = l.successor(img, cs[0] as int, false);
        assert(next == Ok::<Option<u32>, FsError<()>>(None));
        assert(l.dir_walk(img, None, false, max, walked + 1) == Ok::<Seq<u32>, FsError<()>>(
            seq![],
        ));
        assert(seq![cs[0]] + Seq::<u32>::empty() =~= cs);
    } else {
        assert(rest[0] == cs[1]);
        assert forall|i: int| 0 <= i < rest.len() - 1 implies #[trigger] l.fat_read(
            img,
            rest[i] as int,
        ) == Ok::<FatEntry, FsError<()>>(FatEntry::Next(rest[i + 1])) by {
            assert(rest[i] == cs[i + 1]);
            assert(rest[i + 1] == cs[i + 2]);
        }
        assert(rest.last() == cs.last());
        lemma_links_walk(l, img, rest, max, walked + 1);
        assert(seq![cs[0]] + rest =~= cs);
    }
}

/// The clusters of a chain walk are linked in order.
pub proof fn lemma_walk_links(l: ExfatLayout, img: Seq<u8>, cur: u32, max: int, walked: int)
    requires
        l.dir_walk(img, Some(cur), false, max, walked) is Ok,
    ensures
        l.dir_walk(img, Some(cur), false, max, walked) matches Ok(cs) && cs.len() > 0 && cs[0] == cur
            && l.linked_in_order(img, cs),
{
    let cs = l.dir_walk(img, Some(cur), false, max, walked)->Ok_0;
    let n = cs.len() as int;
    assert forall|i: int| 0 <= i < n - 1 implies #[trigger] l.fat_read(img, cs[i] as int) == Ok::<
        FatEntry,
        FsError<()>,
    >(FatEntry::Next(cs[i + 1])) by {
        lemma_walk_suffix(l, img, Some(cur), false, max, walked, i);
        let next = l.successor(img, cs[i] as int, false)->Ok_0;
        let rest = l.dir_walk(img, next, false, max, walked + i + 1)->Ok_0;
        assert(cs.subrange(i, n) == seq![cs[i]] + rest);
        assert(cs.subrange(i, n)[1] == cs[i + 1]);
        assert(rest[0] == cs[i + 1]);
    }
    lemma_walk_suffix(l, img, Some(cur), false, max, walked, n - 1);
    let next = l.successor(img, cs[n - 1] as int, false)->Ok_0;
    let rest = l.dir_walk(img, next, false, max, walked + n)->Ok_0;
    assert(cs.subrange(n - 1, n) == seq![cs[n - 1]] + rest);
    assert(cs.subrange(n - 1, n).len() == 1);
    if let Some(x) = next {
        assert(rest.len() >= 1);
    }
}

/// Linking clusters touches their FAT cells only, and links them in order;
/// the last keeps its cell.
pub proof fn lemma_linked_effect(l: ExfatLayout, d: Disk, cs: Seq<u32>, i: int)
    requires
        l.wf(),
        l.regions_apart(),
        0 <= i,
        cs.no_duplicates(),
        forall|j: int| 0 <= j < cs.len() ==> l.in_heap((#[trigger] cs[j]) as int),
        l.chain_linked(d, cs, i).out is Ok,
    ensures
        ({
            let a = l.chain_linked(d, cs, i).disk.img;
            &&& l.touches_only(d.img, a, members(cs), set![], set![])
            &&& forall|j: int|
                i <= j < cs.len() - 1 ==> #[trigger] l.fat_read(a, cs[j] as int) == Ok::<
                    FatEntry,
                    FsError<()>,
                >(FatEntry::Next(cs[j + 1]))
            &&& forall|j: int|
                0 <= j < i && j < cs.len() ==> l.fat_read(a, (#[trigger] cs[j]) as int)
                    == l.fat_read(d.img, cs[j] as int)
            &&& cs.len() > 0 ==> l.fat_read(a, cs.last() as int) == l.fat_read(
                d.img,
                cs.last() as int,
            )
        }),
    decreases cs.len() - i,
{
    let e = Set::<int>::empty();
    if i + 1 < cs.len() {
        let w = l.fat_written(d, cs[i] as int, cs[i + 1]);
        let b = w.disk.img;
        assert(l.in_heap(cs[i] as int));
        assert(l.in_heap(cs[i + 1] as int));
        lemma_cell_reads(l, d, cs[i] as int, cs[i + 1]);
        lemma_cell_effect(l, d, cs[i] as int, cs[i + 1]);
        assert(members(cs).contains(cs[i] as int));
        lemma_touches_more(l, d.img, b, set![cs[i] as int], e, e, members(cs), e, e);
        lemma_linked_effect(l, w.disk, cs, i + 1);
        let a = l.chain_linked(w.disk, cs, i + 1).disk.img;
        lemma_touches_then(l, d.img, b, a, members(cs), e, e);
        assert(l.fat_read(a, cs[i] as int) == l.fat_read(b, cs[i] as int));
        assert forall|j: int| 0 <= j < cs.len() && j != i implies l.fat_read(
            b,
            (#[trigger] cs[j]) as int,
        ) == l.fat_read(d.img, cs[j] as int) by {
            assert(cs[j] != cs[i]);
            assert(l.in_heap(cs[j] as int));
            lemma_untouched(l, d.img, b, set![cs[i] as int], e, e, cs[j] as int);
        }
        assert(cs.last() == cs[cs.len() - 1]);
    } else {
        lemma_touches_nothing(l, d.img, members(cs), e, e);
    }
}

/// Taking a free cluster into a chain touches its cell, bit and bytes and the
/// cell of the tail it is linked behind.
pub proof fn lemma_taken_effect(l: ExfatLayout, d: Disk, tail: u32, c: u32)
    requires
        l.wf(),
        l.regions_apart(),
        l.in_heap(tail as int),
        l.data_cluster(c as int),
        tail != c,
        l.cluster_taken(d, tail, c).out is Ok,
    ensures
        ({
            let a = l.cluster_taken(d, tail, c).disk.img;
            &&& l.touches_only(
                d.img,
                a,
                set![tail as int, c as int],
                set![c as int],
                set![c as int],
            )
            &&& l.fat_read(a, tail as int) == Ok::<FatEntry, FsError<()>>(FatEntry::Next(c))
            &&& l.fat_read(a, c as int) == Ok::<FatEntry, FsError<()>>(FatEntry::Eoc)
            &&& l.allocated(a, c as int)
            &&& l.cluster_on(a, c as int)
            &&& l.cluster_data(a, c as int) == Seq::new(
                l.boot.cluster_bytes() as nat,
                |i: int| 0u8,
            )
        }),
{
    let zeros = Seq::new(l.boot.cluster_bytes() as nat, |i: int| 0u8);
    let e = Set::<int>::empty();
    let (one, two) = (set![c as int], set![tail as int, c as int]);
    let (ti, ci) = (tail as int, c as int);
    let m = l.marked(d, ci, true);
    let w = l.fat_written(m.disk, ti, c);
    let z = l.fat_written(w.disk, ci, FAT_EOC);
    let f = l.cluster_filled(z.disk, ci, zeros);
    lemma_bit_reads(l, d, ci, true);
    lemma_bit_effect(l, d, ci, true);
    lemma_touches_more(l, d.img, m.disk.img, e, one, e, two, one, one);
    lemma_cell_reads(l, m.disk, ti, c);
    lemma_cell_effect(l, m.disk, ti, c);
    lemma_touches_more(l, m.disk.img, w.disk.img, set![ti], e, e, two, one, one);
    lemma_touches_then(l, d.img, m.disk.img, w.disk.img, two, one, one);
    lemma_cell_reads(l, w.disk, ci, FAT_EOC);
    lemma_cell_effect(l, w.disk, ci, FAT_EOC);
    lemma_touches_more(l, w.disk.img, z.disk.img, set![ci], e, e, two, one, one);
    lemma_touches_then(l, d.img, w.disk.img, z.disk.img, two, one, one);
    lemma_filled_effect(l, z.disk, ci, zeros);
    lemma_touches_more(l, z.disk.img, f.disk.img, e, e, one, two, one, one);
    lemma_touches_then(l, d.img, z.disk.img, f.disk.img, two, one, one);
    let a = f.disk.img;
    lemma_untouched(l, z.disk.img, a, e, e, one, ti);
    lemma_untouched(l, z.disk.img, a, e, e, one, ci);
    lemma_untouched(l, w.disk.img, z.disk.img, set![ci], e, e, ti);
    lemma_untouched(l, w.disk.img, z.disk.img, set![ci], e, e, ci);
    lemma_untouched(l, m.disk.img, w.disk.img, set![ti], e, e, ci);
    assert(l.fat_read(a, ti) == Ok::<FatEntry, FsError<()>>(FatEntry::Next(c)));
    assert(l.fat_read(a, ci) == Ok::<FatEntry, FsError<()>>(FatEntry::Eoc));
    assert(l.has_bit_on(m.disk.img, ci));
    assert(l.has_bit_on(w.disk.img, ci));
    assert(l.has_bit_on(z.disk.img, ci));
    assert(l.allocated(a, ci));
    assert(l.cluster_data(a, ci) =~= zeros);
}

impl ExfatLayout {
    /// The clusters of the list hold data and are free.
    pub open spec fn all_free(self, img: Seq<u8>, cs: Seq<u32>) -> bool {
        forall|i: int|
            0 <= i < cs.len() ==> self.data_cluster((#[trigger] cs[i]) as int) && !self.allocated(
                img,
                cs[i] as int,
            )
    }

    /// The clusters of the list hold data and are in use.
    pub open spec fn all_in_use(self, img: Seq<u8>, cs: Seq<u32>) -> bool {
        forall|i: int|
            0 <= i < cs.len() ==> self.data_cluster((#[trigger] cs[i]) as int) && self.allocated(
                img,
                cs[i] as int,
            )
    }

    /// The clusters of the list lie within the device and are zeroed.
    pub open spec fn all_zeroed(self, img: Seq<u8>, cs: Seq<u32>) -> bool {
        forall|i: int|
            0 <= i < cs.len() ==> self.cluster_on(img, (#[trigger] cs[i]) as int)
                && self.cluster_data(img, cs[i] as int) == Seq::new(
                self.boot.cluster_bytes() as nat,
                |i: int| 0u8,
            )
    }
}

/// Growing a directory takes different free clusters, zeroes them and links
/// them behind the tail in order; nothing else is touched.
pub proof fn lemma_grown_effect(l: ExfatLayout, d: Disk, tail: u32, n: int)
    requires
        l.wf(),
        l.regions_apart(),
        l.in_heap(tail as int),
        l.allocated(d.img, tail as int),
        l.bitmap_guarded(d.img),
        0 <= n,
        l.dir_grown(d, tail, n).out is Ok,
    ensures
        ({
            let a = l.dir_grown(d, tail, n).disk.img;
            let more = l.dir_grown(d, tail, n).out->Ok_0;
            &&& more.len() == n
            &&& more.no_duplicates()
            &&& l.touches_only(
                d.img,
                a,
                members(more).insert(tail as int),
                members(more),
                members(more),
            )
            &&& l.all_free(d.img, more)
            &&& l.all_in_use(a, more)
            &&& l.all_zeroed(a, more)
            &&& l.bitmap_guarded(a)
            &&& n > 0 ==> l.linked_in_order(a, seq![tail] + more)
        }),
    decreases n,
{
    let e = Set::<int>::empty();
    if n == 0 {
        lemma_touches_nothing(l, d.img, members(seq![]).insert(tail as int), members(seq![]), members(seq![]));
    } else {
        let c = l.free_search(d.img)->Ok_0->0;
        law_search_finds_free(l, d.img, 1);
        assert(l.in_heap(c as int) && !l.allocated(d.img, c as int));
        assert(l.data_cluster(c as int));
        let w = l.cluster_taken(d, tail, c);
        let b = w.disk.img;
        lemma_taken_effect(l, d, tail, c);
        let (ti, ci) = (tail as int, c as int);
        let (one, two) = (set![ci], set![ti, ci]);
        lemma_untouched(l, d.img, b, two, one, one, ti);
        assert forall|k: int| l.in_heap(k) implies #[trigger] l.has_bit_on(b, k) by {
            assert(l.has_bit_on(d.img, k));
        }
        assert forall|k: int| l.in_heap(k) && k != ci implies #[trigger] l.allocated(b, k)
            == l.allocated(d.img, k) by {
            assert(l.has_bit_on(d.img, k));
            lemma_untouched(l, d.img, b, two, one, one, k);
        }
        lemma_grown_effect(l, w.disk, c, n - 1);
        let a = l.dir_grown(w.disk, c, n - 1).disk.img;
        let rest = l.dir_grown(w.disk, c, n - 1).out->Ok_0;
        let more = seq![c] + rest;
        lemma_fresh_joined(l, d.img, b, a, tail, c, rest);
        assert(more == l.dir_grown(d, tail, n).out->Ok_0);
    }
}

/// One step of growing: the cluster taken first, then the rest.
proof fn lemma_fresh_joined(
    l: ExfatLayout,
    x: Seq<u8>,
    b: Seq<u8>,
    a: Seq<u8>,
    tail: u32,
    c: u32,
    rest: Seq<u32>,
)
    requires
        l.in_heap(tail as int),
        l.data_cluster(c as int),
        tail != c,
        l.allocated(x, tail as int),
        !l.allocated(x, c as int),
        l.bitmap_guarded(x),
        l.touches_only(x, b, set![tail as int, c as int], set![c as int], set![c as int]),
        l.fat_read(b, tail as int) == Ok::<FatEntry, FsError<()>>(FatEntry::Next(c)),
        l.fat_read(b, c as int) == Ok::<FatEntry, FsError<()>>(FatEntry::Eoc),
        l.allocated(b, c as int),
        l.all_zeroed(b, seq![c]),
        forall|k: int|
            l.in_heap(k) && k != c ==> #[trigger] l.allocated(b, k) == l.allocated(x, k),
        l.bitmap_guarded(b),
        rest.no_duplicates(),
        l.touches_only(b, a, members(rest).insert(c as int), members(rest), members(rest)),
        l.all_free(b, rest),
        l.all_in_use(a, rest),
        l.all_zeroed(a, rest),
        rest.len() > 0 ==> l.linked_in_order(a, seq![c] + rest),
        rest.len() == 0 ==> l.fat_read(a, c as int) == l.fat_read(b, c as int),
    ensures
        ({
            let more = seq![c] + rest;
            &&& more.no_duplicates()
            &&& l.touches_only(x, a, members(more).insert(tail as int), members(more), members(more))
            &&& l.all_free(x, more)
            &&& l.all_in_use(a, more)
            &&& l.all_zeroed(a, more)
            &&& l.linked_in_order(a, seq![tail] + more)
        }),
{
    let more = seq![c] + rest;
    let (ti, ci) = (tail as int, c as int);
    assert(more[0] == c);
    assert forall|i: int| 0 <= i < rest.len() implies #[trigger] more[i + 1] == rest[i] by {}
    assert forall|i: int| 0 <= i < rest.len() implies (#[trigger] rest[i]) != c && rest[i] != tail by {
        assert(!l.allocated(b, rest[i] as int));
    }
    assert(!members(rest).contains(ci) && !members(rest).contains(ti));
    assert(members(more) =~= members(rest).insert(ci)) by {
        assert forall|k: int| members(more).contains(k) <==> members(rest).insert(ci).contains(k) by {
            if members(more).contains(k) {
                let i = choose|i: int| 0 <= i < more.len() && more[i] == k as u32;
                if i > 0 {
                    assert(rest[i - 1] == k as u32);
                }
            }
            if members(rest).contains(k) {
                let i = choose|i: int| 0 <= i < rest.len() && rest[i] == k as u32;
                assert(more[i + 1] == k as u32);
            }
            if k == ci {
                assert(more.contains(c));
            }
        }
    }
    let cells = members(more).insert(ti);
    let m = members(more);
    lemma_touches_more(l, x, b, set![ti, ci], set![ci], set![ci], cells, m, m);
    lemma_touches_more(
        l,
        b,
        a,
        members(rest).insert(ci),
        members(rest),
        members(rest),
        cells,
        m,
        m,
    );
    lemma_touches_then(l, x, b, a, cells, m, m);
    lemma_untouched(l, b, a, members(rest).insert(ci), members(rest), members(rest), ci);
    lemma_untouched(l, b, a, members(rest).insert(ci), members(rest), members(rest), ti);
    assert forall|i: int, j: int| 0 <= i < more.len() && 0 <= j < more.len() && i != j implies more[i]
        != more[j] by {
        if i > 0 && j > 0 {
            assert(more[i] == rest[i - 1] && more[j] == rest[j - 1]);
        } else if i > 0 {
            assert(more[i] == rest[i - 1]);
        } else {
            assert(more[j] == rest[j - 1]);
        }
    }
    assert(l.has_bit_on(b, ci));
    assert(seq![c][0] == c);
    assert(l.cluster_on(b, ci));
    assert forall|i: int| 0 <= i < more.len() implies l.data_cluster((#[trigger] more[i]) as int)
        && !l.allocated(x, more[i] as int) && l.allocated(a, more[i] as int) && l.cluster_on(
        a,
        more[i] as int,
    ) && l.cluster_data(a, more[i] as int) == Seq::new(
        l.boot.cluster_bytes() as nat,
        |i: int| 0u8,
    ) by {
        if i > 0 {
            assert(more[i] == rest[i - 1]);
            assert(l.allocated(b, rest[i - 1] as int) == l.allocated(x, rest[i - 1] as int));
        }
    }
    let all = seq![tail] + more;
    assert(all[0] == tail && all[1] == c);
    assert forall|i: int| 0 <= i < all.len() - 1 implies #[trigger] l.fat_read(a, all[i] as int)
        == Ok::<FatEntry, FsError<()>>(FatEntry::Next(all[i + 1])) by {
        if i > 0 {
            assert(all[i] == more[i - 1] && all[i + 1] == more[i]);
            assert(l.fat_read(a, more[i - 1] as int) == Ok::<FatEntry, FsError<()>>(
                FatEntry::Next(more[i]),
            ));
        }
    }
    assert(all.last() == more.last());
}

} // verus!
