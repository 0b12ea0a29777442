//! What allocation hands out: clusters that were free, in use afterwards,
//! reachable from the first, and nothing else touched.

use vstd::prelude::*;

use super::chains::members;
use super::dir_laws::lemma_guard_kept;
use super::effects::{
    lemma_bit_effect, lemma_bit_reads, lemma_cell_effect, lemma_cell_reads, lemma_filled_effect,
    lemma_range_effect, lemma_touches_more, lemma_touches_nothing, lemma_touches_then,
    lemma_untouched,
};
use super::growth::{lemma_distinct_fit, lemma_linked_effect, lemma_links_walk};
use super::layout::{Disk, ExfatLayout};
use super::regions::{law_range_marked, law_search_finds_free};
use crate::codec::exfat::consts::FAT_EOC;
use crate::error::FsError;
use crate::vfs::NewEntry;

verus! {

/// The clusters `from..to`, in order.
pub open spec fn run_of(from: int, to: int) -> Seq<u32> {
    Seq::new((to - from) as nat, |i: int| (from + i) as u32)
}

impl ExfatLayout {
    /// Between `a` and `b` the clusters of the list, free before, came into
    /// use; nothing but their cells, bits and bytes was touched.
    pub open spec fn took(self, a: Seq<u8>, b: Seq<u8>, cs: Seq<u32>) -> bool {
        &&& self.all_free(a, cs)
        &&& self.all_in_use(b, cs)
        &&& self.touches_only(a, b, members(cs), members(cs), members(cs))
        &&& self.bitmap_guarded(b)
    }
}

/// Taking clusters one by one hands out different free clusters and sets
/// their bits only.
pub proof fn lemma_scattered_effect(l: ExfatLayout, d: Disk, n: int)
    requires
        l.volume_sound(d.img),
        0 <= n,
        l.scattered(d, n).out is Ok,
    ensures
        ({
            let a = l.scattered(d, n).disk.img;
            let cs = l.scattered(d, n).out->Ok_0;
            &&& cs.len() == n
            &&& cs.no_duplicates()
            &&& l.touches_only(d.img, a, set![], members(cs), set![])
            &&& l.all_free(d.img, cs)
            &&& l.all_in_use(a, cs)
            &&& l.bitmap_guarded(a)
        }),
    decreases n,
{
    let e = Set::<int>::empty();
    if n == 0 {
        lemma_touches_nothing(l, d.img, e, members(seq![]), e);
    } else {
        let c = l.free_search(d.img)->Ok_0->0;
        law_search_finds_free(l, d.img, 1);
        let ci = c as int;
        assert(l.data_cluster(ci));
        let m = l.marked(d, ci, true);
        let b = m.disk.img;
        lemma_bit_effect(l, d, ci, true);
        lemma_bit_reads(l, d, ci, true);
        lemma_guard_kept(l, d.img, b, e, set![ci], e);
        lemma_scattered_effect(l, m.disk, n - 1);
        let rest = l.scattered(m.disk, n - 1).out->Ok_0;
        let a = l.scattered(m.disk, n - 1).disk.img;
        let cs = seq![c] + rest;
        assert(cs[0] == c);
        assert forall|i: int| 0 <= i < rest.len() implies #[trigger] cs[i + 1] == rest[i] by {}
        assert forall|i: int| 0 <= i < rest.len() implies (#[trigger] rest[i]) != c && !l.allocated(
            d.img,
            rest[i] as int,
        ) by {
            assert(!l.allocated(b, rest[i] as int));
            assert(l.data_cluster(rest[i] as int));
            assert(l.has_bit_on(d.img, rest[i] as int));
            lemma_untouched(l, d.img, b, e, set![ci], e, rest[i] as int);
        }
        super::dir_laws::lemma_members_joined(seq![c], rest);
        assert(members(seq![c]) =~= set![ci]) by {
            assert(seq![c][0] == c);
            assert(seq![c].contains(c));
        }
        lemma_touches_more(l, d.img, b, e, set![ci], e, e, members(cs), e);
        lemma_touches_more(l, b, a, e, members(rest), e, e, members(cs), e);
        lemma_touches_then(l, d.img, b, a, e, members(cs), e);
        assert(!members(rest).contains(ci));
        assert(l.has_bit_on(b, ci));
        lemma_untouched(l, b, a, e, members(rest), e, ci);
        assert forall|i: int, j: int| 0 <= i < cs.len() && 0 <= j < cs.len() && i != j implies cs[i]
            != cs[j] by {
            if i > 0 && j > 0 {
                assert(cs[i] == rest[i - 1] && cs[j] == rest[j - 1]);
            } else if i > 0 {
                assert(cs[i] == rest[i - 1]);
            } else {
                assert(cs[j] == rest[j - 1]);
            }
        }
        assert forall|i: int| 0 <= i < cs.len() implies l.data_cluster((#[trigger] cs[i]) as int)
            && !l.allocated(d.img, cs[i] as int) && l.allocated(a, cs[i] as int) by {
            if i > 0 {
                assert(cs[i] == rest[i - 1]);
                assert(l.data_cluster(rest[i - 1] as int));
            }
        }
    }
}

/// Allocating a run or a chain of `count` clusters hands out exactly that
/// many: free before, in use afterwards, consecutive or linked in order.
/// Nothing else is touched.
pub proof fn law_extent_allocated(l: ExfatLayout, d: Disk, count: int) -> (cs: Seq<u32>)
    requires
        l.volume_sound(d.img),
        1 <= count,
        l.extent_allocated(d, count).out is Ok,
    ensures
        ({
            let a = l.extent_allocated(d, count).disk.img;
            let (first, contiguous) = l.extent_allocated(d, count).out->Ok_0;
            &&& cs.len() == count
            &&& cs[0] == first
            &&& l.took(d.img, a, cs)
            &&& contiguous ==> cs == run_of(first as int, first + count)
            &&& !contiguous ==> l.dir_clusters(a, first, false, 0) == Ok::<Seq<u32>, FsError<()>>(cs)
        }),
{
    let e = Set::<int>::empty();
    law_search_finds_free(l, d.img, count);
    match l.run_search(d.img, count)->Ok_0 {
        Some(s) => {
            let (from, to) = (s as int, s + count);
            let cs = run_of(from, to);
            let a = l.range_marked(d, from, to, true).disk.img;
            law_range_marked(l, d, from, to, true);
            lemma_range_effect(l, d, from, to, true);
            let bits = Set::new(|k: int| from <= k < to);
            assert(members(cs) =~= bits) by {
                assert forall|k: int| members(cs).contains(k) <==> bits.contains(k) by {
                    if members(cs).contains(k) {
                        let i = choose|i: int| 0 <= i < cs.len() && cs[i] == k as u32;
                        assert(l.in_heap(from + i));
                    }
                    if bits.contains(k) {
                        assert(cs[k - from] == k as u32);
                    }
                }
            }
            lemma_touches_more(l, d.img, a, e, bits, e, members(cs), members(cs), members(cs));
            lemma_guard_kept(l, d.img, a, e, bits, e);
            assert forall|i: int| 0 <= i < cs.len() implies l.data_cluster((#[trigger] cs[i]) as int)
                && !l.allocated(d.img, cs[i] as int) && l.allocated(a, cs[i] as int) by {
                assert(cs[i] == from + i);
                assert(!l.allocated(d.img, from + i));
                assert(l.in_heap(from + i));
            }
            cs
        },
        None => {
            lemma_scattered_effect(l, d, count);
            let t = l.scattered(d, count);
            let cs = t.out->Ok_0;
            lemma_chain_closed(l, d.img, t.disk, cs);
            cs
        },
    }
}

/// Clusters taken one by one, linked and ended, form a chain.
proof fn lemma_chain_closed(l: ExfatLayout, x: Seq<u8>, d: Disk, cs: Seq<u32>)
    requires
        l.volume_sound(x),
        cs.len() > 0,
        cs.no_duplicates(),
        l.touches_only(x, d.img, set![], members(cs), set![]),
        l.all_free(x, cs),
        l.all_in_use(d.img, cs),
        l.bitmap_guarded(d.img),
        l.chain_linked(d, cs, 0).out is Ok,
        l.fat_written(l.chain_linked(d, cs, 0).disk, cs.last() as int, FAT_EOC).out is Ok,
    ensures
        ({
            let a = l.fat_written(
                l.chain_linked(d, cs, 0).disk,
                cs.last() as int,
                FAT_EOC,
            ).disk.img;
            &&& l.took(x, a, cs)
            &&& l.dir_clusters(a, cs[0], false, 0) == Ok::<Seq<u32>, FsError<()>>(cs)
        }),
{
    let e = Set::<int>::empty();
    let m = members(cs);
    let w = l.chain_linked(d, cs, 0);
    let tail = cs.last() as int;
    let z = l.fat_written(w.disk, tail, FAT_EOC);
    let (y, v, a) = (d.img, w.disk.img, z.disk.img);
    assert forall|j: int| 0 <= j < cs.len() implies l.in_heap((#[trigger] cs[j]) as int) by {
        assert(l.data_cluster(cs[j] as int));
    }
    assert(cs.last() == cs[cs.len() - 1]);
    lemma_linked_effect(l, d, cs, 0);
    lemma_cell_effect(l, w.disk, tail, FAT_EOC);
    lemma_cell_reads(l, w.disk, tail, FAT_EOC);
    assert(m.contains(tail));
    lemma_touches_more(l, x, y, e, m, e, m, m, m);
    lemma_touches_more(l, y, v, m, e, e, m, m, m);
    lemma_touches_more(l, v, a, set![tail], e, e, m, m, m);
    lemma_touches_then(l, x, y, v, m, m, m);
    lemma_touches_then(l, x, v, a, m, m, m);
    lemma_guard_kept(l, y, v, m, e, e);
    lemma_guard_kept(l, v, a, set![tail], e, e);
    assert forall|i: int| 0 <= i < cs.len() implies l.data_cluster((#[trigger] cs[i]) as int)
        && l.allocated(a, cs[i] as int) by {
        let c = cs[i] as int;
        assert(l.data_cluster(c));
        assert(l.has_bit_on(y, c));
        assert(l.has_bit_on(v, c));
        lemma_untouched(l, y, v, m, e, e, c);
        lemma_untouched(l, v, a, set![tail], e, e, c);
    }
    assert forall|i: int| 0 <= i < cs.len() - 1 implies l.fat_read(a, (#[trigger] cs[i]) as int)
        == l.fat_read(v, cs[i] as int) by {
        assert(cs[i] != cs[cs.len() - 1]);
        assert(l.in_heap(cs[i] as int));
        lemma_untouched(l, v, a, set![tail], e, e, cs[i] as int);
    }
    lemma_distinct_fit(l, cs);
    lemma_links_walk(l, a, cs, 0, 0);
}

/// Preparing a directory cluster takes one free cluster.
pub proof fn lemma_dir_cluster_effect(l: ExfatLayout, d: Disk)
    requires
        l.volume_sound(d.img),
        l.dir_cluster_made(d).out is Ok,
    ensures
        ({
            let a = l.dir_cluster_made(d).disk.img;
            let c = l.dir_cluster_made(d).out->Ok_0;
            &&& l.took(d.img, a, seq![c])
            &&& l.all_zeroed(a, seq![c])
        }),
{
    let e = Set::<int>::empty();
    let c = l.free_search(d.img)->Ok_0->0;
    let ci = c as int;
    let one = set![ci];
    law_search_finds_free(l, d.img, 1);
    assert(l.data_cluster(ci));
    let zeros = Seq::new(l.boot.cluster_bytes() as nat, |i: int| 0u8);
    let z = l.cluster_filled(d, ci, zeros);
    let m = l.marked(z.disk, ci, true);
    let (y, a) = (z.disk.img, m.disk.img);
    lemma_filled_effect(l, d, ci, zeros);
    lemma_bit_effect(l, z.disk, ci, true);
    lemma_bit_reads(l, z.disk, ci, true);
    lemma_guard_kept(l, d.img, y, e, e, one);
    lemma_guard_kept(l, y, a, e, one, e);
    assert(seq![c][0] == c);
    assert(seq![c].contains(c));
    assert(members(seq![c]) =~= one);
    lemma_touches_more(l, d.img, y, e, e, one, one, one, one);
    lemma_touches_more(l, y, a, e, one, e, one, one, one);
    lemma_touches_then(l, d.img, y, a, one, one, one);
    lemma_untouched(l, d.img, y, e, e, one, ci);
    assert(l.cluster_on(y, ci));
    lemma_untouched(l, y, a, e, one, e, ci);
    assert(zeros + Seq::new((l.boot.cluster_bytes() - zeros.len()) as nat, |i: int| 0u8) =~= zeros);
}

/// The allocation made for a new entry takes free clusters only, and touches
/// nothing else.
pub proof fn law_new_allocation(l: ExfatLayout, d: Disk, entry: NewEntry) -> (cs: Seq<u32>)
    requires
        l.volume_sound(d.img),
        l.new_allocation(d, entry).out is Ok,
    ensures
        l.took(d.img, l.new_allocation(d, entry).disk.img, cs),
{
    let none = Seq::<u32>::empty();
    lemma_touches_nothing(l, d.img, members(none), members(none), members(none));
    if entry.is_dir {
        if entry.first_cluster >= 2 {
            none
        } else {
            lemma_dir_cluster_effect(l, d);
            seq![l.dir_cluster_made(d).out->Ok_0]
        }
    } else if entry.first_cluster >= 2 || entry.size == 0 {
        none
    } else {
        let cb = l.boot.cluster_bytes();
        super::layout::lemma_unit_sizes(l.boot);
        let n = crate::num::ceil_div(entry.size as int, cb);
        assert(n >= 1) by (nonlinear_arith)
            requires
                n == (entry.size + cb - 1) / cb,
                entry.size >= 1,
                cb > 0,
        ;
        law_extent_allocated(l, d, n)
    }
}

} // verus!
