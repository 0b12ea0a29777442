//! What extending and shortening a file does to its chain.

use vstd::prelude::*;

use super::alloc_laws::{law_allocated, law_chain_freed, lemma_cell_writable, link_cell};
use super::dir_slots::FatDir;
use super::effects::{
    lemma_cell_effect, lemma_touches_more, lemma_touches_then, lemma_untouched, members,
};
use super::insert_laws::{lemma_chain_joined, lemma_dir_in_use};
use super::layout::{lemma_cluster_size, FatDisk, FatLayout, FatWrite};
use crate::codec::fat::fat_entry::FatEntry;
use crate::error::FsError;
use crate::exfat::layout::clusters_for;
use crate::num::ceil_div;

verus! {

impl FatLayout {
    /// `cs` is the chain of a file that starts at `first`: different clusters,
    /// none of them free, linked in order.
    pub open spec fn file_chain(self, img: Seq<u8>, first: u32, cs: Seq<u32>) -> bool {
        self.dir_sound(img, FatDir::Clusters(first), cs)
    }
}

/// A list of different clusters is no longer than the volume.
pub proof fn lemma_distinct_fit(l: FatLayout, cs: Seq<u32>)
    requires
        l.distinct_clusters(cs),
        l.props.max_cluster >= 2,
    ensures
        cs.len() <= l.props.max_cluster - 1,
{
    let wide = cs.map_values(|c: u32| c as int);
    assert(wide.no_duplicates()) by {
        assert forall|i: int, j: int| 0 <= i < wide.len() && 0 <= j < wide.len() && i != j implies wide[i]
            != wide[j] by {
            assert(cs[i] != cs[j]);
        }
    }
    wide.unique_seq_to_set();
    let (lo, hi) = (2int, l.props.max_cluster + 1);
    vstd::set_lib::lemma_int_range(lo, hi);
    let heap = vstd::set_lib::set_int_range(lo, hi);
    assert(wide.to_set().subset_of(heap)) by {
        assert forall|c: int| wide.to_set().contains(c) implies heap.contains(c) by {
            let i = choose|i: int| 0 <= i < wide.len() && wide[i] == c;
            assert(l.is_cluster(cs[i] as int));
        }
    }
    vstd::set_lib::lemma_len_subset(wide.to_set(), heap);
}

/// What a file's chain says.
pub proof fn lemma_file_chain(l: FatLayout, img: Seq<u8>, first: u32, cs: Seq<u32>)
    requires
        l.file_chain(img, first, cs),
    ensures
        cs.len() > 0,
        cs[0] == first,
        l.sound(),
        l.volume_end() <= img.len(),
        l.distinct_clusters(cs),
        l.chained(img, cs),
        cs.len() <= l.props.max_cluster - 1,
{
    reveal(FatLayout::dir_sound);
    lemma_cluster_size(l);
    lemma_distinct_fit(l, cs);
}

/// Walking a chain from its cluster number `i` on ends at its last cluster.
pub proof fn lemma_tail_found(l: FatLayout, img: Seq<u8>, cs: Seq<u32>, i: int)
    requires
        l.chained(img, cs),
        0 <= i < cs.len(),
        cs.len() <= l.props.max_cluster,
    ensures
        l.tail_of(img, cs[i], i) == Ok::<u32, FsError<()>>(cs.last()),
    decreases cs.len() - i,
{
    if i < cs.len() - 1 {
        assert(l.fat_read(img, cs[i] as int) == Ok::<FatEntry, FsError<()>>(
            FatEntry::Next(cs[i + 1]),
        ));
        lemma_tail_found(l, img, cs, i + 1);
    } else {
        assert(cs[i] == cs.last());
    }
}

/// Walking a chain `n` steps from its cluster number `i`.
proof fn lemma_steps_along(l: FatLayout, img: Seq<u8>, cs: Seq<u32>, i: int, n: int)
    requires
        l.chained(img, cs),
        0 <= i,
        0 <= n,
        i + n < cs.len(),
    ensures
        l.steps_along(img, cs[i], n) == Ok::<u32, FsError<()>>(cs[i + n]),
    decreases n,
{
    if n > 0 {
        assert(l.fat_read(img, cs[i] as int) == Ok::<FatEntry, FsError<()>>(
            FatEntry::Next(cs[i + 1]),
        ));
        lemma_steps_along(l, img, cs, i + 1, n - 1);
    }
}

/// Extending a file's chain: clusters that were free are linked behind it, as few
/// as will do for it to hold the bytes asked for; its first cluster and all the
/// clusters it had stay, and no cell but those is touched.
pub proof fn law_file_extended(
    l: FatLayout,
    d: FatDisk,
    allocated: u64,
    cs: Seq<u32>,
    tail: Option<u32>,
    needed: int,
) -> (new: Seq<u32>)
    requires
        cs.len() > 0,
        l.file_chain(d.img, cs[0], cs),
        allocated == cs.len() * l.props.cluster_size,
        tail == Some(cs.last()) || tail is None,
        0 <= needed,
        l.file_extended(d, allocated, Some(cs[0]), tail, needed).out is Ok,
    ensures
        ({
            let r = l.file_extended(d, allocated, Some(cs[0]), tail, needed);
            let all = cs + new;
            &&& l.file_chain(r.disk.img, cs[0], all)
            &&& r.allocated_len == all.len() * l.props.cluster_size
            &&& r.allocated_len >= needed
            &&& r.out->Ok_0.first_cluster == cs[0]
            &&& r.out->Ok_0.tail == all.last()
            &&& l.all_free(d.img, new)
            &&& new.len() == 0 <==> needed <= allocated
            &&& new.len() == 0 ==> r.disk == d
            &&& new.len() > 0 ==> (all.len() - 1) * l.props.cluster_size < needed
            &&& new.len() > 0 ==> l.touches_only(
                d.img,
                r.disk.img,
                members(new).union(link_cell(Some(cs.last()))),
                set![],
            )
        }),
{
    lemma_file_chain(l, d.img, cs[0], cs);
    lemma_cluster_size(l);
    lemma_tail_found(l, d.img, cs, 0);
    assert(l.is_cluster(cs[0] as int));
    assert(l.is_cluster(cs[cs.len() - 1] as int));
    assert(cs.last() == cs[cs.len() - 1]);
    let r = l.file_extended(d, allocated, Some(cs[0]), tail, needed);
    if needed <= allocated {
        assert(cs + Seq::<u32>::empty() =~= cs);
        seq![]
    } else {
        let size = l.props.cluster_size as int;
        let n = l.clusters_wanted(allocated as int, true, needed);
        let bytes = needed - allocated;
        assert(ceil_div(bytes, size) >= 1) by (nonlinear_arith)
            requires
                ceil_div(bytes, size) == (bytes + size - 1) / size,
                bytes >= 1,
                size >= 1,
        ;
        assert(n == clusters_for(bytes, size));
        lemma_dir_in_use(l, d.img, FatDir::Clusters(cs[0]), cs, cs.len() - 1);
        law_allocated(l, d, n, Some(cs.last()));
        let new = l.allocated(d, n, Some(cs.last())).out->Ok_0;
        lemma_distinct_fit(l, new);
        assert(n == ceil_div(bytes, size));
        assert(bytes <= n * size && (n - 1) * size < bytes) by (nonlinear_arith)
            requires
                n == (bytes + size - 1) / size,
                bytes >= 1,
                size >= 1,
        ;
        let k = cs.len() as int;
        assert((k + n - 1) * size == k * size + (n - 1) * size) by (nonlinear_arith);
        assert(k * size + n * size == (k + n) * size) by (nonlinear_arith);
        assert((k + n) * size <= 2 * 0xFFFF_FFFF * 0x10_0000) by (nonlinear_arith)
            requires
                0 <= k + n <= 2 * 0xFFFF_FFFF,
                0 <= size <= 0x10_0000,
        ;
        lemma_chain_joined(l, d.img, r.disk.img, cs[0], cs, new);
        assert((cs + new).last() == new.last());
        new
    }
}

/// Giving an empty file its first clusters: they were free, form a chain of
/// their own, and are as few as will hold the bytes asked for, but at least one.
pub proof fn law_file_started(
    l: FatLayout,
    d: FatDisk,
    allocated: u64,
    tail: Option<u32>,
    needed: int,
) -> (new: Seq<u32>)
    requires
        l.sound(),
        l.volume_end() <= d.img.len(),
        crate::exfat::cluster_map::real_cluster(tail) is None,
        0 <= needed,
        l.file_extended(d, allocated, None, tail, needed).out is Ok,
    ensures
        ({
            let r = l.file_extended(d, allocated, None, tail, needed);
            &&& new.len() > 0
            &&& l.file_chain(r.disk.img, new[0], new)
            &&& r.allocated_len == new.len() * l.props.cluster_size
            &&& r.allocated_len >= needed
            &&& r.out->Ok_0.first_cluster == new[0]
            &&& r.out->Ok_0.tail == new.last()
            &&& l.all_free(d.img, new)
            &&& new.len() == 1 || (new.len() - 1) * l.props.cluster_size < needed
            &&& l.touches_only(d.img, r.disk.img, members(new), set![])
        }),
{
    lemma_cluster_size(l);
    let size = l.props.cluster_size as int;
    let n = l.clusters_wanted(allocated as int, false, needed);
    let bytes = if needed < size {
        size
    } else {
        needed
    };
    assert(ceil_div(bytes, size) >= 1) by (nonlinear_arith)
        requires
            ceil_div(bytes, size) == (bytes + size - 1) / size,
            bytes >= 1,
            size >= 1,
    ;
    law_allocated(l, d, n, None);
    let r = l.file_extended(d, allocated, None, tail, needed);
    let new = l.allocated(d, n, None).out->Ok_0;
    lemma_distinct_fit(l, new);
    assert(n == ceil_div(bytes, size));
    assert(bytes <= n * size && (n - 1) * size < bytes && (bytes == size ==> n == 1))
        by (nonlinear_arith)
        requires
            n == (bytes + size - 1) / size,
            bytes >= 1,
            size >= 1,
    ;
    assert(n * size <= 0xFFFF_FFFF * 0x10_0000) by (nonlinear_arith)
        requires
            0 <= n <= 0xFFFF_FFFF,
            0 <= size <= 0x10_0000,
    ;
    lemma_untouched(l, d.img, r.disk.img, members(new).union(link_cell(None)), set![], 0);
    assert(members(new).union(link_cell(None)) =~= members(new));
    assert(l.file_chain(r.disk.img, new[0], new)) by {
        reveal(FatLayout::dir_sound);
    }
    new
}

/// Shortening a file's chain: the clusters that hold the bytes to keep stay
/// linked, all behind them are free, and no other cell is touched. An empty
/// file keeps one cluster.
pub proof fn law_file_cut(l: FatLayout, d: FatDisk, allocated: u64, cs: Seq<u32>, keep_len: int)
    requires
        cs.len() > 0,
        l.file_chain(d.img, cs[0], cs),
        0 <= keep_len <= cs.len() * l.props.cluster_size,
    ensures
        ({
            let r = l.file_cut(d, allocated, cs[0], keep_len);
            let keep = if keep_len == 0 {
                1
            } else {
                ceil_div(keep_len, l.props.cluster_size as int)
            };
            &&& 1 <= keep <= cs.len()
            &&& r.out is Ok
            &&& r.out->Ok_0.first_cluster == cs[0]
            &&& r.allocated_len == keep * l.props.cluster_size
            &&& r.allocated_len >= keep_len
            &&& l.file_chain(r.disk.img, cs[0], cs.subrange(0, keep))
            &&& l.all_free(r.disk.img, cs.subrange(keep, cs.len() as int))
            &&& l.touches_only(d.img, r.disk.img, members(cs), set![])
        }),
{
    lemma_file_chain(l, d.img, cs[0], cs);
    lemma_cluster_size(l);
    let size = l.props.cluster_size as int;
    let k = cs.len() as int;
    let keep = if keep_len == 0 {
        1
    } else {
        ceil_div(keep_len, size)
    };
    assert(keep_len > 0 ==> 1 <= ceil_div(keep_len, size) <= k && keep_len <= ceil_div(
        keep_len,
        size,
    ) * size) by (nonlinear_arith)
        requires
            ceil_div(keep_len, size) == (keep_len + size - 1) / size,
            keep_len <= k * size,
            size >= 1,
    ;
    assert(0 < keep * size <= 0xFFFF_FFFF * 0x10_0000) by (nonlinear_arith)
        requires
            0 < keep <= 0xFFFF_FFFF,
            0 < size <= 0x10_0000,
    ;
    assert(l.is_cluster(cs[0] as int));
    lemma_chain_cut(l, d, cs, keep);
}

/// Ending a chain after `keep` clusters.
proof fn lemma_chain_cut(l: FatLayout, d: FatDisk, cs: Seq<u32>, keep: int)
    requires
        cs.len() > 0,
        l.file_chain(d.img, cs[0], cs),
        1 <= keep <= cs.len(),
    ensures
        ({
            let r = l.chain_cut(d, cs[0], keep);
            &&& r.out is Ok
            &&& l.file_chain(r.disk.img, cs[0], cs.subrange(0, keep))
            &&& l.all_free(r.disk.img, cs.subrange(keep, cs.len() as int))
            &&& l.touches_only(d.img, r.disk.img, members(cs), set![])
        }),
{
    let e = Set::<int>::empty();
    lemma_file_chain(l, d.img, cs[0], cs);
    lemma_steps_along(l, d.img, cs, 0, keep - 1);
    let k = cs.len() as int;
    let cur = cs[keep - 1];
    assert(l.is_cluster(cur as int));
    lemma_cell_writable(l, d, cur, FatWrite::End);
    lemma_cell_effect(l, d, cur, FatWrite::End);
    let w = l.fat_written(d, cur, FatWrite::End);
    let y = w.disk.img;
    assert(members(cs).contains(cur as int));
    lemma_touches_more(l, d.img, y, set![cur as int], e, members(cs), e);
    lemma_untouched(l, d.img, y, set![cur as int], e, 0);
    let head = cs.subrange(0, keep);
    let rest = cs.subrange(keep, k);
    assert forall|i: int| 0 <= i < k && i != keep - 1 implies l.fat_read(
        y,
        (#[trigger] cs[i]) as int,
    ) == l.fat_read(d.img, cs[i] as int) by {
        assert(cs[i] != cs[keep - 1]);
        lemma_untouched(l, d.img, y, set![cur as int], e, cs[i] as int);
    }
    assert(head.last() == cur && head[0] == cs[0]);
    assert(l.distinct_clusters(head)) by {
        assert forall|i: int| 0 <= i < head.len() implies l.is_cluster((#[trigger] head[i]) as int) by {
            assert(head[i] == cs[i]);
        }
    }
    let r = l.chain_cut(d, cs[0], keep);
    if keep == k {
        assert(cur == cs.last());
        assert(head =~= cs);
        assert(l.chained(y, head)) by {
            assert forall|i: int| 0 <= i < head.len() - 1 implies #[trigger] l.fat_read(
                y,
                head[i] as int,
            ) == Ok::<FatEntry, FsError<()>>(FatEntry::Next(head[i + 1])) by {
                assert(head[i] == cs[i] && head[i + 1] == cs[i + 1]);
            }
        }
        assert(l.file_chain(y, cs[0], head)) by {
            reveal(FatLayout::dir_sound);
        }
    } else {
        assert(l.fat_read(d.img, cs[keep - 1] as int) == Ok::<FatEntry, FsError<()>>(
            FatEntry::Next(cs[keep]),
        ));
        assert forall|i: int| 0 <= i < rest.len() implies (#[trigger] rest[i]) == cs[keep + i] by {}
        assert(l.distinct_clusters(rest)) by {
            assert forall|i: int| 0 <= i < rest.len() implies l.is_cluster((#[trigger] rest[i]) as int) by {
                assert(rest[i] == cs[keep + i]);
            }
            assert forall|i: int, j: int|
                0 <= i < rest.len() && 0 <= j < rest.len() && i != j implies rest[i] != rest[j] by {
                assert(rest[i] == cs[keep + i] && rest[j] == cs[keep + j]);
            }
        }
        assert(l.chained(y, rest)) by {
            assert forall|i: int| 0 <= i < rest.len() - 1 implies #[trigger] l.fat_read(
                y,
                rest[i] as int,
            ) == Ok::<FatEntry, FsError<()>>(FatEntry::Next(rest[i + 1])) by {
                assert(rest[i] == cs[keep + i] && rest[i + 1] == cs[keep + i + 1]);
                assert(l.fat_read(y, cs[keep + i] as int) == l.fat_read(
                    d.img,
                    cs[keep + i] as int,
                ));
            }
            assert(rest.last() == cs[k - 1] && cs.last() == cs[k - 1]);
            assert(l.fat_read(y, cs[k - 1] as int) == l.fat_read(d.img, cs[k - 1] as int));
        }
        law_chain_freed(l, w.disk, rest, 0);
        let a = l.chain_freed(w.disk, rest[0], 0).disk.img;
        assert(members(rest).subset_of(members(cs))) by {
            assert forall|c: int| members(rest).contains(c) implies members(cs).contains(c) by {
                let i = choose|i: int| 0 <= i < rest.len() && rest[i] == c as u32;
                assert(cs[keep + i] == c as u32);
            }
        }
        lemma_touches_more(l, y, a, members(rest), e, members(cs), e);
        lemma_touches_then(l, d.img, y, a, members(cs), e);
        lemma_untouched(l, y, a, members(rest), e, 0);
        assert forall|i: int| 0 <= i < keep implies l.fat_read(a, (#[trigger] cs[i]) as int)
            == l.fat_read(y, cs[i] as int) by {
            if members(rest).contains(cs[i] as int) {
                let j = choose|j: int| 0 <= j < rest.len() && rest[j] == cs[i];
                assert(cs[keep + j] == cs[i]);
            }
            lemma_untouched(l, y, a, members(rest), e, cs[i] as int);
        }
        assert(l.chained(a, head)) by {
            assert forall|i: int| 0 <= i < head.len() - 1 implies #[trigger] l.fat_read(
                a,
                head[i] as int,
            ) == Ok::<FatEntry, FsError<()>>(FatEntry::Next(head[i + 1])) by {
                assert(head[i] == cs[i] && head[i + 1] == cs[i + 1]);
                assert(l.fat_read(y, cs[i] as int) == l.fat_read(d.img, cs[i] as int));
            }
            assert(l.fat_read(a, cs[keep - 1] as int) == l.fat_read(y, cs[keep - 1] as int));
        }
        assert(l.file_chain(a, cs[0], head)) by {
            reveal(FatLayout::dir_sound);
        }
    }
}

} // verus!
