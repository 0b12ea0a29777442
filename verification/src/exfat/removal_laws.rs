//! What is free once an entry's data were given back.

use vstd::prelude::*;

use super::chains::members;
use super::direntry::{EntryFields, FatEntry};
use super::effects::{lemma_touches_more, lemma_touches_nothing};
use super::growth::lemma_distinct_fit;
use super::layout::{lemma_unit_sizes, Disk, ExfatLayout};
use super::regions::{law_bit_marked, law_fat_cell_written, law_range_marked};
use super::stream_laws::{consecutive, lemma_chain_given_up};
use crate::error::FsError;

verus! {

impl ExfatLayout {
    /// `cs` are the clusters that hold the data of `e`: different ones of the
    /// volume, from its first cluster on, either neighbours, as many as its
    /// length takes, or one linked to the next up to the end of the chain.
    pub open spec fn holds_data_of(self, img: Seq<u8>, e: EntryFields, cs: Seq<u32>) -> bool {
        let cb = self.boot.cluster_bytes();
        &&& cs.no_duplicates()
        &&& forall|i: int| 0 <= i < cs.len() ==> self.in_heap((#[trigger] cs[i]) as int)
        &&& cs.len() == 0 <==> e.data_length == 0
        &&& cs.len() > 0 ==> cs[0] == e.first_cluster
        &&& if e.no_fat_chain {
            &&& consecutive(cs)
            &&& (cs.len() - 1) * cb < e.data_length <= cs.len() * cb
        } else {
            &&& self.linked_in_order(img, cs)
            &&& cs.len() > 0 ==> self.fat_entry(img, cs.last() as int) != FatEntry::Bad
        }
    }
}

/// From `x` to `a` the clusters of `cs` became free, no other cluster's bit or
/// FAT cell changed, and the data of none.
pub open spec fn given_back(l: ExfatLayout, x: Seq<u8>, a: Seq<u8>, cs: Seq<u32>) -> bool {
    &&& a.len() == x.len()
    &&& forall|i: int| 0 <= i < cs.len() ==> !l.allocated(a, (#[trigger] cs[i]) as int)
    &&& forall|k: u32|
        l.has_bit_on(x, k as int) && !cs.contains(k) ==> #[trigger] l.allocated(a, k as int)
            == l.allocated(x, k as int)
    &&& forall|k: u32|
        l.in_heap(k as int) && !cs.contains(k) ==> #[trigger] l.fat_read(a, k as int) == l.fat_read(
            x,
            k as int,
        )
    &&& forall|k: int|
        l.data_cluster(k) && l.cluster_on(x, k) ==> #[trigger] l.cluster_data(a, k)
            == l.cluster_data(x, k)
}

/// Clearing the bits of a range that the device holds succeeds.
pub proof fn lemma_range_cleared(l: ExfatLayout, d: Disk, from: int, to: int)
    requires
        l.wf(),
        l.regions_apart(),
        forall|k: int| from <= k < to ==> #[trigger] l.has_bit_on(d.img, k),
    ensures
        l.range_marked(d, from, to, false).out is Ok,
    decreases to - from,
{
    if from < to {
        assert(l.has_bit_on(d.img, from));
        let m = l.marked(d, from, false);
        law_bit_marked(l, d, from, false);
        assert forall|k: int| from + 1 <= k < to implies #[trigger] l.has_bit_on(m.disk.img, k) by {
            assert(l.has_bit_on(d.img, k));
        }
        lemma_range_cleared(l, m.disk, from + 1, to);
    }
}

/// Freeing a chain whose bits the device holds succeeds.
pub proof fn lemma_chain_cleared(l: ExfatLayout, d: Disk, cs: Seq<u32>, visited: int)
    requires
        l.wf(),
        l.regions_apart(),
        cs.len() > 0,
        cs.no_duplicates(),
        forall|i: int|
            0 <= i < cs.len() ==> l.in_heap((#[trigger] cs[i]) as int) && l.has_bit_on(
                d.img,
                cs[i] as int,
            ),
        l.linked_in_order(d.img, cs),
        0 <= visited,
        visited + cs.len() <= l.boot.cluster_count + 1,
    ensures
        l.chain_freed(d, cs[0] as int, visited).out is Ok,
    decreases cs.len(),
{
    let c = cs[0] as int;
    assert(l.in_heap(c) && l.has_bit_on(d.img, c));
    assert(l.fat_read(d.img, c) is Ok) by {
        if cs.len() > 1 {
            assert(l.fat_read(d.img, cs[0] as int) == Ok::<FatEntry, FsError<()>>(
                FatEntry::Next(cs[1]),
            ));
        } else {
            assert(cs.last() == cs[0]);
        }
    }
    let m = l.marked(d, c, false);
    law_bit_marked(l, d, c, false);
    let w = l.fat_written(m.disk, c, 0);
    assert(w.out is Ok);
    law_fat_cell_written(l, m.disk, c, 0);
    if cs.len() > 1 && l.fat_entry(d.img, c) != FatEntry::Bad {
        let rest = cs.drop_first();
        assert(l.fat_read(d.img, cs[0] as int) == Ok::<FatEntry, FsError<()>>(
            FatEntry::Next(cs[1]),
        ));
        assert forall|i: int| 0 <= i < rest.len() implies l.in_heap((#[trigger] rest[i]) as int)
            && l.has_bit_on(w.disk.img, rest[i] as int) && l.fat_read(w.disk.img, rest[i] as int)
            == l.fat_read(d.img, rest[i] as int) by {
            assert(rest[i] == cs[i + 1] && cs[i + 1] != cs[0]);
            assert(l.fat_read(m.disk.img, rest[i] as int) == l.fat_read(d.img, rest[i] as int));
        }
        assert(l.linked_in_order(w.disk.img, rest)) by {
            assert forall|i: int| 0 <= i < rest.len() - 1 implies #[trigger] l.fat_read(
                w.disk.img,
                rest[i] as int,
            ) == Ok::<FatEntry, FsError<()>>(FatEntry::Next(rest[i + 1])) by {
                assert(rest[i] == cs[i + 1] && rest[i + 1] == cs[i + 2]);
                assert(l.fat_read(d.img, cs[i + 1] as int) == Ok::<FatEntry, FsError<()>>(
                    FatEntry::Next(cs[i + 2]),
                ));
            }
            assert(rest.last() == cs.last());
            assert(rest[rest.len() - 1] == rest.last());
        }
        assert forall|i: int, j: int|
            0 <= i < rest.len() && 0 <= j < rest.len() && i != j implies rest[i] != rest[j] by {
            assert(rest[i] == cs[i + 1] && rest[j] == cs[j + 1]);
        }
        lemma_chain_cleared(l, w.disk, rest, visited + 1);
        assert(rest[0] == cs[1]);
    }
}

/// As many clusters as bytes take.
pub proof fn lemma_clusters_taken(n: int, bytes: int, cb: int)
    requires
        0 < cb,
        0 < bytes,
        (n - 1) * cb < bytes <= n * cb,
    ensures
        crate::num::ceil_div(bytes, cb) == n,
{
    let rest = bytes - (n - 1) * cb - 1;
    assert(bytes + cb - 1 == cb * n + rest && 0 <= rest < cb) by (nonlinear_arith)
        requires
            rest == bytes - (n - 1) * cb - 1,
            (n - 1) * cb < bytes <= n * cb,
    ;
    vstd::arithmetic::div_mod::lemma_fundamental_div_mod_converse(bytes + cb - 1, cb, n, rest);
}

/// Giving back the data of an entry: every cluster that holds them is free
/// afterwards, and no other cluster's bit, FAT cell or data are touched. It
/// succeeds where the device holds the bits of those clusters. A chain whose last
/// cluster is marked bad is left out: a bad cluster is not given back.
pub proof fn law_data_given_back(l: ExfatLayout, d: Disk, e: EntryFields, cs: Seq<u32>)
    requires
        l.wf(),
        l.regions_apart(),
        l.holds_data_of(d.img, e, cs),
    ensures
        l.entry_freed(d, e).out is Ok ==> given_back(l, d.img, l.entry_freed(d, e).disk.img, cs),
        (forall|i: int| 0 <= i < cs.len() ==> l.has_bit_on(d.img, (#[trigger] cs[i]) as int))
            ==> l.entry_freed(d, e).out is Ok,
{
    lemma_unit_sizes(l.boot);
    lemma_distinct_fit(l, cs);
    let r = l.entry_freed(d, e);
    let a = r.disk.img;
    let none = Set::<int>::empty();
    let bits_on = forall|i: int| 0 <= i < cs.len() ==> l.has_bit_on(d.img, (#[trigger] cs[i]) as int);
    if cs.len() == 0 {
        lemma_touches_nothing(l, d.img, members(cs), members(cs), none);
    } else {
        assert(l.in_heap(cs[0] as int));
        if e.no_fat_chain {
            let n = cs.len() as int;
            lemma_clusters_taken(n, e.data_length as int, l.boot.cluster_bytes());
            let (from, to) = (cs[0] as int, cs[0] + n);
            let bits = Set::new(|k: int| from <= k < to);
            if bits_on {
                assert forall|k: int| from <= k < to implies #[trigger] l.has_bit_on(d.img, k) by {
                    assert(cs[k - from] == cs[0] + (k - from));
                }
                lemma_range_cleared(l, d, from, to);
            }
            if r.out is Ok {
                law_range_marked(l, d, from, to, false);
                super::effects::lemma_range_effect(l, d, from, to, false);
                assert forall|i: int| 0 <= i < n implies !l.allocated(a, (#[trigger] cs[i]) as int) by {
                    assert(cs[i] == cs[0] + i);
                    assert(!l.allocated(a, from + i));
                }
                assert forall|k: int| bits.contains(k) implies members(cs).contains(k) by {
                    assert(cs[k - from] == cs[0] + (k - from));
                }
                lemma_touches_more(l, d.img, a, none, bits, none, members(cs), members(cs), none);
            }
        } else {
            if bits_on {
                lemma_chain_cleared(l, d, cs, 0);
            }
            if r.out is Ok {
                lemma_chain_given_up(l, d, cs);
            }
        }
    }
    if r.out is Ok {
        lemma_given_back_meant(l, d.img, a, cs);
    }
}

/// What it means that nothing but the given clusters was touched.
proof fn lemma_given_back_meant(l: ExfatLayout, x: Seq<u8>, a: Seq<u8>, cs: Seq<u32>)
    requires
        l.touches_only(x, a, members(cs), members(cs), set![]),
        forall|i: int| 0 <= i < cs.len() ==> !l.allocated(a, (#[trigger] cs[i]) as int),
    ensures
        given_back(l, x, a, cs),
{
    reveal(ExfatLayout::touches_only);
    assert forall|k: u32| !cs.contains(k) implies !(#[trigger] members(cs).contains(k as int)) by {}
    assert forall|k: u32| l.has_bit_on(x, k as int) && !cs.contains(k) implies #[trigger] l.allocated(
        a,
        k as int,
    ) == l.allocated(x, k as int) by {
        assert(!members(cs).contains(k as int));
    }
    assert forall|k: u32| l.in_heap(k as int) && !cs.contains(k) implies #[trigger] l.fat_read(
        a,
        k as int,
    ) == l.fat_read(x, k as int) by {
        assert(!members(cs).contains(k as int));
    }
}

} // verus!
