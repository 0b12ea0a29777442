//! What inserting an entry leaves alone.

use vstd::prelude::*;

use super::alloc_laws::law_new_allocation;
use super::chains::{law_stream_written, members};
use super::dir_edit::{end_slot, lemma_end_slot_bounds};
use super::dir_laws::{
    clusters_added, grow_from, lemma_append_grown, lemma_append_steps, lemma_clusters_added,
    lemma_dir_stream, lemma_free_apart, lemma_growth_recorded, lemma_set_kept,
};
use super::direntry::DirExtent;
use super::effects::{lemma_touches_more, lemma_untouched};
use super::entry_laws::lemma_insert_steps;
use super::layout::{lemma_unit_sizes, Disk, ExfatLayout};
use super::regions::is_flag_place;
use crate::calendar::PrimitiveDateTime;
use crate::error::FsError;
use crate::name::NamePolicy;
use crate::vfs::NewEntry;

verus! {

impl ExfatLayout {
    /// Every data cluster in use that is not one of `own` keeps its bytes, its
    /// FAT cell and its bit; and before the FAT at most the boot fields that
    /// change in place differ.
    #[verifier::opaque]
    pub open spec fn leaves_alone(self, a: Seq<u8>, b: Seq<u8>, own: Set<int>) -> bool {
        &&& a.len() == b.len()
        &&& forall|c: int| #[trigger]
            self.cluster_kept(a, c) && !own.contains(c) ==> {
                &&& self.cluster_data(b, c) == self.cluster_data(a, c)
                &&& self.fat_read(b, c) == self.fat_read(a, c)
                &&& self.allocated(b, c)
            }
        &&& forall|i: int|
            0 <= i < self.boot.fat_pos(0) && i < a.len() && !is_flag_place(i) ==> #[trigger] b[i]
                == a[i]
    }

    /// `cluster` is a data cluster in use, on the device with its bit.
    pub open spec fn cluster_kept(self, img: Seq<u8>, cluster: int) -> bool {
        &&& self.data_cluster(cluster)
        &&& self.cluster_on(img, cluster)
        &&& self.has_bit_on(img, cluster)
        &&& self.allocated(img, cluster)
    }

    /// The clusters of the directory `ext` and of the one that holds its entry
    /// set.
    pub open spec fn dir_and_parent(self, img: Seq<u8>, ext: DirExtent) -> Set<int> {
        let cs = self.dir_clusters(
            img,
            ext.first_cluster,
            ext.no_fat_chain,
            ext.max_clusters as int,
        )->Ok_0;
        match ext.parent_entry {
            None => members(cs),
            Some(loc) => members(cs).union(
                members(
                    self.dir_clusters(
                        img,
                        loc.dir_first_cluster,
                        loc.dir_no_fat_chain,
                        loc.dir_max_clusters as int,
                    )->Ok_0,
                ),
            ),
        }
    }
}

/// What holds of one cluster, or of one byte before the FAT, that was left
/// alone.
pub proof fn lemma_left_alone(l: ExfatLayout, a: Seq<u8>, b: Seq<u8>, own: Set<int>, k: int)
    requires
        l.leaves_alone(a, b, own),
    ensures
        a.len() == b.len(),
        l.cluster_kept(a, k) && !own.contains(k) ==> l.cluster_kept(b, k) && l.cluster_data(b, k)
            == l.cluster_data(a, k) && l.fat_read(b, k) == l.fat_read(a, k),
        0 <= k < l.boot.fat_pos(0) && k < a.len() && !is_flag_place(k) ==> b[k] == a[k],
{
    reveal(ExfatLayout::leaves_alone);
}

/// One change after another.
pub proof fn lemma_leaves_then(
    l: ExfatLayout,
    a: Seq<u8>,
    b: Seq<u8>,
    c: Seq<u8>,
    own: Set<int>,
)
    requires
        l.leaves_alone(a, b, own),
        l.leaves_alone(b, c, own),
    ensures
        l.leaves_alone(a, c, own),
{
    reveal(ExfatLayout::leaves_alone);
    assert forall|k: int| #[trigger] l.cluster_kept(a, k) && !own.contains(k) implies {
        &&& l.cluster_data(c, k) == l.cluster_data(a, k)
        &&& l.fat_read(c, k) == l.fat_read(a, k)
        &&& l.allocated(c, k)
    } by {
        assert(l.cluster_kept(b, k));
    }
    assert forall|i: int|
        0 <= i < l.boot.fat_pos(0) && i < a.len() && !is_flag_place(i) implies #[trigger] c[i]
        == a[i] by {
        assert(b[i] == a[i]);
    }
}

/// What touches only `own` clusters and free ones leaves the others alone.
pub proof fn lemma_touched_leaves(
    l: ExfatLayout,
    a: Seq<u8>,
    b: Seq<u8>,
    touched: Set<int>,
    own: Set<int>,
)
    requires
        l.touches_only(a, b, touched, touched, touched),
        forall|c: int| #[trigger]
            touched.contains(c) ==> own.contains(c) || !l.allocated(a, c),
    ensures
        l.leaves_alone(a, b, own),
{
    reveal(ExfatLayout::leaves_alone);
    lemma_untouched(l, a, b, touched, touched, touched, 2);
    assert forall|c: int| #[trigger] l.cluster_kept(a, c) && !own.contains(c) implies {
        &&& l.cluster_data(b, c) == l.cluster_data(a, c)
        &&& l.fat_read(b, c) == l.fat_read(a, c)
        &&& l.allocated(b, c)
    } by {
        assert(!touched.contains(c));
        lemma_untouched(l, a, b, touched, touched, touched, c);
    }
    assert forall|i: int|
        0 <= i < l.boot.fat_pos(0) && i < a.len() && !is_flag_place(i) implies #[trigger] b[i]
        == a[i] by {
        lemma_untouched(l, a, b, touched, touched, touched, i);
    }
}

/// Free clusters of a list are not in use.
pub proof fn lemma_members_free(l: ExfatLayout, img: Seq<u8>, free: Seq<u32>)
    requires
        l.all_free(img, free),
    ensures
        forall|c: int| #[trigger] members(free).contains(c) ==> !l.allocated(img, c),
{
    assert forall|c: int| #[trigger] members(free).contains(c) implies !l.allocated(img, c) by {
        let i = choose|i: int| 0 <= i < free.len() && free[i] == c as u32;
        assert(!l.allocated(img, free[i] as int));
    }
}

/// Appending an entry set where it fits.
pub proof fn lemma_fit_leaves(l: ExfatLayout, d: Disk, ext: DirExtent, cs: Seq<u32>, set: Seq<u8>)
    requires
        l.volume_sound(d.img),
        l.dir_sound(d.img, ext),
        l.refreshed(d.img, ext) == ext,
        l.set_appended(d, ext, set).out is Ok,
        l.dir_clusters(d.img, ext.first_cluster, ext.no_fat_chain, ext.max_clusters as int) == Ok::<
            Seq<u32>,
            FsError<()>,
        >(cs),
        end_slot(l.stream_of(d.img, cs), 0) + set.len() <= l.stream_of(d.img, cs).len(),
    ensures
        l.leaves_alone(d.img, l.set_appended(d, ext, set).disk.img, members(cs)),
{
    let e = Set::<int>::empty();
    let buf = l.stream_of(d.img, cs);
    let end = end_slot(buf, 0);
    let m = members(cs);
    lemma_unit_sizes(l.boot);
    lemma_dir_stream(
        l,
        d.img,
        ext.first_cluster,
        ext.no_fat_chain,
        ext.max_clusters as int,
        cs,
    );
    lemma_end_slot_bounds(buf, 0);
    let (n, cb) = (cs.len() as int, l.boot.cluster_bytes());
    assert(0 <= n * cb) by (nonlinear_arith)
        requires
            0 <= n,
            0 < cb,
    ;
    law_stream_written(l, d, cs, end, set);
    let a = l.stream_written(d, cs, end, set).disk.img;
    lemma_touches_more(l, d.img, a, e, e, m, m, m, m);
    lemma_touched_leaves(l, d.img, a, m, m);
}

/// Appending an entry set where the directory grows.
proof fn lemma_growth_leaves(l: ExfatLayout, d: Disk, ext: DirExtent, cs: Seq<u32>, set: Seq<u8>)
    requires
        l.volume_sound(d.img),
        l.dir_sound(d.img, ext),
        l.set_appended(d, ext, set).out is Ok,
        l.dir_clusters(d.img, ext.first_cluster, ext.no_fat_chain, ext.max_clusters as int) == Ok::<
            Seq<u32>,
            FsError<()>,
        >(cs),
        end_slot(l.stream_of(d.img, cs), 0) + set.len() > l.stream_of(d.img, cs).len(),
    ensures
        l.leaves_alone(
            d.img,
            l.set_appended(d, ext, set).disk.img,
            l.dir_and_parent(d.img, ext),
        ),
{
    let e = Set::<int>::empty();
    let buf = l.stream_of(d.img, cs);
    let own = l.dir_and_parent(d.img, ext);
    lemma_append_steps(l, d, ext, cs, set);
    lemma_clusters_added(l, buf, set.len() as int);
    let n = clusters_added(l, buf, set.len() as int);
    lemma_append_grown(l, d, ext, cs, set, n);
    let grown = l.dir_grown(grow_from(l, d, ext, cs), cs.last(), n);
    let more = grown.out->Ok_0;
    let w = l.stream_written(grown.disk, cs + more, end_slot(buf, 0), set);
    let m = members(cs).union(members(more));
    lemma_members_free(l, d.img, more);
    lemma_touches_more(l, d.img, w.disk.img, m, members(more), m, m, m, m);
    lemma_touched_leaves(l, d.img, w.disk.img, m, own);
    if let Some(loc) = ext.parent_entry {
        let pcs = l.dir_clusters(
            d.img,
            loc.dir_first_cluster,
            loc.dir_no_fat_chain,
            loc.dir_max_clusters as int,
        )->Ok_0;
        let added = n * l.boot.cluster_bytes();
        lemma_free_apart(l, d.img, more, pcs);
        lemma_set_kept(l, d.img, w.disk.img, m, members(more), m, loc, cs);
        lemma_growth_recorded(l, w.disk, loc, cs, pcs, added);
        let a = l.growth_recorded(w.disk, loc, added).disk.img;
        let q = members(pcs);
        lemma_touches_more(l, w.disk.img, a, e, e, q, q, q, q);
        lemma_touched_leaves(l, w.disk.img, a, q, own);
        lemma_leaves_then(l, d.img, w.disk.img, a, own);
    }
}

/// Appending an entry set to a directory touches that directory, the entry set
/// of a directory that grows, and clusters that were free. Everything else is
/// left alone.
pub proof fn law_append_leaves_others(l: ExfatLayout, d: Disk, ext: DirExtent, set: Seq<u8>)
    requires
        l.volume_sound(d.img),
        l.dir_sound(d.img, ext),
        l.refreshed(d.img, ext) == ext,
        l.set_appended(d, ext, set).out is Ok,
    ensures
        l.leaves_alone(
            d.img,
            l.set_appended(d, ext, set).disk.img,
            l.dir_and_parent(d.img, ext),
        ),
{
    let cs = l.dir_clusters(
        d.img,
        ext.first_cluster,
        ext.no_fat_chain,
        ext.max_clusters as int,
    )->Ok_0;
    if end_slot(l.stream_of(d.img, cs), 0) + set.len() <= l.stream_of(d.img, cs).len() {
        lemma_fit_leaves(l, d, ext, cs, set);
        lemma_leaves_more(
            l,
            d.img,
            l.set_appended(d, ext, set).disk.img,
            members(cs),
            l.dir_and_parent(d.img, ext),
        );
    } else {
        lemma_growth_leaves(l, d, ext, cs, set);
    }
}

/// What is left alone outside a selection is left alone outside a larger one.
proof fn lemma_leaves_more(
    l: ExfatLayout,
    a: Seq<u8>,
    b: Seq<u8>,
    own: Set<int>,
    more: Set<int>,
)
    requires
        l.leaves_alone(a, b, own),
        own.subset_of(more),
    ensures
        l.leaves_alone(a, b, more),
{
    reveal(ExfatLayout::leaves_alone);
}

/// Inserting an entry leaves alone whatever is in use outside its directory and
/// the directory above.
pub proof fn law_insert_leaves_others(
    l: ExfatLayout,
    p: NamePolicy,
    d: Disk,
    parent: DirExtent,
    entry: NewEntry,
    now: PrimitiveDateTime,
)
    requires
        l.volume_sound(d.img),
        l.dir_sound(d.img, l.refreshed(d.img, parent)),
        entry.times.wf(),
        now.wf(),
        l.inserted(p, d, parent, entry, now).out is Ok,
    ensures
        l.leaves_alone(
            d.img,
            l.inserted(p, d, parent, entry, now).disk.img,
            l.dir_and_parent(d.img, l.refreshed(d.img, parent)),
        ),
{
    let ext = l.refreshed(d.img, parent);
    let own = l.dir_and_parent(d.img, ext);
    let (mid, _, set) = lemma_insert_steps(l, p, d, parent, entry, now);
    let taken = law_new_allocation(l, d, entry);
    let m = members(taken);
    lemma_members_free(l, d.img, taken);
    lemma_touched_leaves(l, d.img, mid.img, m, own);
    lemma_selection_kept(l, d.img, mid.img, taken, ext);
    law_append_leaves_others(l, mid, ext, set);
    lemma_leaves_then(
        l,
        d.img,
        mid.img,
        l.inserted(p, d, parent, entry, now).disk.img,
        own,
    );
}

/// A directory and the one above consist of the same clusters after an
/// allocation.
pub proof fn lemma_selection_kept(
    l: ExfatLayout,
    a: Seq<u8>,
    b: Seq<u8>,
    taken: Seq<u32>,
    ext: DirExtent,
)
    requires
        l.volume_sound(a),
        l.dir_sound(a, ext),
        l.took(a, b, taken),
    ensures
        l.dir_and_parent(b, ext) == l.dir_and_parent(a, ext),
{
    let m = members(taken);
    let (first, nfc, max) = (ext.first_cluster, ext.no_fat_chain, ext.max_clusters as int);
    let cs = l.dir_clusters(a, first, nfc, max)->Ok_0;
    lemma_free_apart(l, a, taken, cs);
    super::dir_laws::lemma_dir_untouched(l, a, b, m, m, m, first, nfc, max, cs);
    if let Some(loc) = ext.parent_entry {
        let pcs = l.dir_clusters(
            a,
            loc.dir_first_cluster,
            loc.dir_no_fat_chain,
            loc.dir_max_clusters as int,
        )->Ok_0;
        lemma_free_apart(l, a, taken, pcs);
        lemma_set_kept(l, a, b, m, m, m, loc, cs);
    }
}

} // verus!
