//! What an operation touches: which FAT cells, which bitmap bits and which
//! clusters. Everything else reads as before.

use vstd::prelude::*;

use super::direntry::{fat_meaning, FatEntry};
use super::layout::{lemma_unit_sizes, Disk, ExfatLayout};
use super::regions::{
    is_flag_place, law_bit_marked, law_fat_cell_written, lemma_bit_place, lemma_cluster_places,
    lemma_written_frame,
};
use crate::error::FsError;

verus! {

impl ExfatLayout {
    /// The bytes of `cluster`.
    pub open spec fn cluster_data(self, img: Seq<u8>, cluster: int) -> Seq<u8> {
        img.subrange(
            self.boot.cluster_pos(cluster),
            self.boot.cluster_pos(cluster) + self.boot.cluster_bytes(),
        )
    }

    /// `cluster` holds data rather than the bitmap.
    pub open spec fn data_cluster(self, cluster: int) -> bool {
        self.in_heap(cluster) && !self.holds_bitmap(cluster)
    }

    /// `cluster` lies within the device.
    pub open spec fn cluster_on(self, img: Seq<u8>, cluster: int) -> bool {
        self.boot.cluster_pos(cluster) + self.boot.cluster_bytes() <= img.len()
    }

    /// From `a` to `b` only the given FAT cells, bits and clusters change, and
    /// before the FAT at most the boot fields that change in place.
    #[verifier::opaque]
    pub open spec fn touches_only(
        self,
        a: Seq<u8>,
        b: Seq<u8>,
        cells: Set<int>,
        bits: Set<int>,
        clusters: Set<int>,
    ) -> bool {
        &&& a.len() == b.len()
        &&& forall|k: int|
            0 <= k <= self.boot.cluster_count + 1 && !cells.contains(k) ==> #[trigger] self.fat_read(
                b,
                k,
            ) == self.fat_read(a, k)
        &&& forall|k: int|
            self.has_bit_on(a, k) && !bits.contains(k) ==> #[trigger] self.allocated(b, k)
                == self.allocated(a, k)
        &&& forall|c: int|
            self.data_cluster(c) && self.cluster_on(a, c) && !clusters.contains(c)
                ==> #[trigger] self.cluster_data(b, c) == self.cluster_data(a, c)
        &&& forall|i: int|
            0 <= i < self.boot.fat_pos(0) && i < a.len() && !is_flag_place(i) ==> #[trigger] b[i]
                == a[i]
    }
}

/// No change touches nothing.
pub proof fn lemma_touches_nothing(l: ExfatLayout, a: Seq<u8>, cells: Set<int>, bits: Set<int>, clusters: Set<int>)
    ensures
        l.touches_only(a, a, cells, bits, clusters),
{
    reveal(ExfatLayout::touches_only);
}

/// One change after another touches what either touches.
pub proof fn lemma_touches_then(
    l: ExfatLayout,
    a: Seq<u8>,
    b: Seq<u8>,
    c: Seq<u8>,
    cells: Set<int>,
    bits: Set<int>,
    clusters: Set<int>,
)
    requires
        l.touches_only(a, b, cells, bits, clusters),
        l.touches_only(b, c, cells, bits, clusters),
    ensures
        l.touches_only(a, c, cells, bits, clusters),
{
    reveal(ExfatLayout::touches_only);
    assert forall|k: int|
        0 <= k <= l.boot.cluster_count + 1 && !cells.contains(k) implies #[trigger] l.fat_read(c, k)
        == l.fat_read(a, k) by {
        assert(l.fat_read(b, k) == l.fat_read(a, k));
    }
    assert forall|k: int| l.has_bit_on(a, k) && !bits.contains(k) implies #[trigger] l.allocated(
        c,
        k,
    ) == l.allocated(a, k) by {
        assert(l.has_bit_on(b, k));
        assert(l.allocated(b, k) == l.allocated(a, k));
    }
    assert forall|k: int|
        l.data_cluster(k) && l.cluster_on(a, k) && !clusters.contains(
            k,
        ) implies #[trigger] l.cluster_data(c, k) == l.cluster_data(a, k) by {
        assert(l.cluster_on(b, k));
        assert(l.cluster_data(b, k) == l.cluster_data(a, k));
    }
}

/// What an operation does not touch, it keeps.
pub proof fn lemma_untouched(
    l: ExfatLayout,
    a: Seq<u8>,
    b: Seq<u8>,
    cells: Set<int>,
    bits: Set<int>,
    clusters: Set<int>,
    k: int,
)
    requires
        l.touches_only(a, b, cells, bits, clusters),
    ensures
        a.len() == b.len(),
        l.in_heap(k) && !cells.contains(k) ==> l.fat_read(b, k) == l.fat_read(a, k),
        l.has_bit_on(a, k) && !bits.contains(k) ==> l.allocated(b, k) == l.allocated(a, k),
        l.data_cluster(k) && l.cluster_on(a, k) && !clusters.contains(k) ==> l.cluster_data(b, k)
            == l.cluster_data(a, k),
        0 <= k < l.boot.fat_pos(0) && k < a.len() && !is_flag_place(k) ==> b[k] == a[k],
{
    reveal(ExfatLayout::touches_only);
}

/// What touches little touches no more than a larger selection.
pub proof fn lemma_touches_more(
    l: ExfatLayout,
    a: Seq<u8>,
    b: Seq<u8>,
    cells: Set<int>,
    bits: Set<int>,
    clusters: Set<int>,
    more_cells: Set<int>,
    more_bits: Set<int>,
    more_clusters: Set<int>,
)
    requires
        l.touches_only(a, b, cells, bits, clusters),
        cells.subset_of(more_cells),
        bits.subset_of(more_bits),
        clusters.subset_of(more_clusters),
    ensures
        l.touches_only(a, b, more_cells, more_bits, more_clusters),
{
    reveal(ExfatLayout::touches_only);
}

/// Writing a FAT cell touches that cell only.
pub proof fn lemma_cell_effect(l: ExfatLayout, d: Disk, c: int, value: u32)
    requires
        l.wf(),
        l.regions_apart(),
        0 <= c <= l.boot.cluster_count + 1,
        l.fat_written(d, c, value).out is Ok,
    ensures
        l.touches_only(
            d.img,
            l.fat_written(d, c, value).disk.img,
            set![c],
            set![],
            set![],
        ),
{
    reveal(ExfatLayout::touches_only);
    let a = l.fat_written(d, c, value).disk.img;
    law_fat_cell_written(l, d, c, value);
    assert forall|k: int| l.data_cluster(k) && l.cluster_on(d.img, k) implies #[trigger] l.cluster_data(
        a,
        k,
    ) == l.cluster_data(d.img, k) by {
        lemma_cluster_places(l, k, 2);
        assert(l.cluster_data(a, k) =~= l.cluster_data(d.img, k));
    }
}

/// A FAT cell that was written reads back as what was stored.
pub proof fn lemma_cell_reads(l: ExfatLayout, d: Disk, c: int, value: u32)
    requires
        l.wf(),
        l.regions_apart(),
        l.in_heap(c),
        l.fat_written(d, c, value).out is Ok,
    ensures
        l.fat_read(l.fat_written(d, c, value).disk.img, c) == Ok::<FatEntry, FsError<()>>(
            fat_meaning(value as int, l.boot.cluster_count as int),
        ),
        l.in_heap(value as int) ==> fat_meaning(value as int, l.boot.cluster_count as int)
            == FatEntry::Next(value),
{
    law_fat_cell_written(l, d, c, value);
}

/// A bit that was set or cleared reads so.
pub proof fn lemma_bit_reads(l: ExfatLayout, d: Disk, c: int, on: bool)
    requires
        l.wf(),
        l.regions_apart(),
        l.marked(d, c, on).out is Ok,
    ensures
        l.has_bit_on(d.img, c),
        l.allocated(l.marked(d, c, on).disk.img, c) == on,
{
    law_bit_marked(l, d, c, on);
}

/// Setting or clearing a bit touches that bit only.
pub proof fn lemma_bit_effect(l: ExfatLayout, d: Disk, c: int, on: bool)
    requires
        l.wf(),
        l.regions_apart(),
        l.marked(d, c, on).out is Ok,
    ensures
        l.touches_only(d.img, l.marked(d, c, on).disk.img, set![], set![c], set![]),
{
    reveal(ExfatLayout::touches_only);
    let a = l.marked(d, c, on).disk.img;
    law_bit_marked(l, d, c, on);
    lemma_cluster_places(l, l.bitmap.first_cluster as int, 2);
    assert(l.heap_start() <= l.bit_pos(c));
    assert forall|k: int| l.data_cluster(k) && l.cluster_on(d.img, k) implies #[trigger] l.cluster_data(
        a,
        k,
    ) == l.cluster_data(d.img, k) by {
        lemma_cluster_places(l, k, 2);
        lemma_bit_place(l, c, k);
        lemma_unit_sizes(l.boot);
        assert(l.cluster_data(a, k) =~= l.cluster_data(d.img, k));
    }
}

/// Writing within a data cluster touches that cluster only, and changes in it
/// the bytes written.
pub proof fn lemma_cluster_effect(l: ExfatLayout, d: Disk, c: int, off: int, bytes: Seq<u8>)
    requires
        l.wf(),
        l.regions_apart(),
        l.data_cluster(c),
        0 <= off,
        off + bytes.len() <= l.boot.cluster_bytes(),
        l.written(d, l.boot.cluster_pos(c) + off, bytes).out is Ok,
    ensures
        ({
            let a = l.written(d, l.boot.cluster_pos(c) + off, bytes).disk.img;
            &&& l.touches_only(d.img, a, set![], set![], set![c])
            &&& l.cluster_on(d.img, c) ==> l.cluster_data(a, c) == crate::bytes::spliced(
                l.cluster_data(d.img, c),
                off,
                bytes,
            )
        }),
{
    reveal(ExfatLayout::touches_only);
    let p = l.boot.cluster_pos(c) + off;
    let a = l.written(d, p, bytes).disk.img;
    lemma_cluster_places(l, c, 2);
    lemma_unit_sizes(l.boot);
    lemma_written_frame(l, d, p, bytes);
    assert forall|k: int| 0 <= k <= l.boot.cluster_count + 1 implies #[trigger] l.fat_read(a, k)
        == l.fat_read(d.img, k) by {
        let q = l.boot.fat_pos(k);
        assert(q + 4 <= l.heap_start());
        if l.cell_on_device(a, k) {
            assert(a[q] == d.img[q] && a[q + 1] == d.img[q + 1] && a[q + 2] == d.img[q + 2]
                && a[q + 3] == d.img[q + 3]);
        }
    }
    assert forall|k: int| l.has_bit_on(d.img, k) implies #[trigger] l.allocated(a, k)
        == l.allocated(d.img, k) by {
        lemma_bit_place(l, k, c);
    }
    assert forall|k: int|
        l.data_cluster(k) && l.cluster_on(d.img, k) && k != c implies #[trigger] l.cluster_data(a, k)
        == l.cluster_data(d.img, k) by {
        lemma_cluster_places(l, k, c);
        assert(l.cluster_data(a, k) =~= l.cluster_data(d.img, k));
    }
    if l.cluster_on(d.img, c) {
        assert(l.cluster_data(a, c) =~= crate::bytes::spliced(
            l.cluster_data(d.img, c),
            off,
            bytes,
        ));
    }
}

/// Filling a data cluster touches that cluster only, which then holds the
/// data and zeros.
pub proof fn lemma_filled_effect(l: ExfatLayout, d: Disk, c: int, data: Seq<u8>)
    requires
        l.wf(),
        l.regions_apart(),
        l.data_cluster(c),
        l.cluster_filled(d, c, data).out is Ok,
    ensures
        ({
            let a = l.cluster_filled(d, c, data).disk.img;
            &&& l.touches_only(d.img, a, set![], set![], set![c])
            &&& l.cluster_on(d.img, c)
            &&& l.cluster_data(a, c) == data + Seq::new(
                (l.boot.cluster_bytes() - data.len()) as nat,
                |i: int| 0u8,
            )
        }),
{
    reveal(ExfatLayout::touches_only);
    let cb = l.boot.cluster_bytes();
    let pos = l.boot.cluster_pos(c);
    let w = l.written(d, pos, data);
    let zeros = Seq::new((cb - data.len()) as nat, |i: int| 0u8);
    lemma_cluster_effect(l, d, c, 0, data);
    if data.len() < cb {
        let z = l.written(w.disk, pos + data.len(), zeros);
        lemma_cluster_effect(l, w.disk, c, data.len() as int, zeros);
        lemma_touches_then(l, d.img, w.disk.img, z.disk.img, set![], set![], set![c]);
        assert(l.cluster_data(z.disk.img, c) =~= data + zeros);
    } else {
        assert(l.cluster_data(w.disk.img, c) =~= data + zeros);
    }
}

/// Marking a range touches the bits of that range only.
pub proof fn lemma_range_effect(l: ExfatLayout, d: Disk, from: int, to: int, on: bool)
    requires
        l.wf(),
        l.regions_apart(),
        l.range_marked(d, from, to, on).out is Ok,
    ensures
        l.touches_only(
            d.img,
            l.range_marked(d, from, to, on).disk.img,
            set![],
            Set::new(|k: int| from <= k < to),
            set![],
        ),
    decreases to - from,
{
    reveal(ExfatLayout::touches_only);
    if from < to {
        let m = l.marked(d, from, on);
        let a = l.range_marked(m.disk, from + 1, to, on).disk.img;
        let bits = Set::new(|k: int| from <= k < to);
        lemma_bit_effect(l, d, from, on);
        lemma_range_effect(l, m.disk, from + 1, to, on);
        lemma_touches_more(
            l,
            d.img,
            m.disk.img,
            set![],
            set![from],
            set![],
            set![],
            bits,
            set![],
        );
        lemma_touches_more(
            l,
            m.disk.img,
            a,
            set![],
            Set::new(|k: int| from + 1 <= k < to),
            set![],
            set![],
            bits,
            set![],
        );
        lemma_touches_then(l, d.img, m.disk.img, a, set![], bits, set![]);
    }
}

} // verus!
