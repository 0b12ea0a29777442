//! What an operation touches: which FAT cells and which bytes behind the FAT.
//! Everything else reads as before.

use vstd::prelude::*;

use super::layout::{lemma_cluster_size, FatDisk, FatLayout, FatWrite};
use super::regions::{
    law_fat_cell_written, lemma_cell_attempted, lemma_cluster_places, lemma_copy_places,
    written_meaning,
};
use crate::codec::fat::fat_entry::FatEntry;
use crate::error::FsError;

verus! {

/// The bytes of a range.
pub open spec fn span(off: int, len: int) -> Set<int> {
    Set::new(|i: int| off <= i < off + len)
}

/// The members of a list of clusters.
pub open spec fn members(cs: Seq<u32>) -> Set<int> {
    Set::new(|c: int| 0 <= c <= u32::MAX && cs.contains(c as u32))
}

impl FatLayout {
    /// From `a` to `b` only the given FAT cells and, behind the FAT, the given
    /// bytes change. Before the FAT nothing does.
    #[verifier::opaque]
    pub open spec fn touches_only(
        self,
        a: Seq<u8>,
        b: Seq<u8>,
        cells: Set<int>,
        bytes: Set<int>,
    ) -> bool {
        &&& a.len() == b.len()
        &&& forall|k: int|
            !cells.contains(k) ==> #[trigger] self.fat_read(b, k) == self.fat_read(a, k)
        &&& forall|i: int|
            self.root_pos() <= i < a.len() && !bytes.contains(i) ==> #[trigger] b[i] == a[i]
        &&& forall|i: int|
            0 <= i < self.fat_base(0) && i < a.len() ==> #[trigger] b[i] == a[i]
    }

    /// The bytes of the clusters in a list.
    pub open spec fn cluster_bytes(self, cs: Seq<u32>) -> Set<int> {
        Set::new(
            |i: int|
                exists|k: int|
                    0 <= k < cs.len() && self.cluster_pos((#[trigger] cs[k]) as int) <= i
                        < self.cluster_pos(cs[k] as int) + self.props.cluster_size,
        )
    }
}

/// No change touches nothing.
pub proof fn lemma_touches_nothing(l: FatLayout, a: Seq<u8>, cells: Set<int>, bytes: Set<int>)
    ensures
        l.touches_only(a, a, cells, bytes),
{
    reveal(FatLayout::touches_only);
}

/// One change after another touches what either touches.
pub proof fn lemma_touches_then(
    l: FatLayout,
    a: Seq<u8>,
    b: Seq<u8>,
    c: Seq<u8>,
    cells: Set<int>,
    bytes: Set<int>,
)
    requires
        l.touches_only(a, b, cells, bytes),
        l.touches_only(b, c, cells, bytes),
    ensures
        l.touches_only(a, c, cells, bytes),
{
    reveal(FatLayout::touches_only);
    assert forall|k: int| !cells.contains(k) implies #[trigger] l.fat_read(c, k) == l.fat_read(a, k) by {
        assert(l.fat_read(b, k) == l.fat_read(a, k));
    }
    assert forall|i: int| l.root_pos() <= i < a.len() && !bytes.contains(i) implies #[trigger] c[i]
        == a[i] by {
        assert(b[i] == a[i]);
    }
    assert forall|i: int| 0 <= i < l.fat_base(0) && i < a.len() implies #[trigger] c[i] == a[i] by {
        assert(b[i] == a[i]);
    }
}

/// What touches little touches no more than a larger selection.
pub proof fn lemma_touches_more(
    l: FatLayout,
    a: Seq<u8>,
    b: Seq<u8>,
    cells: Set<int>,
    bytes: Set<int>,
    more_cells: Set<int>,
    more_bytes: Set<int>,
)
    requires
        l.touches_only(a, b, cells, bytes),
        cells.subset_of(more_cells),
        bytes.subset_of(more_bytes),
    ensures
        l.touches_only(a, b, more_cells, more_bytes),
{
    reveal(FatLayout::touches_only);
}

/// What an operation does not touch, it keeps.
pub proof fn lemma_untouched(
    l: FatLayout,
    a: Seq<u8>,
    b: Seq<u8>,
    cells: Set<int>,
    bytes: Set<int>,
    k: int,
)
    requires
        l.touches_only(a, b, cells, bytes),
    ensures
        a.len() == b.len(),
        !cells.contains(k) ==> l.fat_read(b, k) == l.fat_read(a, k),
        l.root_pos() <= k < a.len() && !bytes.contains(k) ==> b[k] == a[k],
        0 <= k < l.fat_base(0) && k < a.len() ==> b[k] == a[k],
{
    reveal(FatLayout::touches_only);
}

/// A range of which nothing was touched reads as before.
pub proof fn lemma_range_untouched(
    l: FatLayout,
    a: Seq<u8>,
    b: Seq<u8>,
    cells: Set<int>,
    bytes: Set<int>,
    off: int,
    len: int,
)
    requires
        l.touches_only(a, b, cells, bytes),
        l.root_pos() <= off,
        0 <= l.root_pos(),
        0 <= len,
        bytes.disjoint(span(off, len)),
    ensures
        l.read(b, off, len) == l.read(a, off, len),
{
    reveal(FatLayout::touches_only);
    if off + len <= a.len() {
        assert forall|i: int| off <= i < off + len implies a[i] == b[i] by {
            assert(span(off, len).contains(i));
        }
        assert(a.subrange(off, off + len) =~= b.subrange(off, off + len));
    }
}

/// Writing a cell touches that cell only, which then reads as written.
pub proof fn lemma_cell_effect(l: FatLayout, d: FatDisk, c: u32, value: FatWrite)
    requires
        l.sound(),
        l.fat_written(d, c, value).out is Ok,
        value matches FatWrite::Next(n) ==> l.is_cluster(n as int),
    ensures
        ({
            let a = l.fat_written(d, c, value).disk.img;
            &&& l.touches_only(d.img, a, set![c as int], set![])
            &&& l.fat_read(a, c as int) == Ok::<FatEntry, FsError<()>>(written_meaning(value))
            &&& l.is_cluster(c as int)
        }),
{
    reveal(FatLayout::touches_only);
    law_fat_cell_written(l, d, c, value);
}

/// Trying to write a cell touches that cell only. If it could be read, it reads
/// as what was to be stored, even where not every FAT copy could be written.
pub proof fn lemma_attempt_effect(l: FatLayout, d: FatDisk, c: u32, value: FatWrite)
    requires
        l.sound(),
        l.is_cluster(c as int),
        value matches FatWrite::Next(n) ==> l.is_cluster(n as int),
    ensures
        ({
            let a = l.fat_written(d, c, value).disk.img;
            &&& l.touches_only(d.img, a, set![c as int], set![])
            &&& l.fat_read(d.img, c as int) is Ok ==> l.fat_read(a, c as int) == Ok::<
                FatEntry,
                FsError<()>,
            >(written_meaning(value))
        }),
{
    reveal(FatLayout::touches_only);
    lemma_cell_attempted(l, d, c, value);
}

/// Writing behind the FAT touches the bytes written only.
pub proof fn lemma_bytes_effect(l: FatLayout, d: FatDisk, off: int, bytes: Seq<u8>)
    requires
        l.sound(),
        l.written(d, off, bytes).out is Ok,
        l.root_pos() <= off,
    ensures
        ({
            let a = l.written(d, off, bytes).disk.img;
            &&& l.touches_only(d.img, a, set![], span(off, bytes.len() as int))
            &&& l.read(a, off, bytes.len() as int) == Ok::<Seq<u8>, FsError<()>>(bytes)
        }),
{
    reveal(FatLayout::touches_only);
    let a = l.written(d, off, bytes).disk.img;
    let act = l.active_copy();
    lemma_copy_places(l, act, act);
    lemma_copy_places(l, 0, 0);
    assert forall|k: int| true implies #[trigger] l.fat_read(a, k) == l.fat_read(d.img, k) by {
        if l.is_cluster(k) {
            super::regions::lemma_cell_inside(l, k);
            let q = l.cell_pos(k);
            let w = l.fat_type.cell_bytes();
            assert(q + w <= l.root_pos());
            if q + w <= a.len() {
                assert(a[q] == d.img[q] && a[q + 1] == d.img[q + 1]);
                if l.fat_type is FAT32 {
                    assert(a[q + 2] == d.img[q + 2] && a[q + 3] == d.img[q + 3]);
                }
            }
        }
    }
    assert(a.subrange(off, off + bytes.len()) =~= bytes);
}

/// Zeroing the sectors of a cluster from `i` on.
proof fn lemma_zeroed_from(l: FatLayout, d: FatDisk, c: u32, i: int)
    requires
        l.sound(),
        l.is_cluster(c as int),
        0 <= i <= l.props.sec_per_clus,
        l.zeroed(d, c, i).out is Ok,
    ensures
        ({
            let a = l.zeroed(d, c, i).disk.img;
            let p = l.cluster_pos(c as int);
            &&& l.touches_only(
                d.img,
                a,
                set![],
                span(
                    p + i * l.props.sector_size,
                    l.props.cluster_size - i * l.props.sector_size,
                ),
            )
            &&& forall|k: int|
                p + i * l.props.sector_size <= k < p + l.props.cluster_size && k < a.len()
                    ==> #[trigger] a[k] == 0
            &&& i < l.props.sec_per_clus ==> p + l.props.cluster_size <= a.len()
        }),
    decreases l.props.sec_per_clus - i,
{
    lemma_cluster_size(l);
    lemma_cluster_places(l, c as int, c as int);
    let s = l.props.sector_size as int;
    let p = l.cluster_pos(c as int);
    let e = Set::<int>::empty();
    let all = span(p + i * s, l.props.cluster_size - i * s);
    if i >= l.props.sec_per_clus {
        lemma_touches_nothing(l, d.img, e, all);
    } else {
        let (n, spc) = (i, l.props.sec_per_clus as int);
        assert(0 <= n * s && (n + 1) * s == n * s + s && (n + 1) * s <= spc * s) by (nonlinear_arith)
            requires
                0 <= n < spc,
                0 < s,
        ;
        let zeros = Seq::new(s as nat, |k: int| 0u8);
        let w = l.written(d, p + i * s, zeros);
        lemma_bytes_effect(l, d, p + i * s, zeros);
        lemma_zeroed_from(l, w.disk, c, i + 1);
        let a = l.zeroed(w.disk, c, i + 1).disk.img;
        lemma_touches_more(l, d.img, w.disk.img, e, span(p + i * s, s), e, all);
        lemma_touches_more(
            l,
            w.disk.img,
            a,
            e,
            span(p + (i + 1) * s, l.props.cluster_size - (i + 1) * s),
            e,
            all,
        );
        lemma_touches_then(l, d.img, w.disk.img, a, e, all);
        assert forall|k: int| p + i * s <= k < p + l.props.cluster_size && k < a.len() implies #[trigger] a[k]
            == 0 by {
            if k < p + (i + 1) * s {
                lemma_untouched(
                    l,
                    w.disk.img,
                    a,
                    e,
                    span(p + (i + 1) * s, l.props.cluster_size - (i + 1) * s),
                    k,
                );
                assert(w.disk.img[k] == zeros[k - (p + i * s)]);
            }
        }
        lemma_untouched(l, d.img, a, e, all, 0);
    }
}

/// Zeroing a cluster touches its bytes only, which are zero afterwards.
pub proof fn lemma_zeroed_effect(l: FatLayout, d: FatDisk, c: u32)
    requires
        l.sound(),
        l.is_cluster(c as int),
        l.zeroed(d, c, 0).out is Ok,
    ensures
        ({
            let a = l.zeroed(d, c, 0).disk.img;
            let p = l.cluster_pos(c as int);
            &&& l.touches_only(d.img, a, set![], span(p, l.props.cluster_size as int))
            &&& p + l.props.cluster_size <= a.len()
            &&& forall|k: int| p <= k < p + l.props.cluster_size ==> #[trigger] a[k] == 0
        }),
{
    lemma_cluster_size(l);
    lemma_zeroed_from(l, d, c, 0);
}

} // verus!
