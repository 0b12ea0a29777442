//! What one write leaves alone: the boot fields, the FAT and the cluster heap
//! lie apart, so a change to one FAT cell, one bitmap bit or one cluster is
//! seen nowhere else.

use vstd::prelude::*;

use super::bitmap::{law_with_bit, lemma_free_from_found, lemma_run_from_found, with_bit};
use super::direntry::{fat_meaning, FatEntry};
use super::layout::{le_bytes32, lemma_unit_sizes, Disk, ExfatLayout};
use crate::bytes::le32;
use crate::codec::exfat::consts::FAT_BAD;
use crate::num::ceil_div;

verus! {

impl ExfatLayout {
    /// First byte of the cluster heap.
    pub open spec fn heap_start(self) -> int {
        self.boot.cluster_pos(2)
    }

    /// The volume's parts do not overlap: first the boot fields that change
    /// in place, then the FAT cells of all clusters, then the cluster heap.
    /// And no cluster's number is one of the FAT's marker values.
    pub open spec fn regions_apart(self) -> bool {
        &&& self.boot.cluster_count + 1 < FAT_BAD
        &&& 113 <= self.boot.fat_pos(0)
        &&& self.boot.fat_pos(self.boot.cluster_count + 2) <= self.heap_start()
    }

    /// `cluster` is one of the volume's clusters.
    pub open spec fn in_heap(self, cluster: int) -> bool {
        2 <= cluster <= self.boot.cluster_count + 1
    }

    /// The bitmap has a bit for `cluster`, and the device holds it.
    pub open spec fn has_bit_on(self, img: Seq<u8>, cluster: int) -> bool {
        self.has_bit(cluster) && self.bit_pos(cluster) < img.len()
    }

    /// `cluster` is one of the clusters that hold the bitmap.
    pub open spec fn holds_bitmap(self, cluster: int) -> bool {
        self.bitmap.first_cluster <= cluster < self.bitmap.first_cluster + ceil_div(
            self.bitmap.byte_length as int,
            self.boot.cluster_bytes(),
        )
    }
}

/// `i` is the place of a boot field that changes in place.
pub open spec fn is_flag_place(i: int) -> bool {
    i == 106 || i == 107 || i == 112
}

/// The images agree on every byte except in `lo..hi` and in the boot fields
/// that change in place.
pub open spec fn agree_outside(a: Seq<u8>, b: Seq<u8>, lo: int, hi: int) -> bool {
    &&& a.len() == b.len()
    &&& forall|i: int|
        0 <= i < a.len() && !is_flag_place(i) && !(lo <= i < hi) ==> #[trigger] a[i] == b[i]
}

/// Where clusters lie: each at its own place in the heap.
pub proof fn lemma_cluster_places(l: ExfatLayout, c: int, k: int)
    requires
        l.boot.valid_shifts(),
        2 <= c,
        2 <= k,
    ensures
        l.heap_start() <= l.boot.cluster_pos(c),
        c < k ==> l.boot.cluster_pos(c) + l.boot.cluster_bytes() <= l.boot.cluster_pos(k),
        k < c ==> l.boot.cluster_pos(k) + l.boot.cluster_bytes() <= l.boot.cluster_pos(c),
{
    lemma_unit_sizes(l.boot);
    let cb = l.boot.cluster_bytes();
    let (x, y) = (c - 2, k - 2);
    assert(0 <= x * cb && (x < y ==> x * cb + cb <= y * cb) && (y < x ==> y * cb + cb <= x * cb))
        by (nonlinear_arith)
        requires
            0 <= x,
            0 <= y,
            0 < cb,
    ;
    assert(l.heap_start() == l.boot.cluster_heap_offset * l.boot.sector_bytes() + 0 * cb);
}

/// A write past the boot fields changes the bytes it covers and, of those
/// past the boot fields, no others.
pub proof fn lemma_written_frame(l: ExfatLayout, d: Disk, off: int, bytes: Seq<u8>)
    requires
        l.written(d, off, bytes).out is Ok,
        113 <= off,
    ensures
        ({
            let a = l.written(d, off, bytes).disk.img;
            &&& agree_outside(a, d.img, off, off + bytes.len())
            &&& off + bytes.len() <= a.len()
            &&& forall|i: int| off <= i < off + bytes.len() ==> #[trigger] a[i] == bytes[i - off]
        }),
{
}

/// Four stored bytes read back as the word.
pub proof fn lemma_le_bytes32_read(img: Seq<u8>, off: int, word: u32)
    requires
        forall|i: int| off <= i < off + 4 ==> #[trigger] img[i] == le_bytes32(word)[i - off],
    ensures
        le32(img, off) == word,
{
    let w = word as int;
    let b = le_bytes32(word);
    assert(img[off] == b[0] && img[off + 1] == b[1] && img[off + 2] == b[2] && img[off + 3]
        == b[3]);
    assert(w == w % 0x100 + 0x100 * (w / 0x100));
    assert(w / 0x100 == (w / 0x100) % 0x100 + 0x100 * (w / 0x1_0000)) by {
        assert((w / 0x100) / 0x100 == w / 0x1_0000);
    }
    assert(w / 0x1_0000 == (w / 0x1_0000) % 0x100 + 0x100 * (w / 0x100_0000)) by {
        assert((w / 0x1_0000) / 0x100 == w / 0x100_0000);
    }
}

/// A FAT cell that was written reads back as what was stored; the other
/// cells, the bitmap and every cluster stay as they were.
pub proof fn law_fat_cell_written(l: ExfatLayout, d: Disk, c: int, value: u32)
    requires
        l.wf(),
        l.regions_apart(),
        0 <= c <= l.boot.cluster_count + 1,
        l.fat_written(d, c, value).out is Ok,
    ensures
        ({
            let a = l.fat_written(d, c, value).disk.img;
            &&& a.len() == d.img.len()
            &&& l.fat_read(a, c) == Ok::<FatEntry, crate::error::FsError<()>>(
                fat_meaning(value as int, l.boot.cluster_count as int),
            )
            &&& forall|k: int|
                0 <= k && k != c ==> #[trigger] l.fat_read(a, k) == l.fat_read(d.img, k)
            &&& forall|k: int|
                l.has_bit_on(a, k) ==> #[trigger] l.allocated(a, k) == l.allocated(d.img, k)
            &&& forall|i: int| l.heap_start() <= i < a.len() ==> #[trigger] a[i] == d.img[i]
        }),
{
    let p = l.boot.fat_pos(c);
    let a = l.fat_written(d, c, value).disk.img;
    lemma_written_frame(l, d, p, le_bytes32(value));
    lemma_le_bytes32_read(a, p, value);
    assert forall|k: int| 0 <= k && k != c implies #[trigger] l.fat_read(a, k) == l.fat_read(
        d.img,
        k,
    ) by {
        let q = l.boot.fat_pos(k);
        assert(q + 4 <= p || p + 4 <= q);
        if l.cell_on_device(a, k) {
            assert(a[q] == d.img[q] && a[q + 1] == d.img[q + 1] && a[q + 2] == d.img[q + 2]
                && a[q + 3] == d.img[q + 3]);
        }
    }
    lemma_cluster_places(l, l.bitmap.first_cluster as int, 2);
    assert forall|k: int| l.has_bit_on(a, k) implies #[trigger] l.allocated(a, k) == l.allocated(
        d.img,
        k,
    ) by {
        let q = l.bit_pos(k);
        assert(q >= l.heap_start());
        assert(a[q] == d.img[q]);
    }
}

/// A bit that was set or cleared reads so; the bits of all other clusters and
/// the whole FAT stay as they were.
pub proof fn law_bit_marked(l: ExfatLayout, d: Disk, c: int, on: bool)
    requires
        l.wf(),
        l.regions_apart(),
        l.marked(d, c, on).out is Ok,
    ensures
        ({
            let a = l.marked(d, c, on).disk.img;
            &&& a.len() == d.img.len()
            &&& l.has_bit_on(a, c)
            &&& l.allocated(a, c) == on
            &&& forall|k: int|
                l.has_bit_on(a, k) && k != c ==> #[trigger] l.allocated(a, k) == l.allocated(
                    d.img,
                    k,
                )
            &&& forall|k: int|
                0 <= k <= l.boot.cluster_count + 1 ==> #[trigger] l.fat_read(a, k) == l.fat_read(
                    d.img,
                    k,
                )
            &&& agree_outside(a, d.img, l.bit_pos(c), l.bit_pos(c) + 1)
        }),
{
    let p = l.bit_pos(c);
    let byte = with_bit(d.img[p], ((c - 2) % 8) as u8, on);
    let a = l.marked(d, c, on).disk.img;
    lemma_cluster_places(l, l.bitmap.first_cluster as int, 2);
    lemma_unit_sizes(l.boot);
    lemma_written_frame(l, d, p, seq![byte]);
    assert(a[p] == byte);
    law_with_bit(d.img[p], ((c - 2) % 8) as u8, ((c - 2) % 8) as u8, on);
    assert forall|k: int| l.has_bit_on(a, k) && k != c implies #[trigger] l.allocated(a, k)
        == l.allocated(d.img, k) by {
        if l.bit_pos(k) == p {
            assert((k - 2) % 8 != (c - 2) % 8);
            law_with_bit(d.img[p], ((c - 2) % 8) as u8, ((k - 2) % 8) as u8, on);
        }
    }
    assert forall|k: int| 0 <= k <= l.boot.cluster_count + 1 implies #[trigger] l.fat_read(a, k)
        == l.fat_read(d.img, k) by {
        let q = l.boot.fat_pos(k);
        assert(q + 4 <= l.heap_start());
        if l.cell_on_device(a, k) {
            assert(a[q] == d.img[q] && a[q + 1] == d.img[q + 1] && a[q + 2] == d.img[q + 2]
                && a[q + 3] == d.img[q + 3]);
        }
    }
}

/// Marking a range gives every cluster of it the mark and leaves the bits of
/// all other clusters and the whole FAT as they were.
pub proof fn law_range_marked(l: ExfatLayout, d: Disk, from: int, to: int, on: bool)
    requires
        l.wf(),
        l.regions_apart(),
        l.range_marked(d, from, to, on).out is Ok,
    ensures
        ({
            let a = l.range_marked(d, from, to, on).disk.img;
            &&& a.len() == d.img.len()
            &&& forall|k: int| from <= k < to ==> #[trigger] l.has_bit_on(a, k)
            &&& forall|k: int| from <= k < to ==> #[trigger] l.allocated(a, k) == on
            &&& forall|k: int|
                l.has_bit_on(a, k) && !(from <= k < to) ==> #[trigger] l.allocated(a, k)
                    == l.allocated(d.img, k)
            &&& forall|k: int|
                0 <= k <= l.boot.cluster_count + 1 ==> #[trigger] l.fat_read(a, k) == l.fat_read(
                    d.img,
                    k,
                )
        }),
    decreases to - from,
{
    if from < to {
        let m = l.marked(d, from, on);
        law_bit_marked(l, d, from, on);
        law_range_marked(l, m.disk, from + 1, to, on);
        let a = l.range_marked(d, from, to, on).disk.img;
        assert(l.range_marked(m.disk, from + 1, to, on).disk.img == a);
        assert forall|k: int| from <= k < to implies #[trigger] l.has_bit_on(a, k) by {
            if k == from {
                assert(l.has_bit_on(m.disk.img, k));
            }
        }
        assert forall|k: int| from <= k < to implies #[trigger] l.allocated(a, k) == on by {
            if k == from {
                assert(l.has_bit_on(a, k));
                assert(l.allocated(a, k) == l.allocated(m.disk.img, k));
            }
        }
        assert forall|k: int| l.has_bit_on(a, k) && !(from <= k < to) implies #[trigger] l.allocated(
            a,
            k,
        ) == l.allocated(d.img, k) by {
            assert(l.allocated(a, k) == l.allocated(m.disk.img, k));
        }
        assert forall|k: int| 0 <= k <= l.boot.cluster_count + 1 implies #[trigger] l.fat_read(
            a,
            k,
        ) == l.fat_read(d.img, k) by {
            assert(l.fat_read(a, k) == l.fat_read(m.disk.img, k));
        }
    }
}

/// A search never hands out a cluster that is in use, nor one outside the
/// heap; it comes back empty only where every cluster is in use. So a cluster
/// that was marked is not handed out again while it stays marked.
pub proof fn law_search_finds_free(l: ExfatLayout, img: Seq<u8>, count: int)
    requires
        l.wf(),
        1 <= count,
    ensures
        match l.free_search(img) {
            Ok(Some(c)) => l.in_heap(c as int) && !l.allocated(img, c as int),
            Ok(None) => forall|k: int| l.in_heap(k) ==> #[trigger] l.allocated(img, k),
            Err(_) => true,
        },
        match l.run_search(img, count) {
            Ok(Some(s)) => {
                &&& l.in_heap(s as int)
                &&& l.in_heap(s + count - 1)
                &&& forall|k: int| s <= k < s + count ==> !#[trigger] l.allocated(img, k)
            },
            Ok(None) => forall|s: int|
                l.in_heap(s) && l.in_heap(s + count - 1) ==> !#[trigger] l.run_free(img, s, count),
            Err(_) => true,
        },
{
    lemma_free_from_found(l, img, 2);
    lemma_run_from_found(l, img, 2, count);
}

/// The bit of a cluster lies in a cluster that holds the bitmap, so in none
/// that does not.
pub proof fn lemma_bit_place(l: ExfatLayout, k: int, c: int)
    requires
        l.wf(),
        l.has_bit(k),
        2 <= c,
        !l.holds_bitmap(c),
    ensures
        l.heap_start() <= l.bit_pos(k),
        l.bit_pos(k) < l.boot.cluster_pos(c) || l.boot.cluster_pos(c) + l.boot.cluster_bytes()
            <= l.bit_pos(k),
{
    lemma_unit_sizes(l.boot);
    let cb = l.boot.cluster_bytes();
    let o = (k - 2) / 8;
    let n = l.bitmap.byte_length as int;
    let j = o / cb;
    let f = l.bitmap.first_cluster as int;
    assert(0 <= j && j * cb <= o < j * cb + cb && (o < n ==> j * cb < n)) by (nonlinear_arith)
        requires
            j == o / cb,
            0 <= o,
            0 < cb,
    ;
    let m = ceil_div(n, cb);
    assert(j < m) by (nonlinear_arith)
        requires
            0 <= j,
            j * cb < n,
            0 < cb,
            m == (n + cb - 1) / cb,
    ;
    lemma_cluster_places(l, f, 2);
    lemma_cluster_places(l, f + j, c);
    assert(l.boot.cluster_pos(f + j) == l.boot.cluster_pos(f) + j * cb) by (nonlinear_arith)
        requires
            l.boot.cluster_pos(f + j) == l.boot.cluster_heap_offset * l.boot.sector_bytes() + (f + j
                - 2) * cb,
            l.boot.cluster_pos(f) == l.boot.cluster_heap_offset * l.boot.sector_bytes() + (f - 2)
                * cb,
    ;
    assert(l.holds_bitmap(f + j));
}

} // verus!
