//! Which bit of the bitmap stands for a cluster, and which free clusters a search
//! takes.

use vstd::prelude::*;

use super::bitmap::bit_of;
use super::layout::ExfatLayout;

verus! {

/// The clusters are counted from the lowest bit of the bitmap's first byte on: a
/// cluster is in use if and only if its bit is set.
pub proof fn law_bitmap_bit(l: ExfatLayout, img: Seq<u8>, c: u32)
    requires
        2 <= c,
    ensures
        ({
            let k = (c - 2) as u32;
            let byte = img[l.boot.cluster_pos(l.bitmap.first_cluster as int) + (k >> 3u32)];
            l.allocated(img, c as int) <==> byte & (1u8 << ((k & 7) as u8)) != 0
        }),
{
    let k = (c - 2) as u32;
    assert(k >> 3u32 == k / 8 && k & 7 == k % 8) by (bit_vector);
    let b = img[l.bit_pos(c as int)];
    let j = (k % 8) as u8;
    assert((b >> j) & 1 == 1 <==> b & (1u8 << j) != 0) by (bit_vector)
        requires
            j < 8,
    ;
    assert(bit_of(b, j) == l.allocated(img, c as int));
}

proof fn lemma_first_free(l: ExfatLayout, img: Seq<u8>, from: int)
    ensures
        l.free_from(img, from) matches Some(c) ==> {
            &&& from <= c
            &&& forall|k: int| from <= k < c ==> #[trigger] l.allocated(img, k)
        },
    decreases l.boot.cluster_count + 2 - from,
{
    if from <= l.boot.cluster_count + 1 && l.allocated(img, from) {
        lemma_first_free(l, img, from + 1);
    }
}

proof fn lemma_first_run(l: ExfatLayout, img: Seq<u8>, from: int, count: int)
    ensures
        l.run_from(img, from, count) matches Some(s) ==> {
            &&& from <= s
            &&& forall|k: int| from <= k < s ==> !#[trigger] l.run_free(img, k, count)
        },
    decreases l.boot.cluster_count + 2 - from,
{
    if from + count - 1 <= l.boot.cluster_count + 1 && from <= l.boot.cluster_count + 1
        && !l.run_free(img, from, count) {
        lemma_first_run(l, img, from + 1, count);
    }
}

/// A search takes the lowest free cluster, and the lowest place at which as many
/// free clusters as asked for lie side by side; where the bitmap lies on the device
/// it does not fail.
pub proof fn law_search_takes_lowest(l: ExfatLayout, img: Seq<u8>, count: int)
    requires
        1 <= count,
    ensures
        l.free_search(img) matches Ok(Some(c)) ==> forall|k: int|
            2 <= k < c ==> #[trigger] l.allocated(img, k),
        l.run_search(img, count) matches Ok(Some(s)) ==> forall|k: int|
            2 <= k < s ==> !#[trigger] l.run_free(img, k, count),
        forall|k: int| #[trigger]
            l.run_free(img, k, count) <==> k + count <= l.boot.cluster_count + 2 && forall|c: int|
                k <= c < k + count ==> !#[trigger] l.allocated(img, c),
        l.boot.cluster_pos(l.bitmap.first_cluster as int) + (l.boot.cluster_count + 7) / 8
            <= img.len() ==> l.free_search(img) is Ok && l.run_search(img, count) is Ok,
{
    lemma_first_free(l, img, 2);
    lemma_first_run(l, img, 2, count);
}

} // verus!
