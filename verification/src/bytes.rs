//! Byte-sequence model shared by the codecs and the storage layer.

use vstd::prelude::*;

verus! {

/// `s` with the bytes from `off` on replaced by `t`.
pub open spec fn spliced(s: Seq<u8>, off: int, t: Seq<u8>) -> Seq<u8> {
    Seq::new(
        s.len(),
        |i: int|
            if off <= i < off + t.len() {
                t[i - off]
            } else {
                s[i]
            },
    )
}

/// Little-endian 16-bit field at `off`.
pub open spec fn le16(b: Seq<u8>, off: int) -> int {
    b[off] + 0x100 * b[off + 1]
}

/// Little-endian 32-bit field at `off`.
pub open spec fn le32(b: Seq<u8>, off: int) -> int {
    b[off] + 0x100 * b[off + 1] + 0x1_0000 * b[off + 2] + 0x100_0000 * b[off + 3]
}

/// Little-endian 64-bit field at `off`.
pub open spec fn le64(b: Seq<u8>, off: int) -> int {
    le32(b, off) + 0x1_0000_0000 * le32(b, off + 4)
}

/// `a` and `b` have the same length and agree outside `lo..hi`.
pub open spec fn same_outside(a: Seq<u8>, b: Seq<u8>, lo: int, hi: int) -> bool {
    &&& a.len() == b.len()
    &&& forall|i: int| 0 <= i < a.len() && !(lo <= i < hi) ==> #[trigger] a[i] == b[i]
}

/// A field determines the bytes it covers.
pub proof fn lemma_le_injective(a: Seq<u8>, b: Seq<u8>, off: int)
    ensures
        le16(a, off) == le16(b, off) ==> a[off] == b[off] && a[off + 1] == b[off + 1],
        le32(a, off) == le32(b, off) ==> a[off] == b[off] && a[off + 1] == b[off + 1] && a[off + 2]
            == b[off + 2] && a[off + 3] == b[off + 3],
{
}

/// A 64-bit field determines the bytes it covers.
pub proof fn lemma_le64_injective(a: Seq<u8>, b: Seq<u8>, off: int)
    requires
        le64(a, off) == le64(b, off),
    ensures
        forall|i: int| off <= i < off + 8 ==> a[i] == b[i],
{
    assert(0 <= le32(a, off) < 0x1_0000_0000);
    assert(0 <= le32(b, off) < 0x1_0000_0000);
    lemma_le_injective(a, b, off);
    lemma_le_injective(a, b, off + 4);
}

/// Equal slices hold equal bytes.
pub proof fn lemma_subrange_pointwise(a: Seq<u8>, b: Seq<u8>, lo: int, hi: int)
    requires
        0 <= lo <= hi <= a.len(),
        hi <= b.len(),
        a.subrange(lo, hi) == b.subrange(lo, hi),
    ensures
        forall|i: int| lo <= i < hi ==> a[i] == b[i],
{
    assert forall|i: int| lo <= i < hi implies a[i] == b[i] by {
        assert(a.subrange(lo, hi)[i - lo] == a[i]);
        assert(b.subrange(lo, hi)[i - lo] == b[i]);
    }
}

/// The bytes `from..to` of `b` as an owned vector.
pub fn sub_vec(b: &[u8], from: usize, to: usize) -> (r: Vec<u8>)
    requires
        from <= to <= b@.len(),
    ensures
        r@ == b@.subrange(from as int, to as int),
{
    let mut out: Vec<u8> = Vec::new();
    let mut i: usize = from;
    while i < to
        invariant
            from <= i <= to <= b@.len(),
            out@ =~= b@.subrange(from as int, i as int),
        decreases to - i,
    {
        out.push(b[i]);
        i += 1;
    }
    out
}

} // verus!
