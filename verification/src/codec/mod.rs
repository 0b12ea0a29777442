//! Pure on-disk codecs (bytes ↔ structs). No I/O, no paths.
//!
//! Every layout is fixed-offset little-endian, written out by hand with the
//! helpers below: decode with `parse`, encode with `write_into`.

use vstd::prelude::*;

use crate::bytes::{le16, le32, le64, same_outside};

pub mod checksum_laws;
pub mod exfat;
pub mod fat;
pub mod record_laws;
pub mod stamp_laws;
pub mod time;

verus! {

/// A fixed-size on-disk record.
///
/// `parse` returns `None` when a validating field rejects the bytes or the
/// slice is shorter than the record; `write_into` fills the first
/// [`FixedCodec::size`] bytes of `out` and leaves the rest alone.
pub trait FixedCodec: Sized {
    /// Record length in bytes.
    spec fn record_len() -> nat;

    /// Whether the validating fields of the record image `b` are accepted.
    spec fn accepts(b: Seq<u8>) -> bool;

    /// `self` is what the record image `b` decodes to.
    spec fn decoded_from(self, b: Seq<u8>) -> bool;

    /// `b` is the record image of `self`.
    spec fn encoded_as(self, b: Seq<u8>) -> bool;

    /// Whether `self` can be written at all.
    spec fn writable(self) -> bool;

    /// Record length in bytes.
    fn size() -> (n: usize)
        ensures
            n == Self::record_len(),
    ;

    fn parse(b: &[u8]) -> (r: Option<Self>)
        ensures
            r is Some <==> b@.len() >= Self::record_len() && Self::accepts(b@),
            r matches Some(v) ==> v.decoded_from(b@) && v.writable(),
    ;

    fn write_into(&self, out: &mut [u8])
        requires
            old(out)@.len() >= Self::record_len(),
            self.writable(),
        ensures
            self.encoded_as(final(out)@),
            same_outside(final(out)@, old(out)@, 0, Self::record_len() as int),
    ;

    /// A record image decodes to one value at most.
    proof fn law_decode_unique(a: Self, c: Self, b: Seq<u8>)
        requires
            b.len() >= Self::record_len(),
            a.decoded_from(b),
            c.decoded_from(b),
        ensures
            a == c,
    ;

    /// Writing a parsed record and parsing the result again gives the same
    /// value: `parse` after `write_into` is a fixed point.
    proof fn law_fixed_point(a: Self, src: Seq<u8>, b: Seq<u8>)
        requires
            src.len() >= Self::record_len(),
            Self::accepts(src),
            a.decoded_from(src),
            b.len() >= Self::record_len(),
            a.encoded_as(b),
        ensures
            Self::accepts(b),
            a.decoded_from(b),
    ;

    /// A value has one record image.
    proof fn law_encode_unique(a: Self, b: Seq<u8>, c: Seq<u8>)
        requires
            b.len() >= Self::record_len(),
            c.len() >= Self::record_len(),
            a.encoded_as(b),
            a.encoded_as(c),
        ensures
            b.subrange(0, Self::record_len() as int) == c.subrange(0, Self::record_len() as int),
    ;
}

// ── Little-endian field helpers ─────────────────────────────────────────

#[inline]
pub fn le_u16(b: &[u8], off: usize) -> (r: u16)
    requires
        off + 2 <= b@.len(),
    ensures
        r == le16(b@, off as int),
{
    b[off] as u16 + 0x100 * (b[off + 1] as u16)
}

#[inline]
pub fn le_u32(b: &[u8], off: usize) -> (r: u32)
    requires
        off + 4 <= b@.len(),
    ensures
        r == le32(b@, off as int),
{
    b[off] as u32 + 0x100 * (b[off + 1] as u32) + 0x1_0000 * (b[off + 2] as u32) + 0x100_0000 * (
    b[off + 3] as u32)
}

#[inline]
pub fn le_u64(b: &[u8], off: usize) -> (r: u64)
    requires
        off + 8 <= b@.len(),
    ensures
        r == le64(b@, off as int),
{
    let len: usize = b.len();
    assert(off + 8 <= len);
    le_u32(b, off) as u64 + 0x1_0000_0000 * (le_u32(b, off + 4) as u64)
}

#[inline]
pub fn put_u16(b: &mut [u8], off: usize, v: u16)
    requires
        off + 2 <= old(b)@.len(),
    ensures
        le16(final(b)@, off as int) == v,
        same_outside(final(b)@, old(b)@, off as int, off + 2),
{
    b[off] = (v % 0x100) as u8;
    b[off + 1] = (v / 0x100) as u8;
}

#[inline]
pub fn put_u32(b: &mut [u8], off: usize, v: u32)
    requires
        off + 4 <= old(b)@.len(),
    ensures
        le32(final(b)@, off as int) == v,
        same_outside(final(b)@, old(b)@, off as int, off + 4),
{
    b[off] = (v % 0x100) as u8;
    b[off + 1] = ((v / 0x100) % 0x100) as u8;
    b[off + 2] = ((v / 0x1_0000) % 0x100) as u8;
    b[off + 3] = (v / 0x100_0000) as u8;
}

#[inline]
pub fn put_u64(b: &mut [u8], off: usize, v: u64)
    requires
        off + 8 <= old(b)@.len(),
    ensures
        le64(final(b)@, off as int) == v,
        same_outside(final(b)@, old(b)@, off as int, off + 8),
{
    let len: usize = b.len();
    assert(off + 8 <= len);
    put_u32(b, off, (v % 0x1_0000_0000) as u32);
    put_u32(b, off + 4, (v / 0x1_0000_0000) as u32);
}

/// Copy a fixed-size byte array field out of a record.
#[inline]
pub fn bytes<const N: usize>(b: &[u8], off: usize) -> (r: [u8; N])
    requires
        off + N <= b@.len(),
    ensures
        r@ == b@.subrange(off as int, off + N),
{
    let len: usize = b.len();
    let mut out: [u8; N] = [0u8;N];
    let mut i: usize = 0;
    while i < N
        invariant
            i <= N,
            len == b@.len(),
            off + N <= len,
            forall|k: int| 0 <= k < i ==> out@[k] == b@[off + k],
        decreases N - i,
    {
        out[i] = b[off + i];
        i += 1;
    }
    assert(out@ =~= b@.subrange(off as int, off + N));
    out
}

/// Copy a fixed-size byte array field into a record.
#[inline]
pub fn put_bytes<const N: usize>(b: &mut [u8], off: usize, src: &[u8; N])
    requires
        off + N <= old(b)@.len(),
    ensures
        final(b)@.subrange(off as int, off + N) == src@,
        same_outside(final(b)@, old(b)@, off as int, off + N),
{
    let len: usize = b.len();
    let mut i: usize = 0;
    while i < N
        invariant
            i <= N,
            len == b@.len(),
            off + N <= len,
            forall|k: int| 0 <= k < i ==> b@[off + k] == src@[k],
            same_outside(b@, old(b)@, off as int, off + N),
        decreases N - i,
    {
        b[off + i] = src[i];
        i += 1;
    }
    assert(b@.subrange(off as int, off + N) =~= src@);
}

} // verus!
