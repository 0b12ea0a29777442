//! Pure FAT 32-byte directory entry layout (`DIR_*` / SFN record).

use vstd::prelude::*;

use crate::attrs::{packed_attributes, AttrBits, Attributes};
use crate::bytes::{le16, le32, lemma_le_injective, lemma_subrange_pointwise};
use crate::codec::{bytes, le_u16, le_u32, put_bytes, put_u16, put_u32, FixedCodec};
use crate::codec::fat::DIRENTRY_SIZE;
use crate::codec::fat::entry_time::{
    accessed_of, creation_of, law_accessed_stable, law_creation_stable, law_modification_stable,
    EntryCreationTime, EntryLastAccessedTime, EntryModificationTime,
};
use crate::codec::fat::sfn_layout::Sfn;
use crate::codec::fat::types::FileSize;
use crate::codec::time::datetime_of_stamp;

verus! {

/// On-disk FAT directory-entry attribute byte (`DIR_Attr`).
///
/// Unknown / reserved bits are preserved on round-trip. Bit values match
/// [`AttrBits`] / exFAT.
#[derive(Debug, Clone, Copy, PartialEq, Eq, Structural)]
pub struct RawAttributes(pub u8);

pub const RAW_VOLUME_ID: u8 = 0x08;

pub const RAW_DIRECTORY: u8 = 0x10;

pub const RAW_ARCHIVE: u8 = 0x20;

pub const RAW_LFN: u8 = 0x0F;

impl RawAttributes {
    #[inline]
    pub fn bits(self) -> (r: u8)
        ensures
            r == self.0,
    {
        self.0
    }

    #[inline]
    pub fn as_attr_bits(self) -> (r: AttrBits)
        ensures
            r.0 == self.0,
    {
        AttrBits::from_u8(self.0)
    }

    /// `true` if every bit in `flag` is set.
    #[inline]
    pub fn contains(self, flag: u8) -> (r: bool)
        ensures
            r == (self.0 & flag == flag),
    {
        self.0 & flag == flag
    }

    pub fn from_attributes(attributes: Attributes, is_dir: bool) -> (r: Self)
        ensures
            r.0 == packed_attributes(attributes, is_dir),
    {
        proof {
            crate::attrs::law_attributes_round_trip(attributes, is_dir);
        }
        RawAttributes(AttrBits::from_attributes(attributes, is_dir).as_u8())
    }
}

#[derive(Debug, Clone, Copy)]
pub struct RawDirEntry {
    pub sfn: Sfn,
    pub attributes: RawAttributes,
    pub _reserved: u8,
    pub created: EntryCreationTime,
    pub accessed: EntryLastAccessedTime,
    pub cluster_high: u16,
    pub modified: EntryModificationTime,
    pub cluster_low: u16,
    pub file_size: FileSize,
}

impl RawDirEntry {
    /// The fields whose image is the value itself.
    pub open spec fn plain_layout(self, b: Seq<u8>) -> bool {
        &&& self.sfn.name@ == b.subrange(0, 8)
        &&& self.sfn.ext@ == b.subrange(8, 11)
        &&& self.attributes.0 == b[11]
        &&& self._reserved == b[12]
        &&& self.cluster_high == le16(b, 20)
        &&& self.cluster_low == le16(b, 26)
        &&& self.file_size == le32(b, 28)
    }
}

impl FixedCodec for RawDirEntry {
    open spec fn record_len() -> nat {
        32
    }

    open spec fn accepts(b: Seq<u8>) -> bool {
        true
    }

    open spec fn decoded_from(self, b: Seq<u8>) -> bool {
        &&& self.plain_layout(b)
        &&& self.created.0 == creation_of(b[13] as int, le16(b, 14), le16(b, 16))
        &&& self.accessed.0 == accessed_of(le16(b, 18))
        &&& self.modified.0 == datetime_of_stamp(le16(b, 24) * 0x1_0000 + le16(b, 22), 0)
    }

    open spec fn encoded_as(self, b: Seq<u8>) -> bool {
        &&& self.plain_layout(b)
        &&& self.created.fields() == (b[13] as int, le16(b, 14), le16(b, 16))
        &&& self.accessed.field() == le16(b, 18)
        &&& self.modified.fields() == (le16(b, 22), le16(b, 24))
    }

    open spec fn writable(self) -> bool {
        self.created.wf() && self.accessed.wf() && self.modified.wf()
    }

    fn size() -> (n: usize) {
        DIRENTRY_SIZE
    }

    fn parse(b: &[u8]) -> (r: Option<Self>) {
        if b.len() < DIRENTRY_SIZE {
            return None;
        }
        Some(
            RawDirEntry {
                sfn: Sfn { name: bytes(b, 0), ext: bytes(b, 8) },
                attributes: RawAttributes(b[11]),
                _reserved: b[12],
                created: EntryCreationTime::decode(b[13], le_u16(b, 14), le_u16(b, 16)),
                accessed: EntryLastAccessedTime::decode(le_u16(b, 18)),
                cluster_high: le_u16(b, 20),
                modified: EntryModificationTime::decode(le_u16(b, 22), le_u16(b, 24)),
                cluster_low: le_u16(b, 26),
                file_size: le_u32(b, 28),
            },
        )
    }

    fn write_into(&self, out: &mut [u8]) {
        put_bytes(out, 0, &self.sfn.name);
        let ghost s1 = out@;
        put_bytes(out, 8, &self.sfn.ext);
        let ghost s2 = out@;
        out[11] = self.attributes.0;
        out[12] = self._reserved;
        let (tenths, ctime, cdate) = self.created.encode();
        out[13] = tenths;
        put_u16(out, 14, ctime);
        put_u16(out, 16, cdate);
        put_u16(out, 18, self.accessed.encode());
        put_u16(out, 20, self.cluster_high);
        let (mtime, mdate) = self.modified.encode();
        put_u16(out, 22, mtime);
        put_u16(out, 24, mdate);
        put_u16(out, 26, self.cluster_low);
        put_u32(out, 28, self.file_size);
        proof {
            assert(out@.subrange(0, 8) =~= s1.subrange(0, 8));
            assert(out@.subrange(8, 11) =~= s2.subrange(8, 11));
        }
    }

    proof fn law_decode_unique(a: Self, c: Self, b: Seq<u8>) {
        assert(a.sfn.name =~= c.sfn.name);
        assert(a.sfn.ext =~= c.sfn.ext);
    }

    proof fn law_fixed_point(a: Self, src: Seq<u8>, b: Seq<u8>) {
        law_creation_stable(src[13] as int, le16(src, 14), le16(src, 16));
        law_accessed_stable(le16(src, 18));
        law_modification_stable(le16(src, 22), le16(src, 24));
    }

    proof fn law_encode_unique(a: Self, b: Seq<u8>, c: Seq<u8>) {
        lemma_subrange_pointwise(b, c, 0, 8);
        lemma_subrange_pointwise(b, c, 8, 11);
        lemma_le_injective(b, c, 14);
        lemma_le_injective(b, c, 16);
        lemma_le_injective(b, c, 18);
        lemma_le_injective(b, c, 20);
        lemma_le_injective(b, c, 22);
        lemma_le_injective(b, c, 24);
        lemma_le_injective(b, c, 26);
        lemma_le_injective(b, c, 28);
        assert(b.subrange(0, 32) =~= c.subrange(0, 32));
    }
}

} // verus!
