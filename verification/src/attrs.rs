//! File attribute flags shared by classic FAT and exFAT.
//!
//! The public surface is the bool-field [`Attributes`] struct. On disk both
//! formats use the same low-byte layout (`READ_ONLY=0x01` … `ARCHIVE=0x20`);
//! [`AttrBits`] is the mask used when packing and unpacking.

use vstd::prelude::*;

verus! {

/// User-visible attribute flags (directory-ness lives on the metadata).
#[derive(Debug, Clone, Copy, PartialEq, Eq, Structural)]
pub struct Attributes {
    /// Read-only; writes should fail.
    pub read_only: bool,
    /// Hidden unless explicitly requested.
    pub hidden: bool,
    /// System file; often hidden unless explicitly requested.
    pub system: bool,
    /// Archive (modified since last backup); only concerns archival software.
    pub archive: bool,
}

impl Default for Attributes {
    fn default() -> (r: Self)
        ensures
            !r.read_only && !r.hidden && !r.system && !r.archive,
    {
        Attributes { read_only: false, hidden: false, system: false, archive: false }
    }
}

/// On-disk attribute mask. Unknown/reserved high bits are preserved.
#[derive(Debug, Clone, Copy, PartialEq, Eq, Structural)]
pub struct AttrBits(pub u16);

pub const READ_ONLY: u16 = 0x0001;

pub const HIDDEN: u16 = 0x0002;

pub const SYSTEM: u16 = 0x0004;

pub const VOLUME_ID: u16 = 0x0008;

pub const DIRECTORY: u16 = 0x0010;

pub const ARCHIVE: u16 = 0x0020;

/// LFN slot marker: `READ_ONLY | HIDDEN | SYSTEM | VOLUME_ID`.
pub const LFN: u16 = 0x000F;

/// Every bit of `flag` is set in `mask`.
pub open spec fn has_bits(mask: u16, flag: u16) -> bool {
    mask & flag == flag
}

/// `mask` with the bits of `flag` set or cleared.
pub open spec fn with_bits(mask: u16, flag: u16, on: bool) -> u16 {
    if on {
        mask | flag
    } else {
        mask & !flag
    }
}

/// The attribute mask that stands for `a`, with the directory bit as given.
pub open spec fn packed_attributes(a: Attributes, is_dir: bool) -> u16 {
    let m = with_bits(0, READ_ONLY, a.read_only);
    let m = with_bits(m, HIDDEN, a.hidden);
    let m = with_bits(m, SYSTEM, a.system);
    let m = with_bits(m, ARCHIVE, a.archive);
    with_bits(m, DIRECTORY, is_dir)
}

/// The user-visible flags of an on-disk mask.
pub open spec fn unpacked_attributes(mask: u16) -> Attributes {
    Attributes {
        read_only: has_bits(mask, READ_ONLY),
        hidden: has_bits(mask, HIDDEN),
        system: has_bits(mask, SYSTEM),
        archive: has_bits(mask, ARCHIVE),
    }
}

impl AttrBits {
    #[inline]
    pub fn empty() -> (r: Self)
        ensures
            r.0 == 0,
    {
        AttrBits(0)
    }

    #[inline]
    pub fn from_u8(bits: u8) -> (r: Self)
        ensures
            r.0 == bits,
    {
        AttrBits(bits as u16)
    }

    #[inline]
    pub fn from_u16(bits: u16) -> (r: Self)
        ensures
            r.0 == bits,
    {
        AttrBits(bits)
    }

    /// On-disk FAT attribute byte — FAT stores only the low byte of the
    /// shared mask (every FAT bit is ≤ `0x3F`; high bits are exFAT-only).
    #[inline]
    pub fn as_u8(self) -> (r: u8)
        ensures
            r as int == self.0 % 0x100,
    {
        (self.0 % 0x100) as u8
    }

    /// On-disk `u16` mask (exFAT attribute field).
    #[inline]
    pub fn bits(self) -> (r: u16)
        ensures
            r == self.0,
    {
        self.0
    }

    /// `true` if every bit in `flag` is set.
    #[inline]
    pub fn contains(self, flag: u16) -> (r: bool)
        ensures
            r == has_bits(self.0, flag),
    {
        self.0 & flag == flag
    }

    #[inline]
    pub fn set(&mut self, flag: u16, on: bool)
        ensures
            final(self).0 == with_bits(old(self).0, flag, on),
    {
        if on {
            self.0 = self.0 | flag;
        } else {
            self.0 = self.0 & !flag;
        }
    }

    pub fn from_attributes(attributes: Attributes, is_dir: bool) -> (r: Self)
        ensures
            r.0 == packed_attributes(attributes, is_dir),
    {
        let mut raw = AttrBits::empty();
        raw.set(READ_ONLY, attributes.read_only);
        raw.set(HIDDEN, attributes.hidden);
        raw.set(SYSTEM, attributes.system);
        raw.set(ARCHIVE, attributes.archive);
        raw.set(DIRECTORY, is_dir);
        raw
    }

    pub fn to_attributes(self) -> (r: Attributes)
        ensures
            r == unpacked_attributes(self.0),
    {
        Attributes {
            read_only: self.contains(READ_ONLY),
            hidden: self.contains(HIDDEN),
            system: self.contains(SYSTEM),
            archive: self.contains(ARCHIVE),
        }
    }

    #[inline]
    pub fn is_dir(self) -> (r: bool)
        ensures
            r == has_bits(self.0, DIRECTORY),
    {
        self.contains(DIRECTORY)
    }
}

/// Unpacking a packed mask gives the flags back, and the directory bit says
/// what it was packed with. A packed mask fits the FAT attribute byte.
pub proof fn law_attributes_round_trip(a: Attributes, is_dir: bool)
    ensures
        unpacked_attributes(packed_attributes(a, is_dir)) == a,
        has_bits(packed_attributes(a, is_dir), DIRECTORY) == is_dir,
        !has_bits(packed_attributes(a, is_dir), VOLUME_ID),
        packed_attributes(a, is_dir) <= 0x3F,
{
    let (r, h, s, c) = (a.read_only, a.hidden, a.system, a.archive);
    assert({
        let m0 = if r { 0u16 | 0x0001u16 } else { 0u16 & !0x0001u16 };
        let m1 = if h { m0 | 0x0002u16 } else { m0 & !0x0002u16 };
        let m2 = if s { m1 | 0x0004u16 } else { m1 & !0x0004u16 };
        let m3 = if c { m2 | 0x0020u16 } else { m2 & !0x0020u16 };
        let m = if is_dir { m3 | 0x0010u16 } else { m3 & !0x0010u16 };
        &&& (m & 0x0001u16 == 0x0001u16) == r
        &&& (m & 0x0002u16 == 0x0002u16) == h
        &&& (m & 0x0004u16 == 0x0004u16) == s
        &&& (m & 0x0020u16 == 0x0020u16) == c
        &&& (m & 0x0010u16 == 0x0010u16) == is_dir
        &&& m & 0x0008u16 != 0x0008u16
        &&& m <= 0x3F
    }) by (bit_vector);
}

} // verus!
