//! Pure LFN entry layout.

use vstd::prelude::*;

use crate::bytes::{le16, lemma_subrange_pointwise};
use crate::codec::{bytes, le_u16, put_bytes, FixedCodec};
use crate::codec::fat::DIRENTRY_SIZE;

verus! {

#[derive(Debug, Clone, Copy)]
pub struct LfnEntry {
    /// Bit `0x40` (`LAST_LONG_ENTRY`) is set on the final entry of the set.
    pub order: u8,
    pub first_chars: [u8; 10],
    /// Always equals 0x0F.
    pub _lfn_attribute: u8,
    /// Always 0 on a valid entry.
    pub _long_entry_type: u8,
    /// Checksum of the paired SFN.
    pub checksum: u8,
    pub mid_chars: [u8; 12],
    pub _zeroed: [u8; 2],
    pub last_chars: [u8; 4],
}

impl LfnEntry {
    /// Field by field, where each value of the entry stands in its image.
    pub open spec fn layout(self, b: Seq<u8>) -> bool {
        &&& self.order == b[0]
        &&& self.first_chars@ == b.subrange(1, 11)
        &&& self._lfn_attribute == b[11]
        &&& self._long_entry_type == b[12]
        &&& self.checksum == b[13]
        &&& self.mid_chars@ == b.subrange(14, 26)
        &&& self._zeroed@ == b.subrange(26, 28)
        &&& self.last_chars@ == b.subrange(28, 32)
    }

    /// The three character runs of the entry, one after the other.
    pub open spec fn char_bytes(self) -> Seq<u8> {
        self.first_chars@ + self.mid_chars@ + self.last_chars@
    }

    /// The UTF-16 unit at place `k` of the entry.
    pub open spec fn unit(self, k: int) -> int {
        le16(self.char_bytes(), 2 * k)
    }

    pub fn utf16_units(&self) -> (r: [u16; 13])
        ensures
            forall|k: int| 0 <= k < 13 ==> #[trigger] r@[k] == self.unit(k),
    {
        let mut out: [u16; 13] = [0u16;13];
        let mut i: usize = 0;
        while i < 13
            invariant
                i <= 13,
                forall|k: int| 0 <= k < i ==> #[trigger] out@[k] == self.unit(k),
            decreases 13 - i,
        {
            let unit: u16 = if i < 5 {
                le_u16(&self.first_chars, 2 * i)
            } else if i < 11 {
                le_u16(&self.mid_chars, 2 * (i - 5))
            } else {
                le_u16(&self.last_chars, 2 * (i - 11))
            };
            out[i] = unit;
            i += 1;
        }
        out
    }

    #[inline]
    pub fn verify_signature(&self) -> (r: bool)
        ensures
            r <==> self._long_entry_type == 0 && self._zeroed@[0] == 0 && self._zeroed@[1] == 0,
    {
        self._long_entry_type == 0 && self._zeroed[0] == 0 && self._zeroed[1] == 0
    }
}

impl FixedCodec for LfnEntry {
    open spec fn record_len() -> nat {
        32
    }

    open spec fn accepts(b: Seq<u8>) -> bool {
        true
    }

    open spec fn decoded_from(self, b: Seq<u8>) -> bool {
        self.layout(b)
    }

    open spec fn encoded_as(self, b: Seq<u8>) -> bool {
        self.layout(b)
    }

    open spec fn writable(self) -> bool {
        true
    }

    fn size() -> (n: usize) {
        DIRENTRY_SIZE
    }

    fn parse(b: &[u8]) -> (r: Option<Self>) {
        if b.len() < DIRENTRY_SIZE {
            return None;
        }
        Some(
            LfnEntry {
                order: b[0],
                first_chars: bytes(b, 1),
                _lfn_attribute: b[11],
                _long_entry_type: b[12],
                checksum: b[13],
                mid_chars: bytes(b, 14),
                _zeroed: bytes(b, 26),
                last_chars: bytes(b, 28),
            },
        )
    }

    fn write_into(&self, out: &mut [u8]) {
        out[0] = self.order;
        put_bytes(out, 1, &self.first_chars);
        let ghost s1 = out@;
        out[11] = self._lfn_attribute;
        out[12] = self._long_entry_type;
        out[13] = self.checksum;
        put_bytes(out, 14, &self.mid_chars);
        let ghost s2 = out@;
        put_bytes(out, 26, &self._zeroed);
        let ghost s3 = out@;
        put_bytes(out, 28, &self.last_chars);
        proof {
            assert(out@.subrange(1, 11) =~= s1.subrange(1, 11));
            assert(out@.subrange(14, 26) =~= s2.subrange(14, 26));
            assert(out@.subrange(26, 28) =~= s3.subrange(26, 28));
        }
    }

    proof fn law_decode_unique(a: Self, c: Self, b: Seq<u8>) {
        assert(a.first_chars =~= c.first_chars);
        assert(a.mid_chars =~= c.mid_chars);
        assert(a._zeroed =~= c._zeroed);
        assert(a.last_chars =~= c.last_chars);
    }

    proof fn law_fixed_point(a: Self, src: Seq<u8>, b: Seq<u8>) {
    }

    proof fn law_encode_unique(a: Self, b: Seq<u8>, c: Seq<u8>) {
        lemma_subrange_pointwise(b, c, 1, 11);
        lemma_subrange_pointwise(b, c, 14, 26);
        lemma_subrange_pointwise(b, c, 26, 28);
        lemma_subrange_pointwise(b, c, 28, 32);
        assert(b.subrange(0, 32) =~= c.subrange(0, 32));
    }
}

} // verus!
