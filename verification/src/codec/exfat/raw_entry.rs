//! On-disk exFAT directory-entry layouts (hand-coded fixed offsets).
//!
//! Every entry is exactly [`EXFAT_ENTRY_SIZE`] (32) bytes. Variable-length
//! names are a chain of [`ExfatFileNameEntry`] secondaries. The set checksum
//! lives outside these types (it spans the whole set).

use vstd::prelude::*;

use super::consts::{
    ENTRY_TYPE_FILE, ENTRY_TYPE_FILE_NAME, ENTRY_TYPE_STREAM_EXTENSION, EXFAT_ENTRY_SIZE,
    STREAM_FLAG_ALLOCATION_POSSIBLE, STREAM_FLAG_NO_FAT_CHAIN,
};
use crate::bytes::{
    le16, le32, le64, lemma_le64_injective, lemma_le_injective, lemma_subrange_pointwise,
    same_outside,
};
use crate::codec::{bytes, le_u16, le_u32, le_u64, put_bytes, put_u16, put_u32, put_u64, FixedCodec};

verus! {

/// Primary File entry (`0x85`) — attributes and timestamps for a file or directory.
#[derive(Debug, Clone, Copy, PartialEq, Eq)]
pub struct ExfatFileEntry {
    pub entry_type: u8,
    pub secondary_count: u8,
    pub set_checksum: u16,
    pub attributes: u16,
    pub _reserved1: u16,
    pub create_timestamp: u32,
    pub modified_timestamp: u32,
    pub accessed_timestamp: u32,
    pub create_10ms: u8,
    pub modified_10ms: u8,
    pub create_utc_offset: u8,
    pub modified_utc_offset: u8,
    pub accessed_utc_offset: u8,
    pub _reserved2: [u8; 7],
}

impl ExfatFileEntry {
    /// Field by field, where each value of the entry stands in its image.
    pub open spec fn layout(self, b: Seq<u8>) -> bool {
        &&& self.entry_type == b[0]
        &&& self.secondary_count == b[1]
        &&& self.set_checksum == le16(b, 2)
        &&& self.attributes == le16(b, 4)
        &&& self._reserved1 == le16(b, 6)
        &&& self.create_timestamp == le32(b, 8)
        &&& self.modified_timestamp == le32(b, 12)
        &&& self.accessed_timestamp == le32(b, 16)
        &&& self.create_10ms == b[20]
        &&& self.modified_10ms == b[21]
        &&& self.create_utc_offset == b[22]
        &&& self.modified_utc_offset == b[23]
        &&& self.accessed_utc_offset == b[24]
        &&& self._reserved2@ == b.subrange(25, 32)
    }

    pub fn new_zeroed(secondary_count: u8, attributes: u16) -> (r: Self)
        ensures
            r.entry_type == ENTRY_TYPE_FILE,
            r.secondary_count == secondary_count,
            r.attributes == attributes,
            r.set_checksum == 0 && r._reserved1 == 0,
            r.create_timestamp == 0 && r.modified_timestamp == 0 && r.accessed_timestamp == 0,
            r.create_10ms == 0 && r.modified_10ms == 0,
            r.create_utc_offset == 0 && r.modified_utc_offset == 0 && r.accessed_utc_offset == 0,
            r._reserved2@ == seq![0u8, 0u8, 0u8, 0u8, 0u8, 0u8, 0u8],
    {
        let zeros: [u8; 7] = [0u8;7];
        assert(zeros@ =~= seq![0u8, 0u8, 0u8, 0u8, 0u8, 0u8, 0u8]);
        ExfatFileEntry {
            entry_type: ENTRY_TYPE_FILE,
            secondary_count,
            set_checksum: 0,
            attributes,
            _reserved1: 0,
            create_timestamp: 0,
            modified_timestamp: 0,
            accessed_timestamp: 0,
            create_10ms: 0,
            modified_10ms: 0,
            create_utc_offset: 0,
            modified_utc_offset: 0,
            accessed_utc_offset: 0,
            _reserved2: zeros,
        }
    }
}

impl FixedCodec for ExfatFileEntry {
    open spec fn record_len() -> nat {
        32
    }

    open spec fn accepts(b: Seq<u8>) -> bool {
        b[0] == ENTRY_TYPE_FILE
    }

    open spec fn decoded_from(self, b: Seq<u8>) -> bool {
        self.layout(b)
    }

    open spec fn encoded_as(self, b: Seq<u8>) -> bool {
        self.layout(b)
    }

    open spec fn writable(self) -> bool {
        true
    }

    fn size() -> (n: usize) {
        EXFAT_ENTRY_SIZE
    }

    /// Decode from a 32-byte slice, or `None` if the type/size is wrong.
    fn parse(b: &[u8]) -> (r: Option<Self>) {
        if b.len() < EXFAT_ENTRY_SIZE || b[0] != ENTRY_TYPE_FILE {
            return None;
        }
        Some(
            ExfatFileEntry {
                entry_type: b[0],
                secondary_count: b[1],
                set_checksum: le_u16(b, 2),
                attributes: le_u16(b, 4),
                _reserved1: le_u16(b, 6),
                create_timestamp: le_u32(b, 8),
                modified_timestamp: le_u32(b, 12),
                accessed_timestamp: le_u32(b, 16),
                create_10ms: b[20],
                modified_10ms: b[21],
                create_utc_offset: b[22],
                modified_utc_offset: b[23],
                accessed_utc_offset: b[24],
                _reserved2: bytes(b, 25),
            },
        )
    }

    fn write_into(&self, out: &mut [u8]) {
        out[0] = self.entry_type;
        out[1] = self.secondary_count;
        put_u16(out, 2, self.set_checksum);
        put_u16(out, 4, self.attributes);
        put_u16(out, 6, self._reserved1);
        put_u32(out, 8, self.create_timestamp);
        put_u32(out, 12, self.modified_timestamp);
        put_u32(out, 16, self.accessed_timestamp);
        out[20] = self.create_10ms;
        out[21] = self.modified_10ms;
        out[22] = self.create_utc_offset;
        out[23] = self.modified_utc_offset;
        out[24] = self.accessed_utc_offset;
        put_bytes(out, 25, &self._reserved2);
    }

    proof fn law_decode_unique(a: Self, c: Self, b: Seq<u8>) {
        assert(a._reserved2 =~= c._reserved2);
    }

    proof fn law_fixed_point(a: Self, src: Seq<u8>, b: Seq<u8>) {
    }

    proof fn law_encode_unique(a: Self, b: Seq<u8>, c: Seq<u8>) {
        lemma_le_injective(b, c, 2);
        lemma_le_injective(b, c, 4);
        lemma_le_injective(b, c, 6);
        lemma_le_injective(b, c, 8);
        lemma_le_injective(b, c, 12);
        lemma_le_injective(b, c, 16);
        lemma_subrange_pointwise(b, c, 25, 32);
        assert(b.subrange(0, 32) =~= c.subrange(0, 32));
    }
}

/// Stream Extension secondary (`0xC0`) — allocation + name metadata.
#[derive(Debug, Clone, Copy, PartialEq, Eq, Structural)]
pub struct ExfatStreamExtension {
    pub entry_type: u8,
    pub general_secondary_flags: u8,
    pub _reserved1: u8,
    pub name_length: u8,
    pub name_hash: u16,
    pub _reserved2: u16,
    pub valid_data_length: u64,
    pub _reserved3: u32,
    pub first_cluster: u32,
    pub data_length: u64,
}

/// The `NoFatChain` bit of a flags byte.
pub open spec fn no_fat_chain_bit(flags: u8) -> bool {
    flags & STREAM_FLAG_NO_FAT_CHAIN != 0
}

/// `flags` with the `NoFatChain` bit set or cleared.
pub open spec fn with_no_fat_chain(flags: u8, on: bool) -> u8 {
    if on {
        flags | STREAM_FLAG_NO_FAT_CHAIN
    } else {
        flags & !STREAM_FLAG_NO_FAT_CHAIN
    }
}

/// Setting the `NoFatChain` bit makes it read as set and changes no other
/// bit; a fresh allocation flag byte does not carry it.
pub proof fn law_no_fat_chain_bit(flags: u8, on: bool)
    ensures
        no_fat_chain_bit(with_no_fat_chain(flags, on)) == on,
        with_no_fat_chain(flags, on) & !STREAM_FLAG_NO_FAT_CHAIN == flags
            & !STREAM_FLAG_NO_FAT_CHAIN,
        no_fat_chain_bit(flags) == on ==> with_no_fat_chain(flags, on) == flags,
        !no_fat_chain_bit(STREAM_FLAG_ALLOCATION_POSSIBLE),
{
    assert((flags | 0x02u8) & 0x02u8 != 0 && (flags & !0x02u8) & 0x02u8 == 0 && (flags | 0x02u8)
        & !0x02u8 == flags & !0x02u8 && (flags & !0x02u8) & !0x02u8 == flags & !0x02u8 && 0x01u8
        & 0x02u8 == 0 && (flags & 0x02u8 != 0 ==> flags | 0x02u8 == flags) && (flags & 0x02u8 == 0
        ==> flags & !0x02u8 == flags)) by (bit_vector);
}

impl ExfatStreamExtension {
    /// Field by field, where each value of the entry stands in its image.
    pub open spec fn layout(self, b: Seq<u8>) -> bool {
        &&& self.entry_type == b[0]
        &&& self.general_secondary_flags == b[1]
        &&& self._reserved1 == b[2]
        &&& self.name_length == b[3]
        &&& self.name_hash == le16(b, 4)
        &&& self._reserved2 == le16(b, 6)
        &&& self.valid_data_length == le64(b, 8)
        &&& self._reserved3 == le32(b, 16)
        &&& self.first_cluster == le32(b, 20)
        &&& self.data_length == le64(b, 24)
    }

    pub fn new(
        name_length: u8,
        first_cluster: u32,
        valid_data_length: u64,
        data_length: u64,
        no_fat_chain: bool,
    ) -> (r: Self)
        ensures
            r == (ExfatStreamExtension {
                entry_type: ENTRY_TYPE_STREAM_EXTENSION,
                general_secondary_flags: with_no_fat_chain(
                    STREAM_FLAG_ALLOCATION_POSSIBLE,
                    no_fat_chain,
                ),
                _reserved1: 0,
                name_length,
                name_hash: 0,
                _reserved2: 0,
                valid_data_length,
                _reserved3: 0,
                first_cluster,
                data_length,
            }),
            no_fat_chain_bit(r.general_secondary_flags) == no_fat_chain,
    {
        proof {
            law_no_fat_chain_bit(STREAM_FLAG_ALLOCATION_POSSIBLE, no_fat_chain);
        }
        let mut flags: u8 = STREAM_FLAG_ALLOCATION_POSSIBLE;
        if no_fat_chain {
            flags = flags | STREAM_FLAG_NO_FAT_CHAIN;
        }
        ExfatStreamExtension {
            entry_type: ENTRY_TYPE_STREAM_EXTENSION,
            general_secondary_flags: flags,
            _reserved1: 0,
            name_length,
            name_hash: 0,
            _reserved2: 0,
            valid_data_length,
            _reserved3: 0,
            first_cluster,
            data_length,
        }
    }

    #[inline]
    pub fn no_fat_chain(self) -> (r: bool)
        ensures
            r == no_fat_chain_bit(self.general_secondary_flags),
    {
        self.general_secondary_flags & STREAM_FLAG_NO_FAT_CHAIN != 0
    }

    pub fn set_no_fat_chain(&mut self, on: bool)
        ensures
            *final(self) == (ExfatStreamExtension {
                general_secondary_flags: with_no_fat_chain(
                    old(self).general_secondary_flags,
                    on,
                ),
                ..*old(self)
            }),
    {
        if on {
            self.general_secondary_flags = self.general_secondary_flags
                | STREAM_FLAG_NO_FAT_CHAIN;
        } else {
            self.general_secondary_flags = self.general_secondary_flags
                & !STREAM_FLAG_NO_FAT_CHAIN;
        }
    }
}

impl FixedCodec for ExfatStreamExtension {
    open spec fn record_len() -> nat {
        32
    }

    open spec fn accepts(b: Seq<u8>) -> bool {
        b[0] == ENTRY_TYPE_STREAM_EXTENSION
    }

    open spec fn decoded_from(self, b: Seq<u8>) -> bool {
        self.layout(b)
    }

    open spec fn encoded_as(self, b: Seq<u8>) -> bool {
        self.layout(b)
    }

    open spec fn writable(self) -> bool {
        true
    }

    fn size() -> (n: usize) {
        EXFAT_ENTRY_SIZE
    }

    fn parse(b: &[u8]) -> (r: Option<Self>) {
        if b.len() < EXFAT_ENTRY_SIZE || b[0] != ENTRY_TYPE_STREAM_EXTENSION {
            return None;
        }
        Some(
            ExfatStreamExtension {
                entry_type: b[0],
                general_secondary_flags: b[1],
                _reserved1: b[2],
                name_length: b[3],
                name_hash: le_u16(b, 4),
                _reserved2: le_u16(b, 6),
                valid_data_length: le_u64(b, 8),
                _reserved3: le_u32(b, 16),
                first_cluster: le_u32(b, 20),
                data_length: le_u64(b, 24),
            },
        )
    }

    fn write_into(&self, out: &mut [u8]) {
        out[0] = self.entry_type;
        out[1] = self.general_secondary_flags;
        out[2] = self._reserved1;
        out[3] = self.name_length;
        put_u16(out, 4, self.name_hash);
        put_u16(out, 6, self._reserved2);
        put_u64(out, 8, self.valid_data_length);
        put_u32(out, 16, self._reserved3);
        put_u32(out, 20, self.first_cluster);
        put_u64(out, 24, self.data_length);
    }

    proof fn law_decode_unique(a: Self, c: Self, b: Seq<u8>) {
    }

    proof fn law_fixed_point(a: Self, src: Seq<u8>, b: Seq<u8>) {
    }

    proof fn law_encode_unique(a: Self, b: Seq<u8>, c: Seq<u8>) {
        lemma_le_injective(b, c, 4);
        lemma_le_injective(b, c, 6);
        lemma_le_injective(b, c, 16);
        lemma_le_injective(b, c, 20);
        lemma_le64_injective(b, c, 8);
        lemma_le64_injective(b, c, 24);
        assert(b.subrange(0, 32) =~= c.subrange(0, 32));
    }
}

/// File Name secondary (`0xC1`) — up to 15 UCS-2 units.
#[derive(Debug, Clone, Copy, PartialEq, Eq)]
pub struct ExfatFileNameEntry {
    pub entry_type: u8,
    pub general_secondary_flags: u8,
    pub name: [u16; 15],
}

/// The unit a name piece holds at `k`: those of `units`, then zeros.
pub open spec fn padded_unit(units: Seq<u16>, k: int) -> u16 {
    if k < units.len() {
        units[k]
    } else {
        0
    }
}

impl ExfatFileNameEntry {
    /// Where each value of the entry stands in its image.
    pub open spec fn layout(self, b: Seq<u8>) -> bool {
        &&& self.entry_type == b[0]
        &&& self.general_secondary_flags == b[1]
        &&& forall|k: int| 0 <= k < 15 ==> #[trigger] self.name@[k] == le16(b, 2 + 2 * k)
    }

    pub fn from_units(units: &[u16]) -> (r: Self)
        ensures
            r.entry_type == ENTRY_TYPE_FILE_NAME,
            r.general_secondary_flags == 0,
            forall|k: int| 0 <= k < 15 ==> #[trigger] r.name@[k] == padded_unit(units@, k),
    {
        let mut name: [u16; 15] = [0u16;15];
        let mut i: usize = 0;
        while i < 15 && i < units.len()
            invariant
                i <= 15,
                i <= units@.len(),
                forall|k: int| 0 <= k < i ==> name@[k] == units@[k],
                forall|k: int| i <= k < 15 ==> name@[k] == 0,
            decreases 15 - i,
        {
            name[i] = units[i];
            i += 1;
        }
        ExfatFileNameEntry {
            entry_type: ENTRY_TYPE_FILE_NAME,
            general_secondary_flags: 0,
            name,
        }
    }
}

impl FixedCodec for ExfatFileNameEntry {
    open spec fn record_len() -> nat {
        32
    }

    open spec fn accepts(b: Seq<u8>) -> bool {
        b[0] == ENTRY_TYPE_FILE_NAME
    }

    open spec fn decoded_from(self, b: Seq<u8>) -> bool {
        self.layout(b)
    }

    open spec fn encoded_as(self, b: Seq<u8>) -> bool {
        self.layout(b)
    }

    open spec fn writable(self) -> bool {
        true
    }

    fn size() -> (n: usize) {
        EXFAT_ENTRY_SIZE
    }

    fn parse(b: &[u8]) -> (r: Option<Self>) {
        if b.len() < EXFAT_ENTRY_SIZE || b[0] != ENTRY_TYPE_FILE_NAME {
            return None;
        }
        let mut name: [u16; 15] = [0u16;15];
        let mut i: usize = 0;
        while i < 15
            invariant
                i <= 15,
                b@.len() >= 32,
                forall|k: int| 0 <= k < i ==> name@[k] == le16(b@, 2 + 2 * k),
            decreases 15 - i,
        {
            name[i] = le_u16(b, 2 + i * 2);
            i += 1;
        }
        Some(ExfatFileNameEntry { entry_type: b[0], general_secondary_flags: b[1], name })
    }

    fn write_into(&self, out: &mut [u8]) {
        out[0] = self.entry_type;
        out[1] = self.general_secondary_flags;
        let mut i: usize = 0;
        while i < 15
            invariant
                i <= 15,
                out@.len() >= 32,
                same_outside(out@, old(out)@, 0, 32),
                out@[0] == self.entry_type,
                out@[1] == self.general_secondary_flags,
                forall|k: int| 0 <= k < i ==> #[trigger] self.name@[k] == le16(out@, 2 + 2 * k),
            decreases 15 - i,
        {
            let ghost before = out@;
            put_u16(out, 2 + i * 2, self.name[i]);
            assert forall|k: int| 0 <= k < i implies #[trigger] self.name@[k] == le16(
                out@,
                2 + 2 * k,
            ) by {
                assert(self.name@[k] == le16(before, 2 + 2 * k));
            }
            i += 1;
        }
    }

    proof fn law_decode_unique(a: Self, c: Self, b: Seq<u8>) {
        assert forall|k: int| 0 <= k < 15 implies a.name@[k] == c.name@[k] by {
            assert(a.name@[k] == le16(b, 2 + 2 * k));
        }
        assert(a.name@ =~= c.name@);
        assert(a.name =~= c.name);
    }

    proof fn law_fixed_point(a: Self, src: Seq<u8>, b: Seq<u8>) {
    }

    proof fn law_encode_unique(a: Self, b: Seq<u8>, c: Seq<u8>) {
        assert forall|i: int| 0 <= i < 32 implies b[i] == c[i] by {
            if i >= 2 {
                let k = (i - 2) / 2;
                assert(a.name@[k] == le16(b, 2 + 2 * k));
                assert(a.name@[k] == le16(c, 2 + 2 * k));
                lemma_le_injective(b, c, 2 + 2 * k);
            }
        }
        assert(b.subrange(0, 32) =~= c.subrange(0, 32));
    }
}

/// Allocation Bitmap (`0x81`) / Up-case Table (`0x82`) primary. The
/// checksum field at offset 4 is meaningful only for the Up-case Table
/// (`TableChecksum`); it is reserved on the bitmap entry.
#[derive(Debug, Clone, Copy, PartialEq, Eq)]
pub struct ExfatClusteredMetaEntry {
    pub entry_type: u8,
    pub _reserved1: [u8; 3],
    /// Up-case Table `TableChecksum` (offset 4); reserved on the bitmap.
    pub table_checksum: u32,
    pub _reserved2: [u8; 12],
    pub first_cluster: u32,
    pub data_length: u64,
}

impl ExfatClusteredMetaEntry {
    /// Field by field, where each value of the entry stands in its image.
    pub open spec fn layout(self, b: Seq<u8>) -> bool {
        &&& self.entry_type == b[0]
        &&& self._reserved1@ == b.subrange(1, 4)
        &&& self.table_checksum == le32(b, 4)
        &&& self._reserved2@ == b.subrange(8, 20)
        &&& self.first_cluster == le32(b, 20)
        &&& self.data_length == le64(b, 24)
    }

    pub fn parse(b: &[u8]) -> (r: Option<Self>)
        ensures
            r is Some <==> b@.len() >= 32,
            r matches Some(v) ==> v.layout(b@),
    {
        if b.len() < EXFAT_ENTRY_SIZE {
            return None;
        }
        Some(
            ExfatClusteredMetaEntry {
                entry_type: b[0],
                _reserved1: bytes(b, 1),
                table_checksum: le_u32(b, 4),
                _reserved2: bytes(b, 8),
                first_cluster: le_u32(b, 20),
                data_length: le_u64(b, 24),
            },
        )
    }
}

/// One little-endian FAT entry word (4 bytes) on an exFAT volume.
#[derive(Debug, Clone, Copy, PartialEq, Eq, Structural)]
pub struct ExfatFatEntryWord(pub u32);

impl ExfatFatEntryWord {
    pub fn parse(bytes: &[u8; 4]) -> (r: Self)
        ensures
            r.0 == le32(bytes@, 0),
    {
        ExfatFatEntryWord(le_u32(bytes, 0))
    }

    pub fn encode(self) -> (r: [u8; 4])
        ensures
            le32(r@, 0) == self.0,
    {
        let mut out: [u8; 4] = [0u8;4];
        put_u32(&mut out, 0, self.0);
        out
    }
}

} // verus!
