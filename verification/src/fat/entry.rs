//! Directory entry properties and the slot runs that store them.

use vstd::prelude::*;

use super::dir_slots::SlotChain;
use super::sfn::{as_sfn, exact_sfn};
use crate::bytes::le16;
use crate::calendar::{Date, PrimitiveDateTime};
use crate::codec::{put_u16, FixedCodec};
use crate::codec::fat::dir_entry::{RawAttributes, RawDirEntry, RAW_DIRECTORY, RAW_LFN};
use crate::codec::fat::entry_time::{
    EntryCreationTime, EntryLastAccessedTime, EntryModificationTime,
};
use crate::codec::fat::sfn_layout::{sfn_checksum_of, Sfn};
use crate::codec::fat::types::{ClusterIndex, FileSize};
use crate::text::{encode_utf16, utf16_of};

verus! {

/// The subset of entry fields needed to write a slot set to disk.
#[derive(Debug)]
pub struct MinProperties {
    pub name: String,
    pub sfn: Sfn,
    pub attributes: RawAttributes,
    pub created: Option<PrimitiveDateTime>,
    pub modified: PrimitiveDateTime,
    pub accessed: Option<Date>,
    pub file_size: FileSize,
    pub data_cluster: ClusterIndex,
    /// `DIR_NTRes` (byte 12) preserved through rewrites: lowercase-name/ext
    /// bits (0x08/0x10) are stored there for LFN-less aliases.
    pub nt_res: u8,
    /// `Some(raw)` on FAT12/16, where bytes 20-21 are NOT a cluster-high
    /// word but the OS/2/NT EA handle — written back verbatim. `None` on
    /// FAT32 (recomputed from `data_cluster`).
    pub ea_handle: Option<u16>,
}

/// A fully parsed directory entry, before it is bound to a path.
#[derive(Debug)]
pub struct RawProperties {
    pub name: String,
    pub sfn: Sfn,
    pub is_dir: bool,
    pub attributes: RawAttributes,
    pub created: Option<PrimitiveDateTime>,
    pub modified: PrimitiveDateTime,
    pub accessed: Option<Date>,
    pub file_size: FileSize,
    pub data_cluster: ClusterIndex,
    /// See [`MinProperties::nt_res`].
    pub nt_res: u8,
    /// See [`MinProperties::ea_handle`].
    pub ea_handle: Option<u16>,
    pub chain: SlotChain,
}

/// What a directory entry says, with the name as a sequence of characters.
pub struct FatFields {
    pub name: Seq<char>,
    pub sfn: Sfn,
    pub is_dir: bool,
    pub attributes: u8,
    pub created: Option<PrimitiveDateTime>,
    pub modified: PrimitiveDateTime,
    pub accessed: Option<Date>,
    pub file_size: u32,
    pub data_cluster: u32,
    pub nt_res: u8,
    pub ea_handle: Option<u16>,
    pub chain: SlotChain,
}

impl FatFields {
    /// The stamps are real, and the slots have offsets.
    pub open spec fn wf(self) -> bool {
        &&& self.created matches Some(t) ==> t.wf()
        &&& self.modified.wf()
        &&& self.accessed matches Some(d) ==> d.wf()
        &&& self.chain.first.wf()
    }
}

/// The fields stored in a slot set, with the name as characters.
pub struct MinFields {
    pub name: Seq<char>,
    pub sfn: Sfn,
    pub attributes: u8,
    pub created: Option<PrimitiveDateTime>,
    pub modified: PrimitiveDateTime,
    pub accessed: Option<Date>,
    pub file_size: u32,
    pub data_cluster: u32,
    pub nt_res: u8,
    pub ea_handle: Option<u16>,
}

impl MinFields {
    pub open spec fn wf(self) -> bool {
        &&& self.created matches Some(t) ==> t.wf()
        &&& self.modified.wf()
        &&& self.accessed matches Some(d) ==> d.wf()
    }

    /// The entry that these fields make at the given place.
    pub open spec fn at(self, chain: SlotChain) -> FatFields {
        FatFields {
            name: self.name,
            sfn: self.sfn,
            is_dir: self.attributes & RAW_DIRECTORY == RAW_DIRECTORY,
            attributes: self.attributes,
            created: self.created,
            modified: self.modified,
            accessed: self.accessed,
            file_size: self.file_size,
            data_cluster: self.data_cluster,
            nt_res: self.nt_res,
            ea_handle: self.ea_handle,
            chain,
        }
    }
}

impl FatFields {
    /// The fields stored in the entry's slots.
    pub open spec fn min(self) -> MinFields {
        MinFields {
            name: self.name,
            sfn: self.sfn,
            attributes: self.attributes,
            created: self.created,
            modified: self.modified,
            accessed: self.accessed,
            file_size: self.file_size,
            data_cluster: self.data_cluster,
            nt_res: self.nt_res,
            ea_handle: self.ea_handle,
        }
    }
}

impl View for MinProperties {
    type V = MinFields;

    open spec fn view(&self) -> MinFields {
        MinFields {
            name: self.name@,
            sfn: self.sfn,
            attributes: self.attributes.0,
            created: self.created,
            modified: self.modified,
            accessed: self.accessed,
            file_size: self.file_size,
            data_cluster: self.data_cluster,
            nt_res: self.nt_res,
            ea_handle: self.ea_handle,
        }
    }
}

impl View for RawProperties {
    type V = FatFields;

    open spec fn view(&self) -> FatFields {
        FatFields {
            name: self.name@,
            sfn: self.sfn,
            is_dir: self.is_dir,
            attributes: self.attributes.0,
            created: self.created,
            modified: self.modified,
            accessed: self.accessed,
            file_size: self.file_size,
            data_cluster: self.data_cluster,
            nt_res: self.nt_res,
            ea_handle: self.ea_handle,
            chain: self.chain,
        }
    }
}

impl RawProperties {
    /// A copy of this entry.
    pub fn copied(&self) -> (r: Self)
        ensures
            r@ == self@,
    {
        RawProperties {
            name: self.name.clone(),
            sfn: self.sfn,
            is_dir: self.is_dir,
            attributes: self.attributes,
            created: self.created,
            modified: self.modified,
            accessed: self.accessed,
            file_size: self.file_size,
            data_cluster: self.data_cluster,
            nt_res: self.nt_res,
            ea_handle: self.ea_handle,
            chain: self.chain,
        }
    }

    /// The fields stored in the entry's slots.
    pub fn min_properties(&self) -> (r: MinProperties)
        ensures
            r@ == self@.min(),
    {
        MinProperties {
            name: self.name.clone(),
            sfn: self.sfn,
            attributes: self.attributes,
            created: self.created,
            modified: self.modified,
            accessed: self.accessed,
            file_size: self.file_size,
            data_cluster: self.data_cluster,
            nt_res: self.nt_res,
            ea_handle: self.ea_handle,
        }
    }

    /// The entry that `props` make at the given place.
    pub fn from_chain(props: MinProperties, chain: SlotChain) -> (r: Self)
        ensures
            r@ == props@.at(chain),
    {
        let is_dir: bool = props.attributes.contains(RAW_DIRECTORY);
        RawProperties {
            name: props.name,
            sfn: props.sfn,
            is_dir,
            attributes: props.attributes,
            created: props.created,
            modified: props.modified,
            accessed: props.accessed,
            file_size: props.file_size,
            data_cluster: props.data_cluster,
            nt_res: props.nt_res,
            ea_handle: props.ea_handle,
            chain,
        }
    }
}

/// The short-name record of an entry. On FAT12/16 bytes 20-21 are the EA
/// handle, kept verbatim; on FAT32 the high half of the cluster number.
pub open spec fn sfn_record(p: MinFields) -> RawDirEntry {
    RawDirEntry {
        sfn: p.sfn,
        attributes: RawAttributes(p.attributes),
        _reserved: p.nt_res,
        created: EntryCreationTime(p.created),
        accessed: EntryLastAccessedTime(p.accessed),
        cluster_high: match p.ea_handle {
            Some(h) => h,
            None => (p.data_cluster / 0x1_0000) as u16,
        },
        modified: EntryModificationTime(Some(p.modified)),
        cluster_low: (p.data_cluster % 0x1_0000) as u16,
        file_size: p.file_size,
    }
}

/// The 32 bytes of a short-name record.
pub open spec fn record_image(rec: RawDirEntry) -> Seq<u8> {
    choose|b: Seq<u8>| b.len() == 32 && rec.encoded_as(b)
}

impl MinProperties {
    /// The short-name record of this entry.
    pub fn record(&self) -> (r: RawDirEntry)
        ensures
            r == sfn_record(self@),
    {
        RawDirEntry {
            sfn: self.sfn,
            attributes: self.attributes,
            _reserved: self.nt_res,
            created: EntryCreationTime(self.created),
            accessed: EntryLastAccessedTime(self.accessed),
            cluster_high: match self.ea_handle {
                Some(h) => h,
                None => (self.data_cluster / 0x1_0000) as u16,
            },
            modified: EntryModificationTime(Some(self.modified)),
            cluster_low: (self.data_cluster % 0x1_0000) as u16,
            file_size: self.file_size,
        }
    }

    /// The 32 bytes of this entry's short-name record.
    pub fn record_bytes(&self) -> (r: [u8; 32])
        requires
            self@.wf(),
        ensures
            r@ == record_image(sfn_record(self@)),
            sfn_record(self@).encoded_as(r@),
    {
        let rec = self.record();
        let mut bytes: [u8; 32] = [0u8;32];
        rec.write_into(&mut bytes);
        proof {
            lemma_record_image(rec, bytes@);
        }
        bytes
    }
}

/// A record has one image.
pub proof fn lemma_record_image(rec: RawDirEntry, b: Seq<u8>)
    requires
        b.len() == 32,
        rec.encoded_as(b),
    ensures
        b == record_image(rec),
{
    let img = record_image(rec);
    RawDirEntry::law_encode_unique(rec, b, img);
    assert(b.subrange(0, 32) =~= b);
    assert(img.subrange(0, 32) =~= img);
}

/// The unit at place `k` of a long-name slot: the name's units, then one
/// NUL, then `0xFFFF`.
pub open spec fn lfn_padded_unit(units: Seq<u16>, k: int) -> u16 {
    if k < units.len() {
        units[k]
    } else if k == units.len() {
        0
    } else {
        0xFFFF
    }
}

/// Byte offset of unit `k` in a long-name slot.
pub open spec fn lfn_unit_pos(k: int) -> int {
    if k < 5 {
        1 + 2 * k
    } else if k < 11 {
        14 + 2 * (k - 5)
    } else {
        28 + 2 * (k - 11)
    }
}

/// `b` is the long-name slot with the given units, order byte and checksum.
pub open spec fn is_lfn_slot(b: Seq<u8>, units: Seq<u16>, order: u8, checksum: u8) -> bool {
    &&& b.len() == 32
    &&& b[0] == order
    &&& b[11] == RAW_LFN
    &&& b[12] == 0
    &&& b[13] == checksum
    &&& b[26] == 0
    &&& b[27] == 0
    &&& forall|k: int|
        0 <= k < 13 ==> le16(b, #[trigger] lfn_unit_pos(k)) == lfn_padded_unit(units, k)
}

/// The long-name slot with the given units, order byte and checksum.
pub open spec fn lfn_slot_bytes(units: Seq<u16>, order: u8, checksum: u8) -> Seq<u8> {
    choose|b: Seq<u8>| is_lfn_slot(b, units, order, checksum)
}

/// There is one such slot.
pub proof fn lemma_lfn_slot_unique(
    a: Seq<u8>,
    b: Seq<u8>,
    units: Seq<u16>,
    order: u8,
    checksum: u8,
)
    requires
        is_lfn_slot(a, units, order, checksum),
        is_lfn_slot(b, units, order, checksum),
    ensures
        a == b,
{
    assert forall|i: int| 0 <= i < 32 implies a[i] == b[i] by {
        if i == 0 || i == 11 || i == 12 || i == 13 || i == 26 || i == 27 {
        } else {
            let k = if i < 11 {
                (i - 1) / 2
            } else if i < 26 {
                5 + (i - 14) / 2
            } else {
                11 + (i - 28) / 2
            };
            let p = lfn_unit_pos(k);
            assert(0 <= k < 13);
            assert(p == i || p + 1 == i);
            assert(le16(a, lfn_unit_pos(k)) == lfn_padded_unit(units, k));
            assert(le16(b, lfn_unit_pos(k)) == lfn_padded_unit(units, k));
            crate::bytes::lemma_le_injective(a, b, p);
        }
    }
    assert(a =~= b);
}

/// The units of group `g` of a long name: thirteen each.
pub open spec fn lfn_group(units: Seq<u16>, g: int) -> Seq<u16> {
    units.subrange(
        13 * g,
        if 13 * g + 13 < units.len() {
            13 * g + 13
        } else {
            units.len() as int
        },
    )
}

/// Number of groups of a long name of `n` units.
pub open spec fn lfn_groups(n: int) -> int {
    (n + 12) / 13
}

/// The order byte of group `g` of `n`: numbered from 1, the last one flagged.
pub open spec fn lfn_order(g: int, n: int) -> u8 {
    let number: u8 = if g + 1 > 255 {
        255
    } else {
        (g + 1) as u8
    };
    if g + 1 == n {
        number | 0x40
    } else {
        number
    }
}

/// The entry needs a long name: its short name does not say it exactly.
pub open spec fn needs_lfn(p: MinFields) -> bool {
    exact_sfn(p.name) != Some(p.sfn.raw())
}

/// The slots of an entry: the long-name slots, highest order first, and the
/// short-name record.
pub open spec fn entry_slots(p: MinFields) -> Seq<Seq<u8>> {
    let units = utf16_of(p.name);
    let n = if needs_lfn(p) {
        lfn_groups(units.len() as int)
    } else {
        0
    };
    Seq::new(
        (n + 1) as nat,
        |i: int|
            if i == n {
                record_image(sfn_record(p))
            } else {
                lfn_slot_bytes(
                    lfn_group(units, n - 1 - i),
                    lfn_order(n - 1 - i, n),
                    sfn_checksum_of(p.sfn.raw()) as u8,
                )
            },
    )
}

/// The bytes of a list of slots.
pub open spec fn slots_view(v: Seq<[u8; 32]>) -> Seq<Seq<u8>> {
    Seq::new(v.len(), |i: int| v[i]@)
}

/// Assemble one Long-File-Name slot from up to 13 UCS-2 units. A short final
/// run is NUL-terminated and then 0xFFFF-padded.
fn lfn_slot(units: &[u16], order: u8, checksum: u8) -> (r: [u8; 32])
    requires
        units@.len() <= 13,
    ensures
        r@ == lfn_slot_bytes(units@, order, checksum),
        is_lfn_slot(r@, units@, order, checksum),
{
    let mut b: [u8; 32] = [0u8;32];
    b[0] = order;
    b[11] = RAW_LFN;
    b[13] = checksum;
    let mut k: usize = 0;
    while k < 13
        invariant
            k <= 13,
            units@.len() <= 13,
            b@.len() == 32,
            b@[0] == order,
            b@[11] == RAW_LFN,
            b@[12] == 0,
            b@[13] == checksum,
            b@[26] == 0,
            b@[27] == 0,
            forall|j: int|
                0 <= j < k ==> le16(b@, #[trigger] lfn_unit_pos(j)) == lfn_padded_unit(units@, j),
        decreases 13 - k,
    {
        let unit: u16 = if k < units.len() {
            units[k]
        } else if k == units.len() {
            0
        } else {
            0xFFFF
        };
        let pos: usize = if k < 5 {
            1 + 2 * k
        } else if k < 11 {
            14 + 2 * (k - 5)
        } else {
            28 + 2 * (k - 11)
        };
        let ghost before = b@;
        put_u16(&mut b, pos, unit);
        proof {
            assert(pos == lfn_unit_pos(k as int));
            assert forall|j: int| 0 <= j < k + 1 implies le16(b@, #[trigger] lfn_unit_pos(j))
                == lfn_padded_unit(units@, j) by {
                if j < k {
                    assert(le16(before, lfn_unit_pos(j)) == lfn_padded_unit(units@, j));
                    assert(b@[lfn_unit_pos(j)] == before[lfn_unit_pos(j)]);
                    assert(b@[lfn_unit_pos(j) + 1] == before[lfn_unit_pos(j) + 1]);
                }
            }
        }
        k += 1;
    }
    proof {
        lemma_lfn_slot_unique(
            b@,
            lfn_slot_bytes(units@, order, checksum),
            units@,
            order,
            checksum,
        );
    }
    b
}

/// Build the on-disk slot run for one entry: the LFN slots (highest order
/// first) followed by the SFN slot. A name that fits 8.3 with no case
/// conflict yields the SFN slot only.
pub fn compose_entry(props: &MinProperties) -> (slots: Vec<[u8; 32]>)
    requires
        props@.wf(),
    ensures
        slots_view(slots@) == entry_slots(props@),
        slots@.len() >= 1,
{
    let sfn_bytes: [u8; 32] = props.record_bytes();
    let mut slots: Vec<[u8; 32]> = Vec::new();
    let exact: bool = match as_sfn(props.name.as_str()) {
        Some(sfn) => sfn.same(&props.sfn),
        None => false,
    };
    let ghost p = props@;
    if exact {
        assert(!needs_lfn(p));
        slots.push(sfn_bytes);
        assert(slots_view(slots@) =~= entry_slots(p));
        return slots;
    }
    assert(needs_lfn(p));
    let checksum: u8 = props.sfn.gen_checksum();
    let units: Vec<u16> = encode_utf16(props.name.as_str());
    let len: usize = units.len();
    let groups: usize = len / 13 + (if len % 13 == 0 {
        0
    } else {
        1usize
    });
    assert(groups == lfn_groups(len as int));
    // Emit LFN slots highest-order-first so they precede the SFN on disk.
    let mut i: usize = 0;
    while i < groups
        invariant
            p == props@,
            needs_lfn(p),
            units@ == utf16_of(p.name),
            len == units@.len(),
            groups == lfn_groups(len as int),
            checksum == sfn_checksum_of(p.sfn.raw()),
            i <= groups,
            slots@.len() == i,
            forall|k: int|
                0 <= k < i ==> (#[trigger] slots@[k])@ == lfn_slot_bytes(
                    lfn_group(units@, groups - 1 - k),
                    lfn_order(groups - 1 - k, groups as int),
                    checksum,
                ),
        decreases groups - i,
    {
        let g: usize = groups - 1 - i;
        let from: usize = 13 * g;
        let to: usize = if len - from < 13 {
            len
        } else {
            from + 13
        };
        let number: u8 = if g + 1 > 255 {
            255
        } else {
            (g + 1) as u8
        };
        let order: u8 = if i == 0 {
            number | 0x40
        } else {
            number
        };
        let group: &[u16] = &units.as_slice()[from..to];
        assert(group@ =~= lfn_group(units@, g as int));
        slots.push(lfn_slot(group, order, checksum));
        i += 1;
    }
    slots.push(sfn_bytes);
    assert(slots_view(slots@) =~= entry_slots(p));
    slots
}

} // verus!
