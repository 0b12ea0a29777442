//! What the slots of an entry read back as: the name, whole, and the fields
//! of the short-name record.

use vstd::prelude::*;

use super::dir_slots::{SlotChain, SLOT_DELETED, SLOT_END};
use super::entry::{
    is_lfn_slot, lemma_record_image, lfn_group, lfn_groups, lfn_order, lfn_padded_unit,
    lfn_slot_bytes, lfn_unit_pos, record_image, sfn_record, MinFields,
};
use super::sfn::{all_legal, ascii_bytes, base_part, blank_padded, exact_sfn, ext_part, first_dot};
use super::slot_iter::{
    entry_of, joined, lfn_folded, name_for, raw_of, slot_unit, slot_units, units_before_nul,
    LfnState, LfnStep,
};
use crate::bytes::{le16, le32};
use crate::calendar::epoch_datetime;
use crate::codec::FixedCodec;
use crate::codec::fat::dir_entry::{RawDirEntry, RAW_LFN};
use crate::codec::fat::entry_time::{
    accessed_of, creation_of, EntryCreationTime, EntryLastAccessedTime, EntryModificationTime,
};
use crate::codec::fat::sfn_layout::{
    ascii_space, sfn_chars, sfn_checksum_of, trimmed, unescaped, Sfn,
};
use crate::codec::fat::types::FatType;
use crate::codec::time::{datetime_of_stamp, word_of_date, word_of_time};
use crate::exfat::layout::{le_bytes16, le_bytes32};
use crate::exfat::regions::lemma_le_bytes32_read;
use crate::text::{law_utf16_round_trip, utf16_of};

verus! {

// ── Short names ─────────────────────────────────────────────────────────

/// Trimming takes the padding off and no more.
pub proof fn lemma_trimmed_padding(b: Seq<u8>, n: int)
    requires
        b.len() <= n,
        b.len() > 0 ==> !ascii_space(b.last()),
    ensures
        trimmed(blank_padded(b, n)) == b,
    decreases n,
{
    let p = blank_padded(b, n);
    if b.len() < n {
        assert(p.last() == 0x20);
        assert(p.drop_last() =~= blank_padded(b, n - 1));
        lemma_trimmed_padding(b, n - 1);
    } else {
        assert(p =~= b);
    }
}

/// Legal characters are shown as they are.
proof fn lemma_legal_shown(s: Seq<char>)
    requires
        all_legal(s),
    ensures
        sfn_chars(ascii_bytes(s)) == s,
        s.len() > 0 ==> !ascii_space(ascii_bytes(s).last()),
        s.len() > 0 ==> 0x21 <= ascii_bytes(s)[0] < 0x80,
{
    assert forall|i: int| 0 <= i < s.len() implies sfn_chars(ascii_bytes(s))[i] == s[i]
        && 0x21 <= ascii_bytes(s)[i] < 0x80 by {
        assert(crate::fat::sfn::sfn_legal(s[i]));
    }
    assert(sfn_chars(ascii_bytes(s)) =~= s);
}

/// The place of the first dot splits the text.
proof fn lemma_split_at_dot(s: Seq<char>, from: int)
    requires
        0 <= from <= s.len(),
    ensures
        from <= first_dot(s, from) <= s.len(),
        first_dot(s, from) < s.len() ==> s[first_dot(s, from)] == '.',
    decreases s.len() - from,
{
    if from < s.len() && s[from] != '.' {
        lemma_split_at_dot(s, from + 1);
    }
}

/// A name that a short name stores exactly is displayed as it is. Only a
/// trailing dot is not displayed: it separates an empty extension.
pub proof fn law_exact_sfn_displayed(s: Seq<char>, sfn: Sfn)
    requires
        exact_sfn(s) == Some(sfn.raw()),
        s == seq!['.'] || s == seq!['.', '.'] || s.last() != '.',
    ensures
        sfn.text() == s,
        0x21 <= sfn.raw()[0] < 0x80,
{
    let (name, ext) = (sfn.name@, sfn.ext@);
    let raw = sfn.raw();
    assert(name =~= raw.subrange(0, 8));
    assert(ext =~= raw.subrange(8, 11));
    if s == seq!['.'] || s == seq!['.', '.'] {
        let b: Seq<u8> = if s == seq!['.'] {
            seq![0x2Eu8]
        } else {
            seq![0x2Eu8, 0x2Eu8]
        };
        assert(s.len() == b.len()) by {
            assert(seq!['.'].len() == 1 && seq!['.', '.'].len() == 2);
        }
        assert(name =~= blank_padded(b, 8));
        assert(ext =~= blank_padded(seq![], 3));
        lemma_trimmed_padding(b, 8);
        lemma_trimmed_padding(seq![], 3);
        assert(unescaped(name) == name);
        assert(sfn_chars(b) =~= s);
    } else {
        let (base, tail) = (base_part(s), ext_part(s));
        lemma_split_at_dot(s, 0);
        lemma_legal_shown(base);
        lemma_legal_shown(tail);
        assert(name =~= blank_padded(ascii_bytes(base), 8));
        assert(ext =~= blank_padded(ascii_bytes(tail), 3));
        lemma_trimmed_padding(ascii_bytes(base), 8);
        lemma_trimmed_padding(ascii_bytes(tail), 3);
        assert(name[0] == ascii_bytes(base)[0]);
        assert(unescaped(name) == name);
        if tail.len() == 0 {
            assert(first_dot(s, 0) == s.len());
            assert(base =~= s);
        } else {
            assert(base.push('.') + tail =~= s);
        }
    }
}

// ── Long names ──────────────────────────────────────────────────────────

/// There is a long-name slot for any units, order and checksum.
pub proof fn lemma_lfn_slot_exists(units: Seq<u16>, order: u8, checksum: u8)
    ensures
        is_lfn_slot(lfn_slot_bytes(units, order, checksum), units, order, checksum),
{
    let b = Seq::new(
        32,
        |i: int|
            if i == 0 {
                order
            } else if i == 11 {
                RAW_LFN
            } else if i == 13 {
                checksum
            } else if i == 12 || i == 26 || i == 27 {
                0
            } else if i < 11 {
                le_bytes16(lfn_padded_unit(units, (i - 1) / 2))[(i - 1) % 2]
            } else if i < 26 {
                le_bytes16(lfn_padded_unit(units, 5 + (i - 14) / 2))[(i - 14) % 2]
            } else {
                le_bytes16(lfn_padded_unit(units, 11 + (i - 28) / 2))[(i - 28) % 2]
            },
    );
    assert forall|k: int| 0 <= k < 13 implies le16(b, #[trigger] lfn_unit_pos(k))
        == lfn_padded_unit(units, k) by {
        let p = lfn_unit_pos(k);
        let u = lfn_padded_unit(units, k);
        assert(b[p] == le_bytes16(u)[0]);
        assert(b[p + 1] == le_bytes16(u)[1]);
    }
    assert(is_lfn_slot(b, units, order, checksum));
}

/// The units of a long-name slot, without padding.
pub proof fn lemma_slot_units(b: Seq<u8>, units: Seq<u16>, order: u8, checksum: u8, k: int)
    requires
        is_lfn_slot(b, units, order, checksum),
        units.len() <= 13,
        forall|i: int| 0 <= i < units.len() ==> units[i] != 0,
        0 <= k <= units.len(),
    ensures
        units_before_nul(b, k) == units.len(),
        k == 0 ==> slot_units(b) == units,
    decreases units.len() - k,
{
    assert forall|i: int| 0 <= i < 13 implies slot_unit(b, i) == lfn_padded_unit(units, i) by {
        assert(le16(b, lfn_unit_pos(i)) == lfn_padded_unit(units, i));
    }
    if k < units.len() {
        lemma_slot_units(b, units, order, checksum, k + 1);
    }
    if k == 0 {
        assert(slot_units(b) =~= units);
    }
}

/// The name can be stored in long-name slots: it has one to 255 units, none of
/// them NUL.
pub open spec fn lfn_storable(name: Seq<char>) -> bool {
    let units = utf16_of(name);
    &&& 1 <= units.len() <= 255
    &&& forall|i: int| 0 <= i < units.len() ==> units[i] != 0
}

/// The units of the groups from `g` on.
pub open spec fn units_from(units: Seq<u16>, g: int) -> Seq<u16> {
    if 13 * g <= units.len() {
        units.subrange(13 * g, units.len() as int)
    } else {
        seq![]
    }
}

/// The groups from `g` on, in the order their slots are seen.
pub open spec fn groups_from(units: Seq<u16>, g: int) -> Seq<Seq<u16>> {
    let n = lfn_groups(units.len() as int);
    Seq::new((n - g) as nat, |i: int| lfn_group(units, n - 1 - i))
}

/// The groups, joined, are the units.
proof fn lemma_groups_joined(units: Seq<u16>, g: int)
    requires
        0 <= g <= lfn_groups(units.len() as int),
    ensures
        joined(groups_from(units, g)) == units_from(units, g),
    decreases lfn_groups(units.len() as int) - g,
{
    let n = lfn_groups(units.len() as int);
    let p = groups_from(units, g);
    if g < n {
        lemma_groups_joined(units, g + 1);
        assert(p.drop_last() =~= groups_from(units, g + 1));
        assert(p.last() == lfn_group(units, g));
        assert(lfn_group(units, g) + units_from(units, g + 1) =~= units_from(units, g));
    } else {
        assert(p.len() == 0);
        assert(units_from(units, g) =~= seq![]);
    }
}

/// The order bytes of a long name: the number, and the flag on the last.
pub proof fn lemma_lfn_order(g: int, n: int)
    requires
        0 <= g < n <= 20,
    ensures
        ({
            let o = lfn_order(g, n);
            &&& o != SLOT_END
            &&& o != SLOT_DELETED
            &&& (o / 0x40) % 2 == (if g + 1 == n {
                1int
            } else {
                0
            })
            &&& o == g + 1 + (if g + 1 == n {
                0x40int
            } else {
                0
            })
        }),
{
    let k = (g + 1) as u8;
    assert(k <= 20 ==> k | 0x40 == k + 0x40) by (bit_vector);
}

/// The state in which the slots of the groups `g..` of a long name leave the
/// reader.
pub open spec fn lfn_seen(name: Seq<char>, checksum: u8, g: int) -> LfnState {
    LfnState {
        pieces: groups_from(utf16_of(name), g),
        checksum: Some(checksum),
        next_ord: (g + 1) as u8,
    }
}

/// Seeing the slot of group `g` after those of the groups behind it.
pub proof fn lemma_lfn_slot_seen(name: Seq<char>, checksum: u8, g: int, st: LfnState)
    requires
        lfn_storable(name),
        ({
            let n = lfn_groups(utf16_of(name).len() as int);
            &&& 0 <= g < n
            &&& g + 1 < n ==> st == lfn_seen(name, checksum, g + 1)
        }),
    ensures
        ({
            let units = utf16_of(name);
            let n = lfn_groups(units.len() as int);
            let slot = lfn_slot_bytes(lfn_group(units, g), lfn_order(g, n), checksum);
            &&& slot.len() == 32
            &&& slot[0] != SLOT_END
            &&& slot[0] != SLOT_DELETED
            &&& slot[11] == RAW_LFN
            &&& lfn_folded(st, slot) == (
                lfn_seen(name, checksum, g),
                if g + 1 == n {
                    LfnStep::StartedNew
                } else {
                    LfnStep::Continued
                },
            )
        }),
{
    let units = utf16_of(name);
    let n = lfn_groups(units.len() as int);
    let group = lfn_group(units, g);
    let slot = lfn_slot_bytes(group, lfn_order(g, n), checksum);
    lemma_lfn_slot_exists(group, lfn_order(g, n), checksum);
    assert(n <= 20);
    lemma_lfn_order(g, n);
    assert forall|i: int| 0 <= i < group.len() implies group[i] != 0 by {
        assert(group[i] == units[13 * g + i]);
    }
    lemma_slot_units(slot, group, lfn_order(g, n), checksum, 0);
    if g + 1 == n {
        assert(seq![group] =~= groups_from(units, g));
    } else {
        assert(groups_from(units, g + 1).push(group) =~= groups_from(units, g));
    }
}

/// Once all slots of a long name were seen, the record with the matching
/// checksum goes by that name.
pub proof fn lemma_lfn_name_complete(name: Seq<char>, e: RawDirEntry)
    requires
        lfn_storable(name),
    ensures
        name_for(lfn_seen(name, sfn_checksum_of(e.sfn.raw()) as u8, 0), e) == name,
{
    let units = utf16_of(name);
    assert(units_from(units, 0) =~= units);
    lemma_groups_joined(units, 0);
    law_utf16_round_trip(name);
}

// ── The short-name record ───────────────────────────────────────────────

/// The fields as they read back once stored: stamps lose what their stored
/// form cannot hold.
pub open spec fn stored_fields(p: MinFields) -> MinFields {
    let c = EntryCreationTime(p.created).fields();
    MinFields {
        created: creation_of(c.0, c.1, c.2),
        modified: match datetime_of_stamp(
            word_of_date(p.modified.date) * 0x1_0000 + word_of_time(p.modified.time),
            0,
        ) {
            Some(t) => t,
            None => epoch_datetime(),
        },
        accessed: accessed_of(EntryLastAccessedTime(p.accessed).field()),
        ..p
    }
}

/// The fields are of the kind that a volume of that type stores: the bytes
/// that hold the high half of a cluster number on FAT32 hold a handle on
/// FAT16, whose cluster numbers are 16 bits wide.
pub open spec fn fields_fit(fat_type: FatType, p: MinFields) -> bool {
    match fat_type {
        FatType::FAT32 => p.ea_handle is None,
        FatType::FAT16 => p.ea_handle is Some && p.data_cluster < 0x1_0000,
    }
}

/// Byte `i` of the image of a record.
spec fn record_byte(e: RawDirEntry, i: int) -> u8 {
    if i < 8 {
        e.sfn.name@[i]
    } else if i < 11 {
        e.sfn.ext@[i - 8]
    } else if i == 11 {
        e.attributes.0
    } else if i == 12 {
        e._reserved
    } else if i == 13 {
        e.created.fields().0 as u8
    } else if i < 16 {
        le_bytes16(e.created.fields().1 as u16)[i - 14]
    } else if i < 18 {
        le_bytes16(e.created.fields().2 as u16)[i - 16]
    } else if i < 20 {
        le_bytes16(e.accessed.field() as u16)[i - 18]
    } else if i < 22 {
        le_bytes16(e.cluster_high)[i - 20]
    } else if i < 24 {
        le_bytes16(e.modified.fields().0 as u16)[i - 22]
    } else if i < 26 {
        le_bytes16(e.modified.fields().1 as u16)[i - 24]
    } else if i < 28 {
        le_bytes16(e.cluster_low)[i - 26]
    } else {
        le_bytes32(e.file_size)[i - 28]
    }
}

/// Two bytes of a word read back as the word.
proof fn lemma_le_bytes16_read(b: Seq<u8>, off: int, word: u16)
    requires
        b[off] == le_bytes16(word)[0],
        b[off + 1] == le_bytes16(word)[1],
    ensures
        le16(b, off) == word,
{
}

/// A record whose stamps are real has an image.
pub proof fn lemma_record_exists(e: RawDirEntry)
    requires
        e.writable(),
    ensures
        record_image(e).len() == 32,
        e.encoded_as(record_image(e)),
{
    let b = Seq::new(32, |i: int| record_byte(e, i));
    assert(b.subrange(0, 8) =~= e.sfn.name@);
    assert(b.subrange(8, 11) =~= e.sfn.ext@);
    lemma_le_bytes16_read(b, 14, e.created.fields().1 as u16);
    lemma_le_bytes16_read(b, 16, e.created.fields().2 as u16);
    lemma_le_bytes16_read(b, 18, e.accessed.field() as u16);
    lemma_le_bytes16_read(b, 20, e.cluster_high);
    lemma_le_bytes16_read(b, 22, e.modified.fields().0 as u16);
    lemma_le_bytes16_read(b, 24, e.modified.fields().1 as u16);
    lemma_le_bytes16_read(b, 26, e.cluster_low);
    assert(le32(b, 28) == e.file_size) by {
        lemma_le_bytes32_read(b, 28, e.file_size);
    }
    lemma_record_image(e, b);
}

/// A stored record reads back as the entry it was made from.
pub proof fn law_record_reads_back(fat_type: FatType, p: MinFields, name: Seq<char>, chain: SlotChain)
    requires
        p.wf(),
        fields_fit(fat_type, p),
    ensures
        ({
            let b = record_image(sfn_record(p));
            &&& b.len() == 32
            &&& b[0] == p.sfn.raw()[0]
            &&& b[11] == p.attributes
            &&& raw_of(b).sfn == p.sfn
            &&& entry_of(fat_type, raw_of(b), name, chain) == MinFields {
                name,
                ..stored_fields(p)
            }.at(chain)
        }),
{
    let e = sfn_record(p);
    let b = record_image(e);
    lemma_record_exists(e);
    let d = RawDirEntry {
        created: EntryCreationTime(creation_of(b[13] as int, le16(b, 14), le16(b, 16))),
        accessed: EntryLastAccessedTime(accessed_of(le16(b, 18))),
        modified: EntryModificationTime(
            datetime_of_stamp(le16(b, 24) * 0x1_0000 + le16(b, 22), 0),
        ),
        ..e
    };
    assert(d.decoded_from(b));
    RawDirEntry::law_decode_unique(raw_of(b), d, b);
    assert(b[0] == b.subrange(0, 8)[0]);
    let c = p.data_cluster;
    assert((c / 0x1_0000) * 0x1_0000 + c % 0x1_0000 == c);
}

} // verus!
