//! Pure entry-set composition helpers (no I/O beyond byte packing).

use vstd::prelude::*;

use super::direntry::{
    decoded_set, entry_set_checksum, law_set_checksum_ignores_itself, lemma_set_checksum_range,
    name_unit, name_units, set_checksum_of, set_shape, EntryFields, ExfatAttributes,
};
use super::layout::{le_bytes16, le_bytes32, le_bytes64};
use super::regions::lemma_le_bytes32_read;
use crate::bytes::{le16, le32, le64, lemma_le64_injective, lemma_le_injective, spliced};
use crate::calendar::{Date, PrimitiveDateTime};
use crate::codec::FixedCodec;
use crate::codec::exfat::consts::{
    ENTRY_TYPE_FILE, ENTRY_TYPE_FILE_NAME, ENTRY_TYPE_STREAM_EXTENSION,
    STREAM_FLAG_ALLOCATION_POSSIBLE,
};
use crate::codec::exfat::raw_entry::{
    law_no_fat_chain_bit, padded_unit, with_no_fat_chain, ExfatFileEntry, ExfatFileNameEntry,
    ExfatStreamExtension,
};
use crate::codec::time::{
    datetime_of_stamp, encode_date, encode_datetime, increment_of_datetime,
    law_date_word_round_trip, law_datetime_round_trip, representable, stamp_of_datetime,
    word_of_date, EPOCH_YEAR,
};
use crate::entry_times::EntryTimes;
use crate::text::{encode_utf16, law_utf16_round_trip, utf16_of};

verus! {

/// What an entry set is composed from.
pub struct SetFields {
    pub units: Seq<u16>,
    pub name_hash: u16,
    pub attributes: u16,
    pub first_cluster: u32,
    pub valid_data_length: u64,
    pub data_length: u64,
    pub no_fat_chain: bool,
    pub times: EntryTimes,
}

/// Number of File Name entries for a name of `n` units: at least one.
pub open spec fn name_slots(n: int) -> int {
    if n == 0 {
        1
    } else {
        (n + 14) / 15
    }
}

/// The stored timestamp of an optional instant: 0 stands for none.
pub open spec fn stamp_field(t: Option<PrimitiveDateTime>) -> int {
    match t {
        Some(dt) => stamp_of_datetime(dt),
        None => 0,
    }
}

/// The stored increment of an optional instant.
pub open spec fn increment_field(t: Option<PrimitiveDateTime>) -> int {
    match t {
        Some(dt) => increment_of_datetime(dt),
        None => 0,
    }
}

/// The stored timestamp of an optional date: midnight of that day.
pub open spec fn date_field(d: Option<Date>) -> int {
    match d {
        Some(d) => word_of_date(d) * 0x1_0000,
        None => 0,
    }
}

/// The File entry of a composed set, but for the checksum.
pub open spec fn file_slot(f: SetFields, set: Seq<u8>) -> bool {
    &&& set[0] == ENTRY_TYPE_FILE
    &&& set[1] == 1 + name_slots(f.units.len() as int)
    &&& le16(set, 4) == f.attributes
    &&& le16(set, 6) == 0
    &&& le32(set, 8) == stamp_field(f.times.created)
    &&& le32(set, 12) == stamp_field(f.times.modified)
    &&& le32(set, 16) == date_field(f.times.accessed)
    &&& set[20] == increment_field(f.times.created)
    &&& set[21] == increment_field(f.times.modified)
    &&& forall|i: int| 22 <= i < 32 ==> #[trigger] set[i] == 0
}

/// The Stream Extension of a composed set.
pub open spec fn stream_slot(f: SetFields, set: Seq<u8>) -> bool {
    &&& set[32] == ENTRY_TYPE_STREAM_EXTENSION
    &&& set[33] == with_no_fat_chain(STREAM_FLAG_ALLOCATION_POSSIBLE, f.no_fat_chain)
    &&& set[34] == 0
    &&& set[35] == f.units.len()
    &&& le16(set, 36) == f.name_hash
    &&& le16(set, 38) == 0
    &&& le64(set, 40) == f.valid_data_length
    &&& le32(set, 48) == 0
    &&& le32(set, 52) == f.first_cluster
    &&& le64(set, 56) == f.data_length
}

/// The first `n` File Name entries of a composed set. A set without a name
/// has an empty slot in their place.
pub open spec fn name_part(f: SetFields, set: Seq<u8>, n: int) -> bool {
    &&& forall|i: int|
        2 <= i < 2 + n ==> #[trigger] set[32 * i] == (if f.units.len() == 0 {
            0
        } else {
            ENTRY_TYPE_FILE_NAME
        })
    &&& forall|i: int| 2 <= i < 2 + n ==> set[#[trigger] (32 * i) + 1] == 0
    &&& forall|k: int| 0 <= k < 15 * n ==> #[trigger] name_unit(set, k) == padded_unit(f.units, k)
}

/// `set` is the entry set of `f`: every byte of it is fixed.
pub open spec fn composed(f: SetFields, set: Seq<u8>) -> bool {
    &&& set.len() == 32 * (2 + name_slots(f.units.len() as int))
    &&& file_slot(f, set)
    &&& stream_slot(f, set)
    &&& name_part(f, set, name_slots(f.units.len() as int))
    &&& le16(set, 2) == set_checksum_of(set)
}

/// Compose a File + Stream Extension + File Name entry set with a valid
/// `SetChecksum`. The caller must reject names longer than 255 UCS-2 units,
/// supply `name_hash` computed over the up-cased name, and may only set
/// `no_fat_chain` when the file's clusters really were placed contiguously.
pub fn compose_file_entry_set(
    name: &str,
    name_hash: u16,
    attributes: ExfatAttributes,
    first_cluster: u32,
    data_length: u64,
    no_fat_chain: bool,
    times: EntryTimes,
) -> (set: Vec<u8>)
    requires
        utf16_of(name@).len() <= 255,
        times.wf(),
    ensures
        composed(
            (SetFields {
                units: utf16_of(name@),
                name_hash,
                attributes: attributes.0,
                first_cluster,
                valid_data_length: data_length,
                data_length,
                no_fat_chain,
                times,
            }),
            set@,
        ),
{
    // Freshly-created files are fully valid: ValidDataLength == DataLength.
    compose_file_entry_set_full(
        name,
        name_hash,
        attributes,
        first_cluster,
        data_length,
        data_length,
        no_fat_chain,
        times,
    )
}

/// The zeroed File entry with the stamps of `times`.
fn stamped_file_entry(secondary_count: u8, attributes: u16, times: EntryTimes) -> (file:
    ExfatFileEntry)
    requires
        times.wf(),
    ensures
        file.entry_type == ENTRY_TYPE_FILE,
        file.secondary_count == secondary_count,
        file.set_checksum == 0,
        file.attributes == attributes,
        file._reserved1 == 0,
        file.create_timestamp == stamp_field(times.created),
        file.modified_timestamp == stamp_field(times.modified),
        file.accessed_timestamp == date_field(times.accessed),
        file.create_10ms == increment_field(times.created),
        file.modified_10ms == increment_field(times.modified),
        file.create_utc_offset == 0,
        file.modified_utc_offset == 0,
        file.accessed_utc_offset == 0,
        forall|i: int| 0 <= i < 7 ==> file._reserved2@[i] == 0,
{
    let mut file = ExfatFileEntry::new_zeroed(secondary_count, attributes);
    if let Some(dt) = times.created {
        let (ts, incr) = encode_datetime(dt);
        file.create_timestamp = ts;
        file.create_10ms = incr;
    }
    if let Some(dt) = times.modified {
        let (ts, incr) = encode_datetime(dt);
        file.modified_timestamp = ts;
        file.modified_10ms = incr;
    }
    if let Some(date) = times.accessed {
        file.accessed_timestamp = encode_date(date);
    }
    file
}

/// Like [`compose_file_entry_set`] but with an independent
/// `valid_data_length`, as needed when relocating an entry (rename).
pub fn compose_file_entry_set_full(
    name: &str,
    name_hash: u16,
    attributes: ExfatAttributes,
    first_cluster: u32,
    valid_data_length: u64,
    data_length: u64,
    no_fat_chain: bool,
    times: EntryTimes,
) -> (set: Vec<u8>)
    requires
        utf16_of(name@).len() <= 255,
        times.wf(),
    ensures
        composed(
            (SetFields {
                units: utf16_of(name@),
                name_hash,
                attributes: attributes.0,
                first_cluster,
                valid_data_length,
                data_length,
                no_fat_chain,
                times,
            }),
            set@,
        ),
{
    let units: Vec<u16> = encode_utf16(name);
    let ghost f = SetFields {
        units: utf16_of(name@),
        name_hash,
        attributes: attributes.0,
        first_cluster,
        valid_data_length,
        data_length,
        no_fat_chain,
        times,
    };
    let n: usize = units.len();
    let name_entries: usize = if n == 0 {
        1
    } else {
        (n + 14) / 15
    };
    let secondary_count: u8 = (1 + name_entries) as u8;

    let file = stamped_file_entry(secondary_count, attributes.bits(), times);
    let mut slot: [u8; 32] = [0u8;32];
    file.write_into(&mut slot);
    let mut set: Vec<u8> = Vec::new();
    set.extend_from_slice(&slot);
    assert(set@ =~= slot@);
    proof {
        assert forall|i: int| 22 <= i < 32 implies #[trigger] set@[i] == 0 by {
            if i >= 25 {
                assert(slot@.subrange(25, 32)[i - 25] == file._reserved2@[i - 25]);
            }
        }
        assert(file_slot(f, set@));
    }
    let ghost head = set@;

    let mut stream = ExfatStreamExtension::new(
        n as u8,
        first_cluster,
        valid_data_length,
        data_length,
        no_fat_chain,
    );
    stream.name_hash = name_hash;
    let mut slot: [u8; 32] = [0u8;32];
    stream.write_into(&mut slot);
    set.extend_from_slice(&slot);
    proof {
        assert(set@ =~= head + slot@);
        assert(set@.subrange(0, 32) =~= head);
        lemma_head_kept(f, head, set@);
        assert forall|i: int| 0 <= i < 32 implies set@[32 + i] == #[trigger] slot@[i] by {}
        assert(set@[32] == slot@[0] && set@[33] == slot@[1] && set@[34] == slot@[2] && set@[35]
            == slot@[3]);
        assert(le16(set@, 36) == le16(slot@, 4));
        assert(le16(set@, 38) == le16(slot@, 6));
        assert(le64(set@, 40) == le64(slot@, 8));
        assert(le32(set@, 48) == le32(slot@, 16));
        assert(le32(set@, 52) == le32(slot@, 20));
        assert(le64(set@, 56) == le64(slot@, 24));
        assert(stream_slot(f, set@));
    }

    let mut i: usize = 0;
    while i < name_entries
        invariant
            units@ == f.units,
            n == units@.len(),
            n <= 255,
            name_entries == name_slots(n as int),
            i <= name_entries,
            set@.len() == 64 + 32 * i,
            file_slot(f, set@),
            stream_slot(f, set@),
            name_part(f, set@, i as int),
        decreases name_entries - i,
    {
        let ghost before = set@;
        let mut slot: [u8; 32] = [0u8;32];
        if n > 0 {
            let from: usize = 15 * i;
            let to: usize = if n - from < 15 {
                n
            } else {
                from + 15
            };
            let chunk: &[u16] = &units.as_slice()[from..to];
            let piece = ExfatFileNameEntry::from_units(chunk);
            piece.write_into(&mut slot);
            assert forall|k: int| 0 <= k < 15 implies #[trigger] le16(slot@, 2 + 2 * k)
                == padded_unit(units@, 15 * i + k) by {
                assert(piece.name@[k] == padded_unit(chunk@, k));
            }
        }
        set.extend_from_slice(&slot);
        proof {
            assert(set@ =~= before + slot@);
            assert(n == 0 ==> i == 0);
            assert(n == 0 ==> slot@[0] == 0 && slot@[1] == 0);
            assert forall|k: int| 0 <= k < 15 implies #[trigger] le16(slot@, 2 + 2 * k)
                == padded_unit(units@, 15 * i + k) by {}
            lemma_name_slot_added(f, before, set@, slot@, i as int);
        }
        i += 1;
    }

    // The checksum covers the set without the checksum field.
    let sum: u16 = entry_set_checksum(set.as_slice());
    let ghost unsummed = set@;
    set.set(2, (sum % 0x100) as u8);
    set.set(3, (sum / 0x100) as u8);
    proof {
        law_set_checksum_ignores_itself(set@, unsummed);
        lemma_only_checksum_changed(f, unsummed, set@, name_slots(n as int));
    }
    set
}

/// Appending a slot leaves the File entry as it is.
proof fn lemma_head_kept(f: SetFields, a: Seq<u8>, b: Seq<u8>)
    requires
        a.len() >= 32,
        b.len() >= a.len(),
        b.subrange(0, a.len() as int) == a,
        file_slot(f, a),
    ensures
        file_slot(f, b),
{
    assert forall|i: int| 0 <= i < a.len() implies b[i] == a[i] by {
        assert(b.subrange(0, a.len() as int)[i] == a[i]);
    }
}

/// Appending one name slot extends the name part.
proof fn lemma_name_slot_added(f: SetFields, a: Seq<u8>, b: Seq<u8>, slot: Seq<u8>, i: int)
    requires
        0 <= i,
        a.len() == 64 + 32 * i,
        slot.len() == 32,
        b == a + slot,
        file_slot(f, a),
        stream_slot(f, a),
        name_part(f, a, i),
        slot[0] == (if f.units.len() == 0 {
            0
        } else {
            ENTRY_TYPE_FILE_NAME
        }),
        slot[1] == 0,
        forall|k: int|
            0 <= k < 15 ==> #[trigger] le16(slot, 2 + 2 * k) == padded_unit(f.units, 15 * i + k),
    ensures
        file_slot(f, b),
        stream_slot(f, b),
        name_part(f, b, i + 1),
{
    assert forall|j: int| 2 <= j < 3 + i implies #[trigger] b[32 * j] == (if f.units.len() == 0 {
        0
    } else {
        ENTRY_TYPE_FILE_NAME
    }) by {
        if j < 2 + i {
            assert(b[32 * j] == a[32 * j]);
        }
    }
    assert forall|j: int| 2 <= j < 3 + i implies b[#[trigger] (32 * j) + 1] == 0 by {
        if j < 2 + i {
            assert(b[32 * j + 1] == a[32 * j + 1]);
        }
    }
    assert forall|k: int| 0 <= k < 15 * (i + 1) implies #[trigger] name_unit(b, k) == padded_unit(
        f.units,
        k,
    ) by {
        let p = 64 + 32 * (k / 15) + 2 + 2 * (k % 15);
        if k < 15 * i {
            assert(k / 15 < i);
            assert(name_unit(a, k) == padded_unit(f.units, k));
            assert(b[p] == a[p] && b[p + 1] == a[p + 1]);
        } else {
            let m = k - 15 * i;
            assert(k / 15 == i && k % 15 == m);
            assert(le16(slot, 2 + 2 * m) == padded_unit(f.units, 15 * i + m));
            assert(b[p] == slot[2 + 2 * m] && b[p + 1] == slot[3 + 2 * m]);
        }
    }
}

/// Storing the checksum touches nothing that the set is composed of.
proof fn lemma_only_checksum_changed(f: SetFields, a: Seq<u8>, b: Seq<u8>, n: int)
    requires
        n >= 0,
        a.len() == b.len(),
        a.len() == 64 + 32 * n,
        forall|i: int| 0 <= i < a.len() && i != 2 && i != 3 ==> a[i] == b[i],
        file_slot(f, a),
        stream_slot(f, a),
        name_part(f, a, n),
    ensures
        file_slot(f, b),
        stream_slot(f, b),
        name_part(f, b, n),
{
    assert forall|j: int| 2 <= j < 2 + n implies #[trigger] b[32 * j] == (if f.units.len() == 0 {
        0
    } else {
        ENTRY_TYPE_FILE_NAME
    }) by {
        assert(a[32 * j] == b[32 * j]);
    }
    assert forall|j: int| 2 <= j < 2 + n implies b[#[trigger] (32 * j) + 1] == 0 by {
        assert(a[32 * j + 1] == 0);
    }
    assert forall|k: int| 0 <= k < 15 * n implies #[trigger] name_unit(b, k) == padded_unit(
        f.units,
        k,
    ) by {
        let p = 64 + 32 * (k / 15) + 2 + 2 * (k % 15);
        assert(k / 15 < n);
        assert(name_unit(a, k) == padded_unit(f.units, k));
        assert(b[p] == a[p] && b[p + 1] == a[p + 1]);
    }
}

/// The entry set of `f`.
pub open spec fn set_bytes(f: SetFields) -> Seq<u8> {
    choose|set: Seq<u8>| composed(f, set)
}

/// There is one entry set for given fields.
pub proof fn law_composed_unique(f: SetFields, a: Seq<u8>, b: Seq<u8>)
    requires
        composed(f, a),
        composed(f, b),
    ensures
        a == b,
{
    let n = name_slots(f.units.len() as int);
    assert forall|i: int| 0 <= i < a.len() && i != 2 && i != 3 implies a[i] == b[i] by {
        if i < 32 {
            lemma_le_injective(a, b, 4);
            lemma_le_injective(a, b, 6);
            lemma_le_injective(a, b, 8);
            lemma_le_injective(a, b, 12);
            lemma_le_injective(a, b, 16);
        } else if i < 64 {
            lemma_le_injective(a, b, 36);
            lemma_le_injective(a, b, 38);
            lemma_le64_injective(a, b, 40);
            lemma_le_injective(a, b, 48);
            lemma_le_injective(a, b, 52);
            lemma_le64_injective(a, b, 56);
        } else {
            let s = i / 32;
            let r = i % 32;
            assert(i == 32 * s + r);
            assert(2 <= s < 2 + n);
            if r == 0 {
                assert(a[32 * s] == b[32 * s]);
            } else if r == 1 {
                assert(a[(32 * s) + 1] == 0 && b[(32 * s) + 1] == 0);
            } else {
                let k = 15 * (s - 2) + (r - 2) / 2;
                assert(k / 15 == s - 2 && k % 15 == (r - 2) / 2);
                assert(name_unit(a, k) == padded_unit(f.units, k));
                assert(name_unit(b, k) == padded_unit(f.units, k));
                lemma_le_injective(a, b, 64 + 32 * (k / 15) + 2 + 2 * (k % 15));
            }
        }
    }
    law_set_checksum_ignores_itself(a, b);
    lemma_le_injective(a, b, 2);
    assert(a =~= b);
}

/// What a timestamp reads back as once it is stored.
pub open spec fn stored_datetime(t: Option<PrimitiveDateTime>) -> Option<PrimitiveDateTime> {
    datetime_of_stamp(stamp_field(t), increment_field(t))
}

/// What a date reads back as once it is stored.
pub open spec fn stored_date(d: Option<Date>) -> Option<Date> {
    match datetime_of_stamp(date_field(d), 0) {
        Some(dt) => Some(dt.date),
        None => None,
    }
}

/// A composed entry set decodes to what it was composed from: the name, the
/// attributes, the allocation and, as far as the stored form can hold them,
/// the stamps.
pub proof fn law_composed_set_decodes(f: SetFields, name: Seq<char>, set: Seq<u8>)
    requires
        f.units == utf16_of(name),
        1 <= f.units.len() <= 255,
        composed(f, set),
    ensures
        decoded_set(set) == Some(
            EntryFields {
                name,
                attributes: f.attributes,
                first_cluster: f.first_cluster,
                valid_data_length: f.valid_data_length,
                data_length: f.data_length,
                no_fat_chain: f.no_fat_chain,
                loc: None,
                entry_set_len: set.len() as u32,
                created: stored_datetime(f.times.created),
                modified: stored_datetime(f.times.modified),
                accessed: stored_date(f.times.accessed),
            },
        ),
{
    reveal(decoded_set);
    let n = f.units.len() as int;
    assert(15 * name_slots(n) >= n);
    assert(name_units(set) =~= f.units) by {
        assert forall|k: int| 0 <= k < n implies name_units(set)[k] == f.units[k] by {
            assert(name_unit(set, k) == padded_unit(f.units, k));
        }
    }
    law_utf16_round_trip(name);
    law_no_fat_chain_bit(STREAM_FLAG_ALLOCATION_POSSIBLE, f.no_fat_chain);
    assert(set_shape(set));
}

/// Stamps within 1980..=2107 and on a hundredth of a second are stored
/// without loss, and so are absent ones.
pub proof fn law_stored_times_exact(t: Option<PrimitiveDateTime>, d: Option<Date>)
    requires
        t matches Some(dt) ==> representable(dt),
        d matches Some(date) ==> date.wf() && EPOCH_YEAR <= date.year <= EPOCH_YEAR + 127,
    ensures
        stored_datetime(t) == t,
        stored_date(d) == d,
{
    if let Some(dt) = t {
        law_datetime_round_trip(dt);
    }
    if let Some(date) = d {
        law_date_word_round_trip(date);
        let w = word_of_date(date) * 0x1_0000;
        assert(w / 0x1_0000 == word_of_date(date));
        assert(w % 0x20 == 0 && w / 0x20 == word_of_date(date) * 0x800 && w / 0x800 == word_of_date(
            date,
        ) * 0x20);
    }
}

/// Byte `i` of the entry set of `f`, but for the checksum.
spec fn set_byte(f: SetFields, i: int) -> u8 {
    if i == 0 {
        ENTRY_TYPE_FILE
    } else if i == 1 {
        (1 + name_slots(f.units.len() as int)) as u8
    } else if 4 <= i < 6 {
        le_bytes16(f.attributes)[i - 4]
    } else if 8 <= i < 12 {
        le_bytes32(stamp_field(f.times.created) as u32)[i - 8]
    } else if 12 <= i < 16 {
        le_bytes32(stamp_field(f.times.modified) as u32)[i - 12]
    } else if 16 <= i < 20 {
        le_bytes32(date_field(f.times.accessed) as u32)[i - 16]
    } else if i == 20 {
        increment_field(f.times.created) as u8
    } else if i == 21 {
        increment_field(f.times.modified) as u8
    } else if i < 32 {
        0
    } else if i < 64 {
        stream_byte(f, i)
    } else if i % 32 == 0 {
        if f.units.len() == 0 {
            0
        } else {
            ENTRY_TYPE_FILE_NAME
        }
    } else if i % 32 == 1 {
        0
    } else {
        le_bytes16(padded_unit(f.units, 15 * (i / 32 - 2) + (i % 32 - 2) / 2))[i % 2]
    }
}

/// Byte `i` of the Stream Extension of `f`.
spec fn stream_byte(f: SetFields, i: int) -> u8 {
    if i == 32 {
        ENTRY_TYPE_STREAM_EXTENSION
    } else if i == 33 {
        with_no_fat_chain(STREAM_FLAG_ALLOCATION_POSSIBLE, f.no_fat_chain)
    } else if i == 35 {
        f.units.len() as u8
    } else if 36 <= i < 38 {
        le_bytes16(f.name_hash)[i - 36]
    } else if 40 <= i < 48 {
        le_bytes64(f.valid_data_length)[i - 40]
    } else if 52 <= i < 56 {
        le_bytes32(f.first_cluster)[i - 52]
    } else if 56 <= i < 64 {
        le_bytes64(f.data_length)[i - 56]
    } else {
        0
    }
}

/// Eight stored bytes read back as the word.
pub proof fn lemma_le_bytes64_read(img: Seq<u8>, off: int, word: u64)
    requires
        forall|i: int| off <= i < off + 8 ==> #[trigger] img[i] == le_bytes64(word)[i - off],
    ensures
        le64(img, off) == word,
{
    let (lo, hi) = ((word % 0x1_0000_0000) as u32, (word / 0x1_0000_0000) as u32);
    let b = le_bytes64(word);
    assert forall|i: int| off <= i < off + 4 implies #[trigger] img[i] == le_bytes32(lo)[i - off] by {
        assert(b[i - off] == le_bytes32(lo)[i - off]);
    }
    assert forall|i: int| off + 4 <= i < off + 8 implies #[trigger] img[i] == le_bytes32(hi)[i - (off
        + 4)] by {
        assert(b[i - off] == le_bytes32(hi)[i - off - 4]);
    }
    lemma_le_bytes32_read(img, off, lo);
    lemma_le_bytes32_read(img, off + 4, hi);
}

/// Stamps of real instants fit their fields.
pub proof fn lemma_stamp_fits(t: EntryTimes)
    requires
        t.wf(),
    ensures
        0 <= stamp_field(t.created) <= u32::MAX,
        0 <= stamp_field(t.modified) <= u32::MAX,
        0 <= date_field(t.accessed) <= u32::MAX,
        0 <= increment_field(t.created) <= u8::MAX,
        0 <= increment_field(t.modified) <= u8::MAX,
{
}

/// `set` holds the bytes of the set of `f`, but for the checksum.
spec fn holds_bytes(f: SetFields, set: Seq<u8>) -> bool {
    &&& set.len() == 32 * (2 + name_slots(f.units.len() as int))
    &&& forall|i: int| 0 <= i < set.len() && i != 2 && i != 3 ==> #[trigger] set[i] == set_byte(f, i)
}

proof fn lemma_file_bytes(f: SetFields, set: Seq<u8>)
    requires
        f.units.len() <= 255,
        f.times.wf(),
        holds_bytes(f, set),
    ensures
        file_slot(f, set),
{
    lemma_stamp_fits(f.times);
    lemma_le_bytes32_read(set, 8, stamp_field(f.times.created) as u32);
    lemma_le_bytes32_read(set, 12, stamp_field(f.times.modified) as u32);
    lemma_le_bytes32_read(set, 16, date_field(f.times.accessed) as u32);
    assert(set[4] == le_bytes16(f.attributes)[0] && set[5] == le_bytes16(f.attributes)[1]);
    assert(set[6] == 0 && set[7] == 0);
}

proof fn lemma_stream_bytes(f: SetFields, set: Seq<u8>)
    requires
        f.units.len() <= 255,
        holds_bytes(f, set),
    ensures
        stream_slot(f, set),
{
    assert forall|i: int| 32 <= i < 64 implies #[trigger] set[i] == stream_byte(f, i) by {}
    lemma_le_bytes64_read(set, 40, f.valid_data_length);
    lemma_le_bytes64_read(set, 56, f.data_length);
    lemma_le_bytes32_read(set, 52, f.first_cluster);
    assert(set[36] == le_bytes16(f.name_hash)[0] && set[37] == le_bytes16(f.name_hash)[1]);
    assert(set[38] == 0 && set[39] == 0);
    assert(set[48] == 0 && set[49] == 0 && set[50] == 0 && set[51] == 0);
}

proof fn lemma_name_bytes(f: SetFields, set: Seq<u8>)
    requires
        f.units.len() <= 255,
        holds_bytes(f, set),
    ensures
        name_part(f, set, name_slots(f.units.len() as int)),
{
    let n = name_slots(f.units.len() as int);
    assert forall|i: int| 2 <= i < 2 + n implies #[trigger] set[32 * i] == (if f.units.len() == 0 {
        0
    } else {
        ENTRY_TYPE_FILE_NAME
    }) by {
        assert(set[32 * i] == set_byte(f, 32 * i));
    }
    assert forall|i: int| 2 <= i < 2 + n implies set[#[trigger] (32 * i) + 1] == 0 by {
        assert(set[32 * i + 1] == set_byte(f, 32 * i + 1));
    }
    assert forall|k: int| 0 <= k < 15 * n implies #[trigger] name_unit(set, k) == padded_unit(
        f.units,
        k,
    ) by {
        let p = 64 + 32 * (k / 15) + 2 + 2 * (k % 15);
        let u = padded_unit(f.units, k);
        assert(p / 32 == 2 + k / 15 && p % 32 == 2 + 2 * (k % 15));
        assert((p + 1) / 32 == 2 + k / 15 && (p + 1) % 32 == 3 + 2 * (k % 15));
        assert(p % 2 == 0 && (p + 1) % 2 == 1);
        assert(k / 15 < n);
        assert(set[p] == set_byte(f, p));
        assert(set[p + 1] == set_byte(f, p + 1));
        assert(set[p] == le_bytes16(u)[0]);
        assert(set[p + 1] == le_bytes16(u)[1]);
    }
}

/// Any fields have an entry set, as long as the name fits one.
pub proof fn law_composed_exists(f: SetFields)
    requires
        f.units.len() <= 255,
        f.times.wf(),
    ensures
        composed(f, set_bytes(f)),
{
    let n = name_slots(f.units.len() as int);
    let base = Seq::new((32 * (2 + n)) as nat, |i: int| set_byte(f, i));
    let sum = set_checksum_of(base);
    lemma_set_checksum_range(base);
    let set = spliced(base, 2, le_bytes16(sum as u16));
    law_set_checksum_ignores_itself(base, set);
    assert(set[2] == le_bytes16(sum as u16)[0] && set[3] == le_bytes16(sum as u16)[1]);
    assert(le16(set, 2) == sum);
    assert(holds_bytes(f, set));
    lemma_file_bytes(f, set);
    lemma_stream_bytes(f, set);
    lemma_name_bytes(f, set);
    assert(composed(f, set));
}

} // verus!
