//! What the fixed-size records are made of, field behind field.

use vstd::prelude::*;

use super::FixedCodec;
use super::exfat::boot::ExfatBootRecord;
use super::exfat::raw_entry::{
    ExfatClusteredMetaEntry, ExfatFileEntry, ExfatFileNameEntry, ExfatStreamExtension,
};
use super::fat::bpb::{Fat16Ebr, Fat32Ebr, Fat32FsInfo, FatBpb};
use super::fat::dir_entry::RawDirEntry;
use super::fat::lfn::LfnEntry;
use crate::bytes::{le16, le32, le64};

verus! {

/// The two bytes of a word, the lower first.
pub open spec fn two(v: u16) -> Seq<u8> {
    seq![(v & 0xFF) as u8, (v >> 8u16) as u8]
}

/// The four bytes of a word, the lowest first.
pub open spec fn four(v: u32) -> Seq<u8> {
    seq![
        (v & 0xFF) as u8,
        ((v >> 8u32) & 0xFF) as u8,
        ((v >> 16u32) & 0xFF) as u8,
        (v >> 24u32) as u8,
    ]
}

/// The eight bytes of a word, the lowest first.
pub open spec fn eight(v: u64) -> Seq<u8> {
    four((v & 0xFFFF_FFFF) as u32) + four((v >> 32u64) as u32)
}

proof fn lemma_two(b: Seq<u8>, at: int, v: u16)
    requires
        v == le16(b, at),
    ensures
        two(v).len() == 2,
        two(v)[0] == b[at],
        two(v)[1] == b[at + 1],
{
    assert(v & 0xFF == v % 0x100 && v >> 8u16 == v / 0x100) by (bit_vector);
}

proof fn lemma_four(b: Seq<u8>, at: int, v: u32)
    requires
        v == le32(b, at),
    ensures
        four(v).len() == 4,
        four(v)[0] == b[at],
        four(v)[1] == b[at + 1],
        four(v)[2] == b[at + 2],
        four(v)[3] == b[at + 3],
{
    let (p, q, r, t) = (b[at], b[at + 1], b[at + 2], b[at + 3]);
    assert((v & 0xFF) as u8 == p && ((v >> 8u32) & 0xFF) as u8 == q && ((v >> 16u32) & 0xFF) as u8
        == r && (v >> 24u32) as u8 == t) by (bit_vector)
        requires
            v == p as u32 + 0x100u32 * (q as u32) + 0x1_0000u32 * (r as u32) + 0x100_0000u32 * (
            t as u32),
    ;
}

proof fn lemma_eight(b: Seq<u8>, at: int, v: u64)
    requires
        v == le64(b, at),
    ensures
        eight(v).len() == 8,
        forall|i: int| 0 <= i < 8 ==> #[trigger] eight(v)[i] == b[at + i],
{
    assert(v & 0xFFFF_FFFF == v % 0x1_0000_0000 && v >> 32u64 == v / 0x1_0000_0000) by (bit_vector);
    let (lo, hi) = (le32(b, at), le32(b, at + 4));
    assert(v == lo + 0x1_0000_0000 * hi);
    lemma_four(b, at, lo as u32);
    lemma_four(b, at + 4, hi as u32);
}

/// An exFAT File entry, a Stream Extension, a File Name entry, and the entry of an
/// allocation bitmap or an up-case table are made of these fields, in this order.
pub proof fn law_exfat_entries_field_by_field(
    f: ExfatFileEntry,
    s: ExfatStreamExtension,
    n: ExfatFileNameEntry,
    m: ExfatClusteredMetaEntry,
    b: Seq<u8>,
)
    requires
        b.len() == 32,
    ensures
        f.decoded_from(b) || f.encoded_as(b) ==> b == seq![f.entry_type, f.secondary_count] + two(
            f.set_checksum,
        ) + two(f.attributes) + two(f._reserved1) + four(f.create_timestamp) + four(
            f.modified_timestamp,
        ) + four(f.accessed_timestamp) + seq![
            f.create_10ms,
            f.modified_10ms,
            f.create_utc_offset,
            f.modified_utc_offset,
            f.accessed_utc_offset,
        ] + f._reserved2@,
        s.decoded_from(b) || s.encoded_as(b) ==> b == seq![
            s.entry_type,
            s.general_secondary_flags,
            s._reserved1,
            s.name_length,
        ] + two(s.name_hash) + two(s._reserved2) + eight(s.valid_data_length) + four(s._reserved3)
            + four(s.first_cluster) + eight(s.data_length),
        n.decoded_from(b) || n.encoded_as(b) ==> b[0] == n.entry_type && b[1]
            == n.general_secondary_flags && forall|k: int|
            0 <= k < 15 ==> b[2 + 2 * k] + 0x100 * b[3 + 2 * k] == #[trigger] n.name@[k],
        m.layout(b) ==> b == seq![m.entry_type] + m._reserved1@ + four(m.table_checksum)
            + m._reserved2@ + four(m.first_cluster) + eight(m.data_length),
{
    if f.decoded_from(b) || f.encoded_as(b) {
        lemma_two(b, 2, f.set_checksum);
        lemma_two(b, 4, f.attributes);
        lemma_two(b, 6, f._reserved1);
        lemma_four(b, 8, f.create_timestamp);
        lemma_four(b, 12, f.modified_timestamp);
        lemma_four(b, 16, f.accessed_timestamp);
        assert(b =~= seq![f.entry_type, f.secondary_count] + two(f.set_checksum) + two(f.attributes)
            + two(f._reserved1) + four(f.create_timestamp) + four(f.modified_timestamp) + four(
            f.accessed_timestamp,
        ) + seq![
            f.create_10ms,
            f.modified_10ms,
            f.create_utc_offset,
            f.modified_utc_offset,
            f.accessed_utc_offset,
        ] + f._reserved2@);
    }
    if s.decoded_from(b) || s.encoded_as(b) {
        lemma_two(b, 4, s.name_hash);
        lemma_two(b, 6, s._reserved2);
        lemma_eight(b, 8, s.valid_data_length);
        lemma_four(b, 16, s._reserved3);
        lemma_four(b, 20, s.first_cluster);
        lemma_eight(b, 24, s.data_length);
        assert(b =~= seq![
            s.entry_type,
            s.general_secondary_flags,
            s._reserved1,
            s.name_length,
        ] + two(s.name_hash) + two(s._reserved2) + eight(s.valid_data_length) + four(s._reserved3)
            + four(s.first_cluster) + eight(s.data_length));
    }
    if m.layout(b) {
        lemma_four(b, 4, m.table_checksum);
        lemma_four(b, 20, m.first_cluster);
        lemma_eight(b, 24, m.data_length);
        assert(b =~= seq![m.entry_type] + m._reserved1@ + four(m.table_checksum) + m._reserved2@
            + four(m.first_cluster) + eight(m.data_length));
    }
}

/// An exFAT boot record is made of these fields, in this order.
pub proof fn law_exfat_boot_record_field_by_field(v: ExfatBootRecord, b: Seq<u8>)
    requires
        b.len() == 120,
        v.decoded_from(b) || v.encoded_as(b),
    ensures
        b == v._dummy_jmp@ + v._oem_identifier@ + v._zeroed@ + eight(v._partition_offset) + eight(
            v.volume_len,
        ) + four(v.fat_offset) + four(v.fat_len) + four(v.cluster_heap_offset) + four(
            v.cluster_count,
        ) + four(v.root_dir_cluster) + four(v.partition_serial_num) + two(v.fs_revision) + two(
            v.flags,
        ) + seq![
            v.sector_shift,
            v.cluster_shift,
            v.fat_count,
            v.drive_select,
            v.used_percentage,
        ] + v._reserved@,
{
    lemma_eight(b, 64, v._partition_offset);
    lemma_eight(b, 72, v.volume_len);
    lemma_four(b, 80, v.fat_offset);
    lemma_four(b, 84, v.fat_len);
    lemma_four(b, 88, v.cluster_heap_offset);
    lemma_four(b, 92, v.cluster_count);
    lemma_four(b, 96, v.root_dir_cluster);
    lemma_four(b, 100, v.partition_serial_num);
    lemma_two(b, 104, v.fs_revision);
    lemma_two(b, 106, v.flags);
    assert(b =~= v._dummy_jmp@ + v._oem_identifier@ + v._zeroed@ + eight(v._partition_offset)
        + eight(v.volume_len) + four(v.fat_offset) + four(v.fat_len) + four(v.cluster_heap_offset)
        + four(v.cluster_count) + four(v.root_dir_cluster) + four(v.partition_serial_num) + two(
        v.fs_revision,
    ) + two(v.flags) + seq![
        v.sector_shift,
        v.cluster_shift,
        v.fat_count,
        v.drive_select,
        v.used_percentage,
    ] + v._reserved@);
}

/// A FAT boot parameter block is made of these fields, in this order.
pub proof fn law_fat_bpb_field_by_field(v: FatBpb, b: Seq<u8>)
    requires
        b.len() == 36,
        v.decoded_from(b) || v.encoded_as(b),
    ensures
        b == v._jmpboot@ + v._oem_identifier@ + two(v.bytes_per_sector) + seq![v.sectors_per_cluster]
            + two(v.reserved_sector_count) + seq![v.table_count] + two(v.root_entry_count) + two(
            v.total_sectors_16,
        ) + seq![v._media_type] + two(v.table_size_16) + two(v._sectors_per_track) + two(
            v._head_side_count,
        ) + four(v._hidden_sector_count) + four(v.total_sectors_32),
{
    lemma_two(b, 11, v.bytes_per_sector);
    lemma_two(b, 14, v.reserved_sector_count);
    lemma_two(b, 17, v.root_entry_count);
    lemma_two(b, 19, v.total_sectors_16);
    lemma_two(b, 22, v.table_size_16);
    lemma_two(b, 24, v._sectors_per_track);
    lemma_two(b, 26, v._head_side_count);
    lemma_four(b, 28, v._hidden_sector_count);
    lemma_four(b, 32, v.total_sectors_32);
    assert(b =~= v._jmpboot@ + v._oem_identifier@ + two(v.bytes_per_sector) + seq![
        v.sectors_per_cluster,
    ] + two(v.reserved_sector_count) + seq![v.table_count] + two(v.root_entry_count) + two(
        v.total_sectors_16,
    ) + seq![v._media_type] + two(v.table_size_16) + two(v._sectors_per_track) + two(
        v._head_side_count,
    ) + four(v._hidden_sector_count) + four(v.total_sectors_32));
}

/// The FAT16 and FAT32 extended boot records and the FSInfo sector are made of
/// these fields, in this order. The flags of a FAT32 record hold the number of the
/// active FAT in their lowest four bits and in bit 7 that it alone is written.
pub proof fn law_fat_extended_records_field_by_field(
    s: Fat16Ebr,
    w: Fat32Ebr,
    f: Fat32FsInfo,
    b: Seq<u8>,
    c: Seq<u8>,
)
    requires
        b.len() == 476,
        c.len() == 512,
    ensures
        s.decoded_from(b) || s.encoded_as(b) ==> b == seq![
            s._drive_num,
            s._windows_nt_flags,
            s.boot_signature,
        ] + four(s.volume_serial_num) + s.volume_label@ + s._system_identifier@ + s._boot_code@
            + two(s.signature),
        w.decoded_from(b) || w.encoded_as(b) ==> b == four(w.table_size_32) + seq![b[4], b[5]]
            + seq![w.fat_version.minor, w.fat_version.major] + four(w.root_cluster) + two(
            w.fat_info,
        ) + two(w.backup_boot_sector) + w._reserved@ + seq![
            w._drive_num,
            w._windows_nt_flags,
            w.boot_signature,
        ] + four(w.volume_serial_num) + w.volume_label@ + w._system_ident@ + w._boot_code@ + two(
            w.signature,
        ),
        w.decoded_from(b) ==> {
            &&& w.extended_flags.active_fat == b[4] & 0x0F
            &&& w.extended_flags.mirroring_disabled <==> b[4] & 0x80 == 0x80
        },
        f.decoded_from(c) || f.encoded_as(c) ==> c == four(f.lead_signature) + f._reserved1@ + four(
            f.mid_signature,
        ) + four(f.free_cluster_count) + four(f.first_free_cluster) + f._reserved2@ + four(
            f.trail_signature,
        ),
{
    if s.decoded_from(b) || s.encoded_as(b) {
        lemma_four(b, 3, s.volume_serial_num);
        lemma_two(b, 474, s.signature);
        assert(b =~= seq![s._drive_num, s._windows_nt_flags, s.boot_signature] + four(
            s.volume_serial_num,
        ) + s.volume_label@ + s._system_identifier@ + s._boot_code@ + two(s.signature));
    }
    if w.decoded_from(b) || w.encoded_as(b) {
        lemma_four(b, 0, w.table_size_32);
        lemma_four(b, 8, w.root_cluster);
        lemma_two(b, 12, w.fat_info);
        lemma_two(b, 14, w.backup_boot_sector);
        lemma_four(b, 31, w.volume_serial_num);
        lemma_two(b, 474, w.signature);
        assert(b =~= four(w.table_size_32) + seq![b[4], b[5]] + seq![
            w.fat_version.minor,
            w.fat_version.major,
        ] + four(w.root_cluster) + two(w.fat_info) + two(w.backup_boot_sector) + w._reserved@
            + seq![w._drive_num, w._windows_nt_flags, w.boot_signature] + four(w.volume_serial_num)
            + w.volume_label@ + w._system_ident@ + w._boot_code@ + two(w.signature));
        let (lo, hi) = (b[4], b[5]);
        let raw = (lo + 0x100 * hi) as u16;
        assert((raw & 0x000F) as u8 == lo & 0x0F && (raw & 0x0080 != 0 <==> lo & 0x80 == 0x80u8))
            by (bit_vector)
            requires
                raw == lo as u16 + 0x100u16 * (hi as u16),
        ;
    }
    if f.decoded_from(c) || f.encoded_as(c) {
        lemma_four(c, 0, f.lead_signature);
        lemma_four(c, 484, f.mid_signature);
        lemma_four(c, 488, f.free_cluster_count);
        lemma_four(c, 492, f.first_free_cluster);
        lemma_four(c, 508, f.trail_signature);
        assert(c =~= four(f.lead_signature) + f._reserved1@ + four(f.mid_signature) + four(
            f.free_cluster_count,
        ) + four(f.first_free_cluster) + f._reserved2@ + four(f.trail_signature));
    }
}

/// A FAT long-name slot is made of these fields, in this order; its units are the
/// words of its three runs of characters. A short-name record has its name first,
/// and its cluster and size at these places.
pub proof fn law_fat_slots_field_by_field(v: LfnEntry, e: RawDirEntry, b: Seq<u8>, k: int)
    requires
        b.len() == 32,
        0 <= k < 13,
    ensures
        v.decoded_from(b) || v.encoded_as(b) ==> {
            let units = v.first_chars@ + v.mid_chars@ + v.last_chars@;
            &&& b == seq![v.order] + v.first_chars@ + seq![
                v._lfn_attribute,
                v._long_entry_type,
                v.checksum,
            ] + v.mid_chars@ + v._zeroed@ + v.last_chars@
            &&& v.unit(k) == units[2 * k] + 0x100 * units[2 * k + 1]
        },
        e.decoded_from(b) || e.encoded_as(b) ==> {
            &&& b.subrange(0, 13) == e.sfn.name@ + e.sfn.ext@ + seq![e.attributes.0, e._reserved]
            &&& b.subrange(20, 22) == two(e.cluster_high)
            &&& b.subrange(26, 32) == two(e.cluster_low) + four(e.file_size)
        },
{
    if v.decoded_from(b) || v.encoded_as(b) {
        assert(b =~= seq![v.order] + v.first_chars@ + seq![
            v._lfn_attribute,
            v._long_entry_type,
            v.checksum,
        ] + v.mid_chars@ + v._zeroed@ + v.last_chars@);
    }
    if e.decoded_from(b) || e.encoded_as(b) {
        lemma_two(b, 20, e.cluster_high);
        lemma_two(b, 26, e.cluster_low);
        lemma_four(b, 28, e.file_size);
        assert(b.subrange(0, 13) =~= e.sfn.name@ + e.sfn.ext@ + seq![e.attributes.0, e._reserved]);
        assert(b.subrange(20, 22) =~= two(e.cluster_high));
        assert(b.subrange(26, 32) =~= two(e.cluster_low) + four(e.file_size));
    }
}

} // verus!
