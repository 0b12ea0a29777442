//! exFAT on-disk records.

use unifat::boot::EXFAT_OEM_IDENTIFIER;
use unifat::codec::exfat::boot::{boot_region_checksum, upcase_table_checksum, ExfatBootRecord};
use unifat::codec::exfat::consts::{ENTRY_TYPE_STREAM_EXTENSION, EXFAT_ENTRY_SIZE};
use unifat::codec::exfat::name_hash;
use unifat::codec::exfat::raw_entry::{
    ExfatClusteredMetaEntry, ExfatFatEntryWord, ExfatFileEntry, ExfatFileNameEntry,
    ExfatStreamExtension,
};
use unifat::codec::FixedCodec;
use unifat::fuzz::{exfat_boot, exfat_entries};

fn exfat_with_shifts(sector_shift: u8, cluster_shift: u8) -> ExfatBootRecord {
    ExfatBootRecord {
        _dummy_jmp: [0; 3],
        _oem_identifier: EXFAT_OEM_IDENTIFIER,
        _zeroed: [0; 53],
        _partition_offset: 0,
        volume_len: 0,
        fat_offset: 0,
        fat_len: 0,
        cluster_heap_offset: 0,
        cluster_count: 0,
        root_dir_cluster: 0,
        partition_serial_num: 0,
        fs_revision: 0,
        flags: 0,
        sector_shift,
        cluster_shift,
        fat_count: 1,
        drive_select: 0,
        used_percentage: 0,
        _reserved: [0; 7],
    }
}

#[test]
fn valid_shifts_accepted() {
    // Typical 512 B/sector, 8 sectors/cluster (4 KiB clusters).
    let br = exfat_with_shifts(9, 3);
    assert!(br.shifts_valid());
    assert_eq!(br.bytes_per_sector(), 512);
    assert_eq!(br.bytes_per_cluster(), 4096);
}

/// A 4 KiB-cluster volume with 100 data clusters (indices 2..=101).
fn exfat_with_clusters(cluster_count: u32) -> ExfatBootRecord {
    let mut br = exfat_with_shifts(9, 3); // 512 B/sector, 4 KiB/cluster
    br.cluster_count = cluster_count;
    br
}

#[test]
fn entry_geometry_accepts_valid_and_rejects_crafted() {
    let br = exfat_with_clusters(100); // valid clusters 2..=101, 4 KiB each
    let cl = 4096;

    // Valid: empty file, in-range single cluster, and the last cluster.
    assert!(br.entry_geometry_valid(0, 0, 0, false));
    assert!(br.entry_geometry_valid(2, cl, cl, true));
    assert!(br.entry_geometry_valid(101, cl, 0, true));
    assert!(br.entry_geometry_valid(2, 100 * cl, 100 * cl, true)); // fills heap

    // Rejected: allocation with no cluster, or data with no allocation.
    assert!(!br.entry_geometry_valid(0, 1, 0, false));
    // Rejected: cluster index below the heap or past its end.
    assert!(!br.entry_geometry_valid(1, cl, cl, false));
    assert!(!br.entry_geometry_valid(102, cl, cl, false));
    // Rejected: more clusters than the volume has.
    assert!(!br.entry_geometry_valid(2, 101 * cl, 101 * cl, false));
    // Rejected: contiguous run spilling past the heap end.
    assert!(!br.entry_geometry_valid(100, 3 * cl, 3 * cl, true));
    // Rejected: valid_data_length exceeds data_length.
    assert!(!br.entry_geometry_valid(2, cl, cl + 1, false));
    // A FAT-chained file whose data_length fits is fine even near the end.
    assert!(br.entry_geometry_valid(100, 2 * cl, 2 * cl, false));
}

#[test]
fn entry_geometry_never_panics_on_extremes() {
    // Zero-cluster and max-cluster volumes must not overflow/underflow.
    assert!(exfat_with_clusters(0).entry_geometry_valid(0, 0, 0, false));
    assert!(!exfat_with_clusters(0).entry_geometry_valid(2, 1, 1, true));
    let max = exfat_with_clusters(u32::MAX);
    let _ = max.entry_geometry_valid(u32::MAX, u64::MAX, u64::MAX, true);
    let _ = max.entry_geometry_valid(2, u64::MAX, 0, false);
}

#[test]
fn sub_512_byte_sector_rejected() {
    // BytesPerSectorShift below 9 (sub-512-byte sector) is out of range.
    for shift in 0..9u8 {
        assert!(!exfat_with_shifts(shift, 0).shifts_valid(), "shift {shift}");
    }
    assert!(exfat_with_shifts(9, 0).shifts_valid());
}

#[test]
fn out_of_range_shifts_rejected_not_panicked() {
    // sector_shift past the maximum (12).
    let a = exfat_with_shifts(40, 0);
    assert!(!a.shifts_valid());
    // sector_shift + cluster_shift past the cap (25).
    let b = exfat_with_shifts(12, 20);
    assert!(!b.shifts_valid());
    // Adversarial values that would overflow a `u8` addition.
    let c = exfat_with_shifts(200, 200);
    assert!(!c.shifts_valid());

    // The byte-size helpers must not panic on any of these; an
    // out-of-width shift saturates to 0.
    assert_eq!(a.bytes_per_sector(), 0);
    assert_eq!(a.bytes_per_cluster(), 0);
    assert_eq!(b.bytes_per_sector(), 4096);
    assert_eq!(b.bytes_per_cluster(), 0);
    assert_eq!(c.bytes_per_sector(), 0);
    assert_eq!(c.bytes_per_cluster(), 0);
}

#[test]
fn name_hash_known_vectors() {
    // Hand-computed:
    // "A" (0x0041): 0x41 -> 0x0041; 0x00 -> rotr(0x0041) = 0x8020.
    assert_eq!(name_hash(&[0x0041u16]), 0x8020);
    // "AB": continue with 0x42 -> rotr(0x8020)+0x42 = 0x4052;
    // 0x00 -> rotr(0x4052) = 0x2029.
    assert_eq!(name_hash(&[0x0041u16, 0x0042]), 0x2029);
    // Hash is over upcased units, so equal inputs hash equal.
    let a: Vec<u16> = "FILE.TXT".encode_utf16().collect();
    let b: Vec<u16> = "FILE.TXT".encode_utf16().collect();
    assert_eq!(name_hash(&a), name_hash(&b));
    assert_eq!(name_hash(&[]), 0);
}

#[test]
fn file_entry_round_trips() {
    let e = ExfatFileEntry::new_zeroed(2, 0x20);
    let mut b = [0u8; EXFAT_ENTRY_SIZE];
    e.write_into(&mut b);
    assert_eq!(ExfatFileEntry::parse(&b), Some(e));
}

#[test]
fn stream_entry_round_trips() {
    let e = ExfatStreamExtension::new(5, 7, 123, 123, true);
    let mut b = [0u8; EXFAT_ENTRY_SIZE];
    e.write_into(&mut b);
    assert_eq!(b[0], ENTRY_TYPE_STREAM_EXTENSION);
    assert!(e.no_fat_chain());
    let parsed = ExfatStreamExtension::parse(&b).unwrap();
    assert_eq!(parsed, e);
    assert_eq!(parsed.first_cluster, 7);
    assert_eq!(parsed.valid_data_length, 123);
}

#[test]
fn file_name_entry_packs_ucs2_le() {
    let e = ExfatFileNameEntry::from_units(&[0x0041, 0x0042]);
    let mut b = [0u8; EXFAT_ENTRY_SIZE];
    e.write_into(&mut b);
    assert_eq!(&b[2..6], &[0x41, 0x00, 0x42, 0x00]);
    assert_eq!(ExfatFileNameEntry::parse(&b), Some(e));
}

#[test]
fn fat_entry_word_round_trips() {
    let w = ExfatFatEntryWord(0x0ABC_DEF0);
    assert_eq!(ExfatFatEntryWord::parse(&w.encode()).0, 0x0ABC_DEF0);
}

#[test]
fn fat_entry_word_is_little_endian() {
    assert_eq!(ExfatFatEntryWord(0x0102_0304).encode(), [4, 3, 2, 1]);
}

#[test]
fn wrong_type_byte_is_not_parsed() {
    let b = [0u8; 32];
    assert!(ExfatFileEntry::parse(&b).is_none());
    assert!(ExfatStreamExtension::parse(&b).is_none());
    assert!(ExfatFileNameEntry::parse(&b).is_none());
    assert!(ExfatClusteredMetaEntry::parse(&b).is_some());
    assert!(ExfatClusteredMetaEntry::parse(&b[..31]).is_none());
}

#[test]
fn no_fat_chain_flag_toggles_alone() {
    let mut e = ExfatStreamExtension::new(1, 2, 3, 4, false);
    assert!(!e.no_fat_chain());
    assert_eq!(e.general_secondary_flags, 0x01);
    e.set_no_fat_chain(true);
    assert!(e.no_fat_chain());
    assert_eq!(e.general_secondary_flags, 0x03);
    e.set_no_fat_chain(false);
    assert_eq!(e.general_secondary_flags, 0x01);
}

#[test]
fn boot_checksum_skips_mutable_bytes() {
    let mut region = vec![0u8; 11 * 512];
    for (i, b) in region.iter_mut().enumerate() {
        *b = (i % 251) as u8;
    }
    let sum = boot_region_checksum(&region);
    region[106] ^= 0xFF;
    region[107] ^= 0xFF;
    region[112] ^= 0xFF;
    assert_eq!(boot_region_checksum(&region), sum);
    region[105] ^= 0xFF;
    assert_ne!(boot_region_checksum(&region), sum);
}

#[test]
fn table_checksum_known_values() {
    assert_eq!(upcase_table_checksum(&[]), 0);
    assert_eq!(upcase_table_checksum(&[1]), 1);
    // rotr(1) = 0x8000_0000, plus 2.
    assert_eq!(upcase_table_checksum(&[1, 2]), 0x8000_0002);
}

#[test]
fn exfat_records_reach_a_fixed_point() {
    let mut record = [0u8; 120];
    for (i, b) in record.iter_mut().enumerate() {
        *b = i as u8;
    }
    assert_eq!(exfat_boot(&record), Some(record));
    assert_eq!(exfat_boot(&record[..119]), None);

    let mut slot = [7u8; 32];
    slot[0] = 0x85;
    let images = exfat_entries(&slot);
    assert_eq!(images.file, Some(slot));
    assert_eq!(images.stream, None);
    assert_eq!(images.name, None);
    assert_eq!(images.meta.map(|m| m.first_cluster), Some(0x0707_0707));
    slot[0] = 0xC1;
    assert_eq!(exfat_entries(&slot).name, Some(slot));
}
