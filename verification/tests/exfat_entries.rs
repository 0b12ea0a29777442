//! exFAT entry sets: checksum, composition, decoding.

use unifat::attrs::{AttrBits, ARCHIVE, DIRECTORY};
use unifat::calendar::{Date, PrimitiveDateTime, Time};
use unifat::codec::exfat::consts::EXFAT_ENTRY_SIZE;
use unifat::codec::exfat::raw_entry::{ExfatFileEntry, ExfatFileNameEntry, ExfatStreamExtension};
use unifat::codec::FixedCodec;
use unifat::entry_times::EntryTimes;
use unifat::exfat::compose::{compose_file_entry_set, compose_file_entry_set_full};
use unifat::exfat::direntry::{
    classify_fat_entry, entry_set_checksum, DirEntryDecoder, FatEntry,
};

#[test]
fn checksum_skips_bytes_2_and_3() {
    // Differing only in checksum bytes 2-3 → identical sums.
    let a = [0x85u8, 0x01, 0xAA, 0xBB, 0x20, 0x00];
    let b = [0x85u8, 0x01, 0x11, 0x22, 0x20, 0x00];
    assert_eq!(entry_set_checksum(&a), entry_set_checksum(&b));
}

#[test]
fn checksum_reacts_to_other_bytes() {
    let base = [0x85u8, 0x01, 0x00, 0x00, 0x20, 0x00];
    let mut bumped = base;
    bumped[5] = 0x21;
    assert_ne!(entry_set_checksum(&base), entry_set_checksum(&bumped));
}

/// Build a well-formed File + Stream Extension + File Name entry
/// set for the given name, with a correct `SetChecksum`.
fn synth_entry_set(name: &str, is_dir: bool, first_cluster: u32, size: u64) -> Vec<u8> {
    let name_u16: Vec<u16> = name.encode_utf16().collect();
    let name_entries_needed = name_u16.len().div_ceil(15);
    let secondary_count = 1 + name_entries_needed; // Stream + N FileName
    let total_entries = 1 + secondary_count;
    let mut set = vec![0u8; total_entries * EXFAT_ENTRY_SIZE];

    let attrs = if is_dir { DIRECTORY } else { ARCHIVE };
    let file = ExfatFileEntry::new_zeroed(
        u8::try_from(secondary_count).expect("test entry sets stay under 255 entries"),
        attrs,
    );
    file.write_into(&mut set[..EXFAT_ENTRY_SIZE]);

    let stream = ExfatStreamExtension::new(
        u8::try_from(name_u16.len()).expect("test names fit in 255 UCS-2 units"),
        first_cluster,
        size,
        size,
        false,
    );
    stream.write_into(&mut set[EXFAT_ENTRY_SIZE..EXFAT_ENTRY_SIZE * 2]);

    for (i, chunk) in name_u16.chunks(15).enumerate() {
        let off = EXFAT_ENTRY_SIZE * (2 + i);
        ExfatFileNameEntry::from_units(chunk).write_into(&mut set[off..off + EXFAT_ENTRY_SIZE]);
    }

    set[0x02] = 0;
    set[0x03] = 0;
    let sum = entry_set_checksum(&set);
    set[0x02..0x04].copy_from_slice(&sum.to_le_bytes());
    set
}

#[test]
fn decode_short_file_entry_set() {
    let set = synth_entry_set("hello.txt", false, 7, 123);
    let mut rd = DirEntryDecoder::new(set);
    let entry = rd.next().expect("decoded entry");
    assert_eq!(entry.name, "hello.txt");
    assert!(!entry.is_dir());
    assert!(entry.attributes.contains(ARCHIVE));
    assert_eq!(entry.first_cluster, 7);
    assert_eq!(entry.valid_data_length, 123);
    assert_eq!(entry.data_length, 123);
    assert!(!entry.no_fat_chain);
    assert!(rd.next().is_none());
}

#[test]
fn decode_directory_entry_set() {
    let set = synth_entry_set("SUBDIR", true, 42, 4096);
    let mut rd = DirEntryDecoder::new(set);
    let entry = rd.next().unwrap();
    assert_eq!(entry.name, "SUBDIR");
    assert!(entry.is_dir());
    assert_eq!(entry.first_cluster, 42);
}

#[test]
fn decode_long_filename_spanning_two_filename_entries() {
    let name = "a-very-long-filename.bin";
    let set = synth_entry_set(name, false, 9, 8);
    let mut rd = DirEntryDecoder::new(set);
    let entry = rd.next().unwrap();
    assert_eq!(entry.name, name);
}

#[test]
fn bad_checksum_rejects_entry_set() {
    let mut set = synth_entry_set("corrupt.bin", false, 2, 0);
    // Flip a byte outside the checksum field to invalidate it.
    set[0x04] ^= 0xFF;
    let mut rd = DirEntryDecoder::new(set);
    assert!(rd.next().is_none());
}

#[test]
fn deleted_entries_skipped() {
    let mut set = synth_entry_set("deleted.txt", false, 2, 0);
    // Clear the InUse bit on the primary to mark the set deleted.
    set[0x00] &= 0x7F;
    let mut rd = DirEntryDecoder::new(set);
    assert!(rd.next().is_none());
}

#[test]
fn terminator_stops_iteration() {
    let mut buf = synth_entry_set("real.txt", false, 2, 0);
    buf.extend(core::iter::repeat_n(0u8, EXFAT_ENTRY_SIZE));
    // An entry set after the terminator must not be yielded.
    buf.extend_from_slice(&synth_entry_set("after.txt", false, 3, 0));
    let mut rd = DirEntryDecoder::new(buf);
    assert_eq!(rd.next().unwrap().name, "real.txt");
    assert!(rd.next().is_none());
}

#[test]
fn fat_entry_classification() {
    assert_eq!(classify_fat_entry(0, 1000), FatEntry::Free);
    assert_eq!(classify_fat_entry(0xFFFF_FFFF, 1000), FatEntry::Eoc);
    assert_eq!(classify_fat_entry(0xFFFF_FFF7, 1000), FatEntry::Bad);
    assert_eq!(classify_fat_entry(5, 1000), FatEntry::Next(5));
    // Cluster 1 is reserved, so not a valid Next.
    assert_eq!(classify_fat_entry(1, 1000), FatEntry::Invalid);
    // Out-of-range (past cluster_count + 1) → invalid.
    assert_eq!(classify_fat_entry(2000, 1000), FatEntry::Invalid);
}

fn stamps() -> EntryTimes {
    let dt = PrimitiveDateTime::new(
        Date::from_calendar_date(2021, 7, 8).unwrap(),
        Time {
            hour: 13,
            minute: 37,
            second: 43,
            nanosecond: 120_000_000,
        },
    );
    EntryTimes::now(dt)
}

#[test]
fn composed_set_is_the_hand_built_one() {
    let set = compose_file_entry_set(
        "hello.txt",
        0,
        AttrBits::from_u16(ARCHIVE),
        7,
        123,
        false,
        EntryTimes::default(),
    );
    assert_eq!(set, synth_entry_set("hello.txt", false, 7, 123));
}

#[test]
fn composed_set_decodes_to_its_fields() {
    let t = stamps();
    let name = "имя 😀 with a tail long enough for three entries";
    let set = compose_file_entry_set_full(
        name,
        0xBEEF,
        AttrBits::from_u16(0x0021),
        9,
        10,
        4096,
        true,
        t,
    );
    let mut rd = DirEntryDecoder::new(set.clone());
    let e = rd.next().unwrap();
    assert_eq!(e.name, name);
    assert_eq!(e.attributes.bits(), 0x0021);
    assert_eq!(e.first_cluster, 9);
    assert_eq!(e.valid_data_length, 10);
    assert_eq!(e.data_length, 4096);
    assert!(e.no_fat_chain);
    assert_eq!(e.created, t.created);
    assert_eq!(e.modified, t.modified);
    assert_eq!(e.accessed, t.accessed);
    assert_eq!(e.entry_set_len as usize, set.len());
    assert_eq!(u16::from_le_bytes([set[36], set[37]]), 0xBEEF);
    assert!(rd.next().is_none());
}

#[test]
fn unpaired_surrogates_are_no_name() {
    let mut set = synth_entry_set("ab", false, 2, 0);
    // 0xD800 alone.
    set[64 + 2] = 0x00;
    set[64 + 3] = 0xD8;
    let sum = entry_set_checksum(&set);
    set[2..4].copy_from_slice(&sum.to_le_bytes());
    assert!(DirEntryDecoder::new(set).next().is_none());
}

#[test]
fn malformed_set_loses_only_its_primary() {
    let good = synth_entry_set("good.txt", false, 2, 0);
    let mut bad = [0u8; 32];
    bad[0] = 0x85;
    bad[1] = 3; // claims the whole set behind it
    let mut buf = bad.to_vec();
    buf.extend_from_slice(&good);
    let mut rd = DirEntryDecoder::new(buf);
    assert_eq!(rd.next().unwrap().name, "good.txt");
}
