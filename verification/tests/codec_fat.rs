//! FAT on-disk records.

use unifat::codec::fat::bpb::{
    Ebr, Fat16Ebr, Fat32ExtendedFlags, Fat32FsInfo, FatBootRecord, FatBpb, BOOT_SIGNATURE,
    FAT_SIGNATURE,
};
use unifat::codec::fat::dir_entry::RawDirEntry;
use unifat::codec::fat::fat_entry::{decode_fat_cell, FatEntry};
use unifat::codec::fat::lfn::LfnEntry;
use unifat::codec::fat::sector::is_valid_sector_size;
use unifat::codec::fat::sfn_layout::Sfn;
use unifat::codec::fat::types::FatType;
use unifat::codec::FixedCodec;
use unifat::fuzz::{fat_bpb, fat_dir_entry, fat_lfn};

/// The on-disk boot-sector signature is the bytes `55 AA`, which
/// decode little-endian into `0xAA55`.
#[test]
fn fat_signature_constant_is_little_endian_decoded() {
    assert_eq!(FAT_SIGNATURE, 0xAA55);
    assert_eq!(
        u16::from_le_bytes([0x55, 0xAA]),
        FAT_SIGNATURE,
        "FAT_SIGNATURE must equal the LE decode of the on-disk `55 AA`",
    );
}

fn ebr16(boot_signature: u8) -> Ebr {
    Ebr::Fat16(Fat16Ebr {
        _drive_num: 0,
        _windows_nt_flags: 0,
        boot_signature,
        volume_serial_num: 0,
        volume_label: [0; 11],
        _system_identifier: [0; 8],
        _boot_code: [0; 448],
        signature: FAT_SIGNATURE,
    })
}

/// `CountofClusters` is exactly `DataSec / SPC` with
/// `DataSec = TotSec - FirstDataSec` (no phantom `+1` sector).
#[test]
fn cluster_count_is_spec_exact_at_type_boundaries() {
    fn boot32(sectors_per_cluster: u8, total_sectors_32: u32) -> FatBootRecord {
        FatBootRecord {
            bpb: FatBpb {
                _jmpboot: [0; 3],
                _oem_identifier: [0; 8],
                bytes_per_sector: 512,
                sectors_per_cluster,
                reserved_sector_count: 1,
                table_count: 2,
                root_entry_count: 32, // 2 root-dir sectors
                total_sectors_16: 0,
                _media_type: 0,
                table_size_16: 16,
                _sectors_per_track: 0,
                _head_side_count: 0,
                _hidden_sector_count: 0,
                total_sectors_32,
            },
            ebr: ebr16(BOOT_SIGNATURE),
        }
    }
    // FirstDataSec = 1 (reserved) + 2*16 (FATs) + 2 (root) = 35.
    let first_data = 35u32;

    let br = boot32(2, first_data + 2 * 10_000 + 1);
    assert_eq!(br.total_clusters(), 10_000);
    assert_eq!(br.max_cluster(), 10_001);

    // FAT16/FAT32 threshold: exactly 65,524 clusters is FAT16.
    let br = boot32(2, first_data + 2 * 65_524 + 1);
    assert_eq!(br.total_clusters(), 65_524);
    assert_eq!(br.fat_type(), Some(FatType::FAT16));

    // FAT12/FAT16 threshold: 4,084 clusters is FAT12 → rejected.
    let br = boot32(2, first_data + 2 * 4_084 + 1);
    assert_eq!(br.total_clusters(), 4_084);
    assert_eq!(br.fat_type(), None, "FAT12 must be rejected");
}

/// A crafted BPB with maxed-out geometry fields must not panic when a
/// mount computes cluster counts. Every helper must return a bounded value
/// instead of overflowing.
#[test]
fn adversarial_bpb_geometry_never_panics() {
    fn boot(
        bytes_per_sector: u16,
        sectors_per_cluster: u8,
        root_entry_count: u16,
        table_count: u8,
        table_size_16: u16,
        reserved_sector_count: u16,
        total_sectors_16: u16,
    ) -> FatBootRecord {
        FatBootRecord {
            bpb: FatBpb {
                _jmpboot: [0; 3],
                _oem_identifier: [0; 8],
                bytes_per_sector,
                sectors_per_cluster,
                reserved_sector_count,
                table_count,
                root_entry_count,
                total_sectors_16,
                _media_type: 0,
                table_size_16,
                _sectors_per_track: 0,
                _head_side_count: 0,
                _hidden_sector_count: 0,
                total_sectors_32: 0,
            },
            ebr: ebr16(0),
        }
    }

    for br in [
        // All fields maxed — every multiply/add would overflow `u32`.
        boot(
            u16::MAX,
            u8::MAX,
            u16::MAX,
            u8::MAX,
            u16::MAX,
            u16::MAX,
            u16::MAX,
        ),
        // Zero divisors on both division paths.
        boot(0, 0, u16::MAX, 1, 1, 1, 1),
        // first_data_sector far past total_sectors → sub would underflow.
        boot(512, 1, u16::MAX, u8::MAX, u16::MAX, u16::MAX, 1),
    ] {
        // None of these may panic; values are just bounded.
        let _ = br.root_dir_sectors();
        let _ = br.first_data_sector();
        let _ = br.total_data_sectors();
        let _ = br.total_clusters();
        let _ = br.fat_type();
    }
}

#[test]
fn fat16_cells_decode() {
    let n = 100;
    assert_eq!(decode_fat_cell(0x0000, n, FatType::FAT16), FatEntry::Free);
    assert_eq!(
        decode_fat_cell(0x0002, n, FatType::FAT16),
        FatEntry::Next(2)
    );
    assert_eq!(
        decode_fat_cell(0x0064, n, FatType::FAT16),
        FatEntry::Next(100)
    );
    assert_eq!(decode_fat_cell(0xFFF7, n, FatType::FAT16), FatEntry::Bad);
    assert_eq!(decode_fat_cell(0xFFF8, n, FatType::FAT16), FatEntry::End);
    assert_eq!(decode_fat_cell(0xFFFF, n, FatType::FAT16), FatEntry::End);
    // Past the heap → reserved, not a follow.
    assert_eq!(
        decode_fat_cell(0x0065, n, FatType::FAT16),
        FatEntry::Reserved
    );
}

#[test]
fn fat32_ignores_reserved_top_nibble() {
    let n = 1_000_000;
    // Top nibble set must not change the classification.
    assert_eq!(
        decode_fat_cell(0xF000_0002, n, FatType::FAT32),
        FatEntry::Next(2)
    );
    assert_eq!(
        decode_fat_cell(0x0FFF_FFFF, n, FatType::FAT32),
        FatEntry::End
    );
    assert_eq!(
        decode_fat_cell(0xFFFF_FFF8, n, FatType::FAT32),
        FatEntry::End
    );
    assert_eq!(
        decode_fat_cell(0x0FFF_FFF7, n, FatType::FAT32),
        FatEntry::Bad
    );
    assert_eq!(
        decode_fat_cell(0x0000_0000, n, FatType::FAT32),
        FatEntry::Free
    );
}

#[test]
fn end_value_round_trips_to_end() {
    for ty in [FatType::FAT16, FatType::FAT32] {
        assert_eq!(decode_fat_cell(ty.end_value(), 50, ty), FatEntry::End);
    }
}

#[test]
fn only_supported_power_of_two_sizes_pass() {
    for ok in [512, 1024, 2048, 4096] {
        assert!(is_valid_sector_size(ok), "{ok} should be valid");
    }
    // Zero (exFAT VBR), non-powers-of-two, and out-of-range all reject.
    for bad in [0, 256, 513, 1000, 3072, 8192, u16::MAX] {
        assert!(!is_valid_sector_size(bad), "{bad} should be rejected");
    }
}

#[test]
fn extended_flags_keep_every_bit() {
    for raw in [0x0000u16, 0x0001, 0x008F, 0xFF70, 0xFFFF, 0x1234] {
        let flags = Fat32ExtendedFlags::decode(raw);
        assert_eq!(flags.encode(), raw);
    }
    let f = Fat32ExtendedFlags::decode(0x0083);
    assert_eq!(f.active_fat, 3);
    assert!(f.mirroring_disabled);
}

#[test]
fn unknown_fsinfo_is_signed() {
    let f = Fat32FsInfo::unknown();
    assert!(f.verify_signature());
    assert_eq!(f.free_cluster_count, u32::MAX);
    let mut b = [0u8; 512];
    f.write_into(&mut b);
    assert_eq!(&b[0..4], b"RRaA");
    assert_eq!(&b[508..512], &[0, 0, 0x55, 0xAA]);
    assert!(Fat32FsInfo::parse(&b).unwrap().verify_signature());
}

#[test]
fn fat_records_reach_a_fixed_point() {
    let mut bpb = [0u8; 36];
    for (i, b) in bpb.iter_mut().enumerate() {
        *b = i as u8;
    }
    assert_eq!(fat_bpb(&bpb), Some(bpb));
    assert_eq!(fat_bpb(&bpb[..35]), None);

    let lfn = [0x41u8; 32];
    assert_eq!(fat_lfn(&lfn), Some(lfn));

    // A stamp that no calendar has is written back as absent.
    let mut slot = [0u8; 32];
    slot[..11].copy_from_slice(b"HELLO   TXT");
    slot[16] = 0xFF;
    slot[17] = 0xFF;
    let once = fat_dir_entry(&slot).unwrap();
    assert_eq!(&once[16..18], &[0, 0]);
    assert_eq!(fat_dir_entry(&once), Some(once));
}

#[test]
fn lfn_units_come_from_all_three_runs() {
    let mut b = [0u8; 32];
    for k in 0..5usize {
        b[1 + 2 * k] = b'a' + k as u8;
    }
    for k in 0..6usize {
        b[14 + 2 * k] = b'f' + k as u8;
    }
    for k in 0..2usize {
        b[28 + 2 * k] = b'l' + k as u8;
    }
    let lfn = LfnEntry::parse(&b).unwrap();
    assert!(lfn.verify_signature());
    let text: String = char::decode_utf16(lfn.utf16_units().iter().copied())
        .map(|r| r.unwrap())
        .collect();
    assert_eq!(text, "abcdefghijklm");
    b[26] = 1;
    assert!(!LfnEntry::parse(&b).unwrap().verify_signature());
}

#[test]
fn short_names_decode_for_display() {
    let sfn = Sfn {
        name: *b"HELLO   ",
        ext: *b"TXT",
    };
    assert_eq!(sfn.decode(), "HELLO.TXT");
    let sfn = Sfn {
        name: *b"NOEXT   ",
        ext: *b"   ",
    };
    assert_eq!(sfn.decode(), "NOEXT");
    // 0x05 escapes a leading 0xE5, which is no ASCII.
    let sfn = Sfn {
        name: [0x05, b'A', b' ', b' ', b' ', b' ', b' ', b' '],
        ext: *b"   ",
    };
    assert_eq!(sfn.decode(), "\u{FFFD}A");
}

#[test]
fn short_name_checksum_known_value() {
    // One rotate-and-add step per byte, by hand for the first two.
    let sfn = Sfn {
        name: [0; 8],
        ext: [0, 1, 2],
    };
    // ... 0, then 1, then rotr(1) + 2 = 0x82.
    assert_eq!(sfn.gen_checksum(), 0x82);
}

#[test]
fn dir_entry_decodes_its_fields() {
    let mut slot = [0u8; 32];
    slot[..11].copy_from_slice(b"FILE    BIN");
    slot[11] = 0x20;
    slot[20] = 0x34;
    slot[21] = 0x12;
    slot[26] = 0x78;
    slot[27] = 0x56;
    slot[28] = 0x10;
    let e = RawDirEntry::parse(&slot).unwrap();
    assert_eq!(e.cluster_high, 0x1234);
    assert_eq!(e.cluster_low, 0x5678);
    assert_eq!(e.file_size, 0x10);
    assert!(e.attributes.contains(0x20));
    assert!(e.created.0.is_none());
    assert!(e.modified.0.is_none());
}
