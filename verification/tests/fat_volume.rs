//! A whole FAT16 volume in memory: mounting, directories, open files.

use unifat::attrs::Attributes;
use unifat::calendar::{Date, PrimitiveDateTime, Time};
use unifat::codec::fat::dir_entry::{RawAttributes, RAW_ARCHIVE};
use unifat::codec::fat::sfn_layout::Sfn;
use unifat::codec::fat::types::FatType;
use unifat::device::MemBlockDevice;
use unifat::dir::ReadDir;
use unifat::entry_times::EntryTimes;
use unifat::error::{CorruptKind, FileError, FsError};
use unifat::fat::dir_slots::{FatDir, SLOT_DELETED, SLOT_END};
use unifat::fat::directory::FatDirectory;
use unifat::fat::entry::MinProperties;
use unifat::fat::file::FatFile;
use unifat::fat::fs::FatVfs;
use unifat::file::{File, SeekFrom};
use unifat::vfs::{EntryPatch, NewEntry};
use unifat::volume::Volume;

const FAT_AT: usize = 512;
const FAT_SECTORS: usize = 17;
const ROOT_AT: usize = 512 * (1 + 2 * FAT_SECTORS);

/// An empty FAT16 volume of 4200 clusters of 512 bytes, with `root_slots`
/// root directory slots.
fn empty_image(root_slots: u16) -> Vec<u8> {
    let sectors = 1 + 2 * FAT_SECTORS + root_slots as usize / 16 + 4200;
    let mut img = vec![0u8; sectors * 512];
    img[..3].copy_from_slice(&[0xEB, 0x3C, 0x90]);
    img[3..11].copy_from_slice(b"TESTDISK");
    img[11..13].copy_from_slice(&512u16.to_le_bytes());
    img[13] = 1;
    img[14..16].copy_from_slice(&1u16.to_le_bytes());
    img[16] = 2;
    img[17..19].copy_from_slice(&root_slots.to_le_bytes());
    img[19..21].copy_from_slice(&(sectors as u16).to_le_bytes());
    img[21] = 0xF8;
    img[22..24].copy_from_slice(&(FAT_SECTORS as u16).to_le_bytes());
    img[36] = 0x80;
    img[38] = 0x29;
    img[43..54].copy_from_slice(b"NO NAME    ");
    img[54..62].copy_from_slice(b"FAT16   ");
    img[510] = 0x55;
    img[511] = 0xAA;
    for copy in 0..2 {
        let at = FAT_AT + copy * FAT_SECTORS * 512;
        img[at..at + 4].copy_from_slice(&[0xF8, 0xFF, 0xFF, 0xFF]);
    }
    img
}

fn mount(img: Vec<u8>) -> FatVfs<MemBlockDevice> {
    match FatVfs::new(MemBlockDevice::new(img), true) {
        Ok(fs) => fs,
        Err(e) => panic!("{}", e.message()),
    }
}

fn at(hour: u8) -> PrimitiveDateTime {
    PrimitiveDateTime {
        date: Date { year: 2024, month: 5, day: 17 },
        time: Time { hour, minute: 30, second: 14, nanosecond: 0 },
    }
}

fn new_entry(name: &str, is_dir: bool) -> NewEntry {
    NewEntry {
        name: String::from(name),
        is_dir,
        attrs: Attributes::default(),
        times: EntryTimes::now(at(9)),
        first_cluster: 0,
        size: 0,
        allocated_size: None,
        no_fat_chain: None,
    }
}

fn create(fs: &mut FatVfs<MemBlockDevice>, parent: &str, name: &str, is_dir: bool) {
    let mut dir = FatDirectory::open_path(fs, parent).unwrap();
    dir.insert(fs, &new_entry(name, is_dir)).unwrap();
}

fn names(fs: &FatVfs<MemBlockDevice>, path: &str) -> Vec<String> {
    let dir = FatDirectory::open_path(fs, path).unwrap();
    dir.list_entries(fs).unwrap().into_iter().map(|(_, name, _)| name).collect()
}

/// Move the entry `name` of `from` into `to` as `new_name`.
fn rename(fs: &mut FatVfs<MemBlockDevice>, from: &str, name: &str, to: &str, new_name: &str) {
    let mut source = FatDirectory::open_path(fs, from).unwrap();
    let mut target = FatDirectory::open_path(fs, to).unwrap();
    let entry = source.lookup(fs, name).unwrap().unwrap();
    target.link(fs, &entry, new_name, at(12)).unwrap();
    source.remove(fs, &entry).unwrap();
}

/// The cluster that `..` of the directory at `path` names.
fn parent_cluster(fs: &FatVfs<MemBlockDevice>, path: &str) -> Option<u32> {
    let dir = FatDirectory::open_path(fs, path).unwrap();
    let (entries, fault) = dir.collect_raw(fs);
    assert!(fault.is_none());
    entries.iter().find(|e| e.name == "..").map(|e| e.data_cluster)
}

fn cell(fs: &FatVfs<MemBlockDevice>, copy: usize, cluster: usize) -> u16 {
    let mut b = [0u8; 2];
    let pos = FAT_AT + copy * FAT_SECTORS * 512 + 2 * cluster;
    fs.read_bytes(pos as u64, &mut b).unwrap();
    u16::from_le_bytes(b)
}

fn open_rw(fs: &mut FatVfs<MemBlockDevice>, path: &str) -> FatFile {
    FatFile::new(fs.get_rw_file(path).unwrap())
}

fn read_all(file: &mut FatFile, fs: &FatVfs<MemBlockDevice>) -> Vec<u8> {
    let mut out = Vec::new();
    let mut buf = [0u8; 300];
    loop {
        let n = file.read(fs, &mut buf).unwrap();
        if n == 0 {
            return out;
        }
        out.extend_from_slice(&buf[..n]);
    }
}

/// Stamp every fixed-root slot as used, then create must yield
/// `RootDirectoryFull`.
#[test]
fn root_directory_full_after_filling_slots() {
    let mut fs = mount(empty_image(512));
    let mut root = FatDirectory::root(&fs);
    assert_eq!(root.anchor(), FatDir::FixedRoot, "must be a fixed root");

    let now = PrimitiveDateTime {
        date: Date { year: 2020, month: 1, day: 1 },
        time: Time { hour: 0, minute: 0, second: 0, nanosecond: 0 },
    };
    let mut pos = fs.dir_first_slot(FatDir::FixedRoot);
    let mut n = 0u32;
    loop {
        // Stamp every free / end slot with a dummy used SFN.
        let first = fs.read_slot(pos).expect("read")[0];
        if first == SLOT_DELETED || first == SLOT_END {
            let props = MinProperties {
                name: format!("F{n:05}"),
                sfn: Sfn::current_dir(), // any non-free first byte; uniqueness not required
                attributes: RawAttributes(RAW_ARCHIVE),
                created: Some(now),
                modified: now,
                accessed: Some(now.date),
                file_size: 0,
                data_cluster: 0,
                nt_res: 0,
                ea_handle: Some(0),
            };
            let mut bytes = props.record_bytes();
            // Ensure the first byte is a printable SFN char, not 0x00/0xE5.
            bytes[0] = b'A'.wrapping_add((n % 26) as u8);
            fs.write_slot(pos, &bytes).expect("stamp slot");
            n += 1;
        }
        match fs.next_slot(pos).expect("next") {
            Some(next) => pos = next,
            None => break,
        }
    }
    assert!(n > 0, "should have filled some free root slots");

    let err = root.insert(&mut fs, &new_entry("ZZZ.TXT", false)).expect_err("root must be full");
    assert!(
        matches!(err, FsError::RootDirectoryFull),
        "expected RootDirectoryFull, got {err:?}"
    );
}

/// Lookup, listing and update on a directory handle.
#[test]
fn directory_trait_lookup_and_iter() {
    let mut fs = mount(empty_image(512));
    create(&mut fs, "/", "trait_dir", true);
    create(&mut fs, "/trait_dir", "a.txt", false);
    {
        let mut f = open_rw(&mut fs, "/trait_dir/a.txt");
        assert_eq!(f.write(&mut fs, b"hi", at(10)).expect("write"), 2);
    }

    let mut dir = FatDirectory::open_path(&fs, "/trait_dir").expect("open");
    let raw = dir.lookup(&fs, "a.txt").expect("lookup").expect("found");
    let meta = FatDirectory::metadata_of(&raw);
    assert!(!meta.is_dir());
    assert_eq!(raw.name, "a.txt");

    let entries = dir.list_entries(&fs).expect("iter");
    assert_eq!(entries.len(), 1);
    assert_eq!(entries[0].1, "a.txt");

    // `update` rewrites SFN size / times without an open file.
    let patch = EntryPatch { size: Some(2), ..Default::default() };
    dir.update(&mut fs, &raw, patch).expect("update size");
    let raw = dir.lookup(&fs, "a.txt").expect("lookup after").expect("found");
    assert_eq!(FatDirectory::metadata_of(&raw).len, 2);
}

/// After a cross-directory rename, the moved directory's `..` entry must
/// point at the new parent cluster (0 when the new parent is the FAT16 root).
/// Nested file LFNs must also survive the move.
#[test]
fn rename_dir_rewrites_dotdot_cluster() {
    let mut fs = mount(empty_image(512));
    create(&mut fs, "/", "src", true);
    create(&mut fs, "/src", "moved", true);
    create(&mut fs, "/", "dst", true);
    create(&mut fs, "/src/moved", "payload.bin", false);
    {
        let mut f = open_rw(&mut fs, "/src/moved/payload.bin");
        f.write(&mut fs, b"nested", at(10)).expect("write");
        f.flush(&mut fs).expect("flush");
    }

    // Parent of /src/moved is /src (cluster-backed). Capture that cluster.
    let src_cluster = match FatDirectory::open_path(&fs, "/src").expect("open src").anchor() {
        FatDir::Clusters(c) => c,
        FatDir::FixedRoot => panic!("/src should not be fixed root"),
    };
    assert_eq!(
        parent_cluster(&fs, "/src/moved"),
        Some(src_cluster),
        "`..` should point at /src before rename"
    );

    rename(&mut fs, "/src", "moved", "/dst", "moved");

    let dst_cluster = match FatDirectory::open_path(&fs, "/dst").expect("open dst").anchor() {
        FatDir::Clusters(c) => c,
        FatDir::FixedRoot => panic!("/dst should not be fixed root"),
    };
    assert_eq!(
        parent_cluster(&fs, "/dst/moved"),
        Some(dst_cluster),
        "`..` must be rewritten to /dst after cross-dir rename"
    );

    // Nested LFN entry must still resolve by long name.
    let moved = FatDirectory::open_path(&fs, "/dst/moved").expect("open after");
    let nested = moved.lookup(&fs, "payload.bin").expect("lookup").expect("nested file present");
    assert_eq!(nested.name, "payload.bin");

    // Rename onto FAT16 fixed root → parent cluster must be 0.
    rename(&mut fs, "/dst", "moved", "/", "at_root");
    assert_eq!(
        parent_cluster(&fs, "/at_root"),
        Some(0),
        "`..` cluster must be 0 when parent is FAT16 fixed root"
    );
}

#[test]
fn fresh_fat_volume_mounts_empty() {
    let fs = mount(empty_image(512));
    assert!(matches!(fs.layout.fat_type, FatType::FAT16));
    assert_eq!(names(&fs, "/"), Vec::<String>::new());
    assert!(fs.lookup("/").unwrap().is_dir());
    assert!(matches!(fs.lookup("/none"), Err(FsError::NotFound)));
    assert!(matches!(FatDirectory::open_path(&fs, "/none/x"), Err(FsError::NotFound)));
}

#[test]
fn fat_mount_reports_what_is_wrong() {
    let fault = |img: Vec<u8>| match FatVfs::new(MemBlockDevice::new(img), true) {
        Ok(_) => panic!("mounted"),
        Err(e) => e,
    };
    assert!(matches!(fault(vec![0u8; 100]), FsError::Corrupt(CorruptKind::Other)));
    let mut img = empty_image(512);
    img[3..11].copy_from_slice(b"EXFAT   ");
    assert!(matches!(fault(img), FsError::Unsupported));
    let mut img = empty_image(512);
    img[12] = 3;
    assert!(matches!(fault(img), FsError::Unsupported));
    let mut img = empty_image(512);
    img[510] = 0;
    assert!(matches!(fault(img), FsError::Corrupt(CorruptKind::BootSector)));
    // Fewer than 4085 clusters would be FAT12.
    let mut img = empty_image(512);
    img[19..21].copy_from_slice(&4000u16.to_le_bytes());
    assert!(matches!(fault(img), FsError::Unsupported));
}

#[test]
fn inserted_names_are_found_by_either_case() {
    let mut fs = mount(empty_image(512));
    let mut root = FatDirectory::root(&fs);
    let made = root.insert(&mut fs, &new_entry("A rather long name.text", false)).unwrap();
    assert_eq!(made.sfn.name, *b"ARATHE~1");
    assert_eq!(made.sfn.ext, *b"TEX");
    create(&mut fs, "/", "PLAIN.TXT", false);
    assert_eq!(names(&fs, "/"), vec!["A rather long name.text", "PLAIN.TXT"]);
    let raw = root.lookup(&fs, "a RATHER long NAME.text").unwrap().unwrap();
    let meta = FatDirectory::metadata_of(&raw);
    assert_eq!(raw.name, "A rather long name.text");
    assert_eq!(meta.modified(), Some(at(9)));
    assert_eq!(meta.accessed(), Some(at(9).date));
    assert!(matches!(
        root.insert(&mut fs, &new_entry("plain.txt", false)),
        Err(FsError::AlreadyExists)
    ));
    // A second long name with the same stem gets the next tail.
    let made = root.insert(&mut fs, &new_entry("A rather long tale.text", false)).unwrap();
    assert_eq!(made.sfn.name, *b"ARATHE~2");
    // The long entry takes two name slots and its record; removing frees all.
    root.remove(&mut fs, &raw).unwrap();
    assert_eq!(names(&fs, "/"), vec!["PLAIN.TXT", "A rather long tale.text"]);
    let mut slot = [0u8; 1];
    for k in 0..3 {
        fs.read_bytes((ROOT_AT + 32 * k) as u64, &mut slot).unwrap();
        assert_eq!(slot[0], 0xE5);
    }
}

#[test]
fn new_directories_hold_dots_and_grow() {
    let mut fs = mount(empty_image(512));
    create(&mut fs, "/", "sub", true);
    let sub = FatDirectory::open_path(&fs, "/SUB").unwrap();
    let (entries, fault) = sub.collect_raw(&fs);
    assert!(fault.is_none());
    let all: Vec<&str> = entries.iter().map(|e| e.name.as_str()).collect();
    assert_eq!(all, vec![".", ".."]);
    assert_eq!(entries[0].data_cluster, 2);
    assert_eq!(entries[1].data_cluster, 0);
    assert_eq!(cell(&fs, 0, 2), 0xFFFF);
    // Fourteen more slots fit; the fifteenth needs another cluster.
    let mut expected = Vec::new();
    for k in 0..20 {
        let name = format!("F{k:02}.BIN");
        create(&mut fs, "/sub", &name, false);
        expected.push(name);
    }
    assert_eq!(names(&fs, "/sub"), expected);
    assert_eq!(cell(&fs, 0, 2), 3);
    assert_eq!(cell(&fs, 0, 3), 0xFFFF);
    // Both copies of the table agree.
    for c in 0..10 {
        assert_eq!(cell(&fs, 0, c), cell(&fs, 1, c));
    }
    assert_eq!(names(&fs, "/sub/../sub/./"), expected);

    let mut root = FatDirectory::root(&fs);
    let entry = root.lookup(&fs, "sub").unwrap().unwrap();
    root.remove(&mut fs, &entry).unwrap();
    root.free_data(&mut fs, &entry).unwrap();
    assert_eq!(cell(&fs, 0, 2), 0);
    assert_eq!(cell(&fs, 1, 3), 0);
}

#[test]
fn fat_read_dir_skips_dots() {
    let mut fs = mount(empty_image(512));
    create(&mut fs, "/", "sub", true);
    create(&mut fs, "/sub", "one.txt", false);
    let mut listed = ReadDir::fat(String::from("/sub"), &fs, fs.read_dir("/sub").unwrap());
    let first = listed.next().unwrap().unwrap();
    assert_eq!(first.file_name(), "one.txt");
    assert_eq!(first.path(), "/sub\\one.txt");
    assert!(listed.next().is_none());
    assert!(matches!(fs.read_dir("/sub/one.txt"), Err(FsError::NotADirectory)));
}

#[test]
fn fat_patches_change_only_what_they_name() {
    let mut fs = mount(empty_image(512));
    create(&mut fs, "/", "a.txt", false);
    create(&mut fs, "/", "b.txt", false);
    fs.set_times("/a.txt", EntryTimes { created: None, modified: Some(at(20)), accessed: None })
        .unwrap();
    let m = fs.lookup("/a.txt").unwrap();
    assert_eq!(m.created(), Some(at(9)));
    assert_eq!(m.modified(), Some(at(20)));
    let marks = Attributes { read_only: true, hidden: false, system: true, archive: false };
    fs.set_attributes("/a.txt", marks).unwrap();
    assert_eq!(fs.lookup("/a.txt").unwrap().attributes(), marks);
    assert_eq!(fs.lookup("/b.txt").unwrap().modified(), Some(at(9)));
    assert!(!fs.lookup("/b.txt").unwrap().is_read_only());
    assert!(matches!(fs.set_attributes("/c", marks), Err(FsError::NotFound)));
    assert!(matches!(fs.set_attributes("/", marks), Err(FsError::InvalidInput)));
    assert!(matches!(fs.get_rw_file("/a.txt"), Err(FsError::ReadOnlyFile)));
}

#[test]
fn fat_file_reads_back_what_was_written() {
    let mut fs = mount(empty_image(512));
    create(&mut fs, "/", "data", false);
    let mut f = open_rw(&mut fs, "/data");
    let text: Vec<u8> = (0..1300u32).map(|k| (k % 251) as u8).collect();
    assert_eq!(f.write(&mut fs, &text, at(11)).unwrap(), 1300);
    f.state.seek::<()>(SeekFrom::Start(510)).unwrap();
    f.write(&mut fs, b"WXYZ", at(12)).unwrap();
    f.state.seek::<()>(SeekFrom::Start(0)).unwrap();
    let mut expected = text.clone();
    expected[510..514].copy_from_slice(b"WXYZ");
    assert_eq!(read_all(&mut f, &fs), expected);
    f.flush(&mut fs).unwrap();
    let m = fs.lookup("/data").unwrap();
    assert_eq!(m.len(), 1300);
    assert_eq!(m.modified(), Some(at(12)));

    // Shorter and longer: what was cut off does not come back.
    f.set_len(&mut fs, 600, at(13)).unwrap();
    f.set_len(&mut fs, 1000, at(13)).unwrap();
    f.state.seek::<()>(SeekFrom::Start(0)).unwrap();
    expected.truncate(600);
    expected.resize(1000, 0);
    assert_eq!(read_all(&mut f, &fs), expected);
    f.set_len(&mut fs, 0, at(13)).unwrap();
    f.flush(&mut fs).unwrap();
    assert_eq!(fs.lookup("/data").unwrap().len(), 0);
    // An empty file keeps its first cluster.
    assert_eq!(cell(&fs, 0, 2), 0xFFFF);
    assert_eq!(cell(&fs, 0, 3), 0);
    // The 32-bit size field is the limit.
    f.state.seek::<()>(SeekFrom::Start(u32::MAX as u64)).unwrap();
    assert!(matches!(f.write(&mut fs, b"x", at(13)), Err(FileError::FileTooLarge)));
}

#[test]
fn fat_read_only_handles_do_not_write() {
    let mut fs = mount(empty_image(512));
    create(&mut fs, "/", "f", false);
    let one = fs.get_ro_file("/f").unwrap();
    assert!(matches!(fs.get_rw_file("/F"), Err(FsError::FileLocked)));
    let key = one.init.lock_key.clone();
    let mut f = FatFile::new(one);
    assert!(matches!(f.write(&mut fs, b"x", at(10)), Err(FileError::ReadOnly)));
    let mut f = File::fat(f);
    assert!(f.is_empty());
    assert!(matches!(f.set_modified::<()>(at(10)), Err(FileError::ReadOnly)));
    fs.handles.release_ro(&key);
    assert!(fs.get_rw_file("/f").is_ok());
    assert!(matches!(fs.get_ro_file("/f"), Err(FsError::FileLocked)));
    assert!(matches!(fs.get_ro_file("/g"), Err(FsError::NotFound)));
    assert!(matches!(fs.get_ro_file("/"), Err(FsError::IsADirectory)));
}

#[test]
fn allocation_is_undone_when_it_fails() {
    let mut fs = mount(empty_image(512));
    let before = fs.next_free_cluster().unwrap();
    assert_eq!(before, Some(2));
    assert!(matches!(fs.allocate_clusters(4300, None), Err(FsError::StorageFull)));
    for c in 2..4202 {
        assert_eq!(cell(&fs, 0, c), 0);
    }
    let got = fs.allocate_clusters(3, None).unwrap();
    assert_eq!(got.len(), 3);
    assert_eq!(cell(&fs, 0, got[0] as usize), got[1] as u16);
    assert_eq!(cell(&fs, 0, got[1] as usize), got[2] as u16);
    assert_eq!(cell(&fs, 0, got[2] as usize), 0xFFFF);
    fs.free_cluster_chain(got[0]).unwrap();
    assert_eq!(cell(&fs, 0, got[0] as usize), 0);
    assert_eq!(cell(&fs, 0, got[2] as usize), 0);
}

#[test]
fn unmounted_fat_volume_remounts() {
    let mut fs = mount(empty_image(512));
    create(&mut fs, "/", "kept here.txt", false);
    let mut f = open_rw(&mut fs, "/kept here.txt");
    f.write(&mut fs, b"hello", at(10)).unwrap();
    f.flush(&mut fs).unwrap();
    fs.unmount().unwrap();
    let img = fs.into_inner().into_inner();
    let mut again = mount(img);
    assert_eq!(names(&again, "/"), vec!["kept here.txt"]);
    let mut g = FatFile::new(again.get_ro_file("/KEPT HERE.TXT").unwrap());
    assert_eq!(read_all(&mut g, &again), b"hello");
}

#[test]
fn surrogate_pairs_across_name_slots_survive() {
    let mut fs = mount(empty_image(512));
    // Thirteen units to a slot: in the second name the pair lies across two.
    let whole = "elevenchars\u{1F600}tail";
    let split = "twelveletter\u{1F600}";
    let longer = "twelveletter\u{1F600} and more behind it\u{1F680}";
    for name in [whole, split, longer] {
        create(&mut fs, "/", name, false);
    }
    assert_eq!(names(&fs, "/"), vec![whole, split, longer]);
    let root = FatDirectory::root(&fs);
    assert!(root.lookup(&fs, split).unwrap().is_some());
}

#[test]
fn unpaired_surrogates_fall_back_to_the_short_name() {
    let mut fs = mount(empty_image(512));
    create(&mut fs, "/", "a long name", false);
    // Make the first unit of the only long-name slot a lone surrogate.
    fs.write_bytes((ROOT_AT + 1) as u64, &[0x00, 0xD8]).unwrap();
    assert_eq!(names(&fs, "/"), vec!["ALONGN~1"]);
}

#[test]
fn directories_report_no_length() {
    let mut fs = mount(empty_image(512));
    create(&mut fs, "/", "SUB", true);
    // A size field that a directory must not have.
    fs.write_bytes((ROOT_AT + 28) as u64, &5u32.to_le_bytes()).unwrap();
    let root = FatDirectory::root(&fs);
    let raw = root.lookup(&fs, "sub").unwrap().unwrap();
    assert_eq!(raw.file_size, 5);
    assert_eq!(FatDirectory::metadata_of(&raw).len(), 0);
    assert_eq!(fs.lookup("/sub").unwrap().len(), 0);
}

#[test]
fn paths_with_forbidden_characters_are_invalid() {
    let mut fs = mount(empty_image(512));
    create(&mut fs, "/", "file", false);
    for path in ["/a?b", "/*", "/x:y", "/<", "/>", "/|", "/\"", "/nul\0"] {
        assert!(matches!(fs.lookup(path), Err(FsError::InvalidInput)));
        assert!(matches!(FatDirectory::open_path(&fs, path), Err(FsError::InvalidInput)));
        assert!(matches!(fs.get_ro_file(path), Err(FsError::InvalidInput)));
    }
    // A path that ends in `..` names no file.
    assert!(matches!(fs.get_ro_file("/file/x/.."), Err(FsError::IsADirectory)));
    assert!(fs.lookup("/file/x/..").unwrap().is_file());
}

#[test]
fn updates_keep_what_they_do_not_name() {
    let mut fs = mount(empty_image(512));
    create(&mut fs, "/", "first.bin", false);
    create(&mut fs, "/", "second.bin", false);
    let mut root = FatDirectory::root(&fs);
    let before = root.lookup(&fs, "second.bin").unwrap().unwrap();
    let patch = EntryPatch { size: Some(77), ..Default::default() };
    root.update(&mut fs, &before, patch).unwrap();
    let after = root.lookup(&fs, "second.bin").unwrap().unwrap();
    assert_eq!(after.file_size, 77);
    assert_eq!(after.sfn, before.sfn);
    assert_eq!(after.created, before.created);
    assert_eq!(after.modified, before.modified);
    assert_eq!(after.data_cluster, before.data_cluster);
    assert_eq!(names(&fs, "/"), vec!["first.bin", "second.bin"]);
}

#[test]
fn fat_files_do_not_disturb_each_other() {
    let mut fs = mount(empty_image(512));
    create(&mut fs, "/", "one", false);
    create(&mut fs, "/", "two", false);
    let mut one = open_rw(&mut fs, "/one");
    let mut two = open_rw(&mut fs, "/two");
    // Taking turns, so that the clusters of both are interleaved.
    for k in 0..4u8 {
        one.write(&mut fs, &[k; 400], at(10)).unwrap();
        two.write(&mut fs, &[100 + k; 700], at(10)).unwrap();
    }
    one.set_len(&mut fs, 900, at(10)).unwrap();
    two.state.seek::<()>(SeekFrom::Start(0)).unwrap();
    let expected: Vec<u8> = (0..4u8).flat_map(|k| [100 + k; 700]).collect();
    assert_eq!(read_all(&mut two, &fs), expected);
    one.state.seek::<()>(SeekFrom::Start(0)).unwrap();
    let expected: Vec<u8> = (0..4u8).flat_map(|k| [k; 400]).take(900).collect();
    assert_eq!(read_all(&mut one, &fs), expected);
    assert_eq!(names(&fs, "/"), vec!["one", "two"]);
}

#[test]
fn unified_file_works_on_fat() {
    let mut fs = mount(empty_image(512));
    create(&mut fs, "/", "f", false);
    let mut f = File::fat(open_rw(&mut fs, "/f"));
    let mut vol = Volume::Fat(fs);
    assert_eq!(f.write(&mut vol, b"abcdef", at(10)).unwrap(), 6);
    f.set_len(&mut vol, 4, at(10)).unwrap();
    f.seek::<()>(SeekFrom::Start(1)).unwrap();
    let mut buf = [0u8; 8];
    assert_eq!(f.read(&vol, &mut buf).unwrap(), 3);
    assert_eq!(&buf[..3], b"bcd");
    f.flush(&mut vol).unwrap();
    match &vol {
        Volume::Fat(v) => assert_eq!(v.lookup("/f").unwrap().len(), 4),
        Volume::Exfat(_) => unreachable!(),
    }
}

/// A FAT32 volume of 65600 clusters of 512 bytes, its root in cluster 2 and
/// its FSInfo in sector 1.
fn fat32_image() -> Vec<u8> {
    let fat_sectors = 513;
    let sectors = 32 + 2 * fat_sectors + 65600;
    let mut img = vec![0u8; sectors * 512];
    img[3..11].copy_from_slice(b"TESTDISK");
    img[11..13].copy_from_slice(&512u16.to_le_bytes());
    img[13] = 1;
    img[14..16].copy_from_slice(&32u16.to_le_bytes());
    img[16] = 2;
    img[21] = 0xF8;
    img[32..36].copy_from_slice(&(sectors as u32).to_le_bytes());
    img[36..40].copy_from_slice(&(fat_sectors as u32).to_le_bytes());
    img[44..48].copy_from_slice(&2u32.to_le_bytes());
    img[48..50].copy_from_slice(&1u16.to_le_bytes());
    img[66] = 0x29;
    img[510] = 0x55;
    img[511] = 0xAA;
    img[512..516].copy_from_slice(&0x4161_5252u32.to_le_bytes());
    img[996..1000].copy_from_slice(&0x6141_7272u32.to_le_bytes());
    img[1000..1008].copy_from_slice(&[0xFF; 8]);
    img[1020..1024].copy_from_slice(&0xAA55_0000u32.to_le_bytes());
    for copy in 0..2 {
        let fat = 32 * 512 + copy * fat_sectors * 512;
        img[fat..fat + 4].copy_from_slice(&0x0FFF_FFF8u32.to_le_bytes());
        img[fat + 4..fat + 8].copy_from_slice(&0x0FFF_FFFFu32.to_le_bytes());
        img[fat + 8..fat + 12].copy_from_slice(&0x0FFF_FFFFu32.to_le_bytes());
    }
    img
}

#[test]
fn fat32_root_is_a_chain_and_hints_are_kept() {
    let mut fs = mount(fat32_image());
    assert!(matches!(fs.layout.fat_type, FatType::FAT32));
    assert_eq!(FatDirectory::root(&fs).anchor(), FatDir::Clusters(2));
    create(&mut fs, "/", "folder", true);
    create(&mut fs, "/folder", "a long name in there.bin", false);
    assert_eq!(names(&fs, "/folder"), vec!["a long name in there.bin"]);
    // Of a directory in the root, `..` names cluster 0.
    assert_eq!(parent_cluster(&fs, "/folder"), Some(0));
    let hints = fs.fsinfo;
    assert_ne!(hints.first_free_cluster, u32::MAX);
    fs.unmount().unwrap();
    let again = mount(fs.into_inner().into_inner());
    assert_eq!(again.fsinfo.first_free_cluster, hints.first_free_cluster);
    assert_eq!(names(&again, "/"), vec!["folder"]);
}

#[test]
fn scribbled_fsinfo_does_not_refuse_the_mount() {
    let mut img = fat32_image();
    img[512] = 0;
    let fs = mount(img);
    assert_eq!(fs.fsinfo.first_free_cluster, u32::MAX);
    assert_eq!(fs.fsinfo.free_cluster_count, u32::MAX);
}

#[test]
fn listings_do_not_depend_on_fsinfo() {
    let mut fs = mount(fat32_image());
    create(&mut fs, "/", "folder", true);
    create(&mut fs, "/", "file", false);
    fs.unmount().unwrap();
    let mut img = fs.into_inner().into_inner();
    for byte in &mut img[512..1024] {
        *byte = 0x5A;
    }
    let again = mount(img);
    assert!(matches!(again.layout.fat_type, FatType::FAT32));
    assert_eq!(names(&again, "/"), vec!["folder", "file"]);
}

#[test]
fn opening_for_writing_looks_before_it_checks_the_path() {
    let mut fs = mount(empty_image(512));
    create(&mut fs, "/", "a long name", false);
    create(&mut fs, "/", "file", false);
    // The last name is only looked for; the names before it must be valid.
    assert!(matches!(fs.get_rw_file("/a?b"), Err(FsError::NotFound)));
    assert!(matches!(fs.get_rw_file("/a?b/file"), Err(FsError::InvalidInput)));
    assert!(matches!(fs.get_rw_file("/file/x"), Err(FsError::NotADirectory)));
    assert!(matches!(fs.get_rw_file("/"), Err(FsError::IsADirectory)));
    for path in ["/file/x/..", "/file/x/../."] {
        assert!(matches!(fs.get_rw_file(path), Err(FsError::IsADirectory)));
    }
    // Put a forbidden character into the name on disk.
    fs.write_bytes((ROOT_AT + 3) as u64, b"?\0").unwrap();
    assert_eq!(names(&fs, "/")[0], "a?long name");
    assert!(matches!(fs.get_rw_file("/a?long name"), Err(FsError::InvalidInput)));
    // What the entry is comes before that.
    fs.write_bytes((ROOT_AT + 32 + 11) as u64, &[0x21]).unwrap();
    assert!(matches!(fs.get_rw_file("/a?long name"), Err(FsError::ReadOnlyFile)));
    fs.write_bytes((ROOT_AT + 32 + 11) as u64, &[0x10]).unwrap();
    assert!(matches!(fs.get_rw_file("/a?long name"), Err(FsError::IsADirectory)));
    assert!(matches!(fs.get_ro_file("/a?long name"), Err(FsError::InvalidInput)));
}

#[test]
fn long_names_show_the_pieces_that_decode() {
    let lone = [0x00, 0xD8];
    let name = "abcdefghijklmnop";
    let mut fs = mount(empty_image(512));
    create(&mut fs, "/", name, false);
    assert_eq!(names(&fs, "/"), vec![name]);
    // The piece with the end of the name comes first on disk.
    fs.write_bytes((ROOT_AT + 1) as u64, &lone).unwrap();
    assert_eq!(names(&fs, "/"), vec!["abcdefghijklm"]);
    fs.write_bytes((ROOT_AT + 32 + 1) as u64, &lone).unwrap();
    assert_eq!(names(&fs, "/"), vec!["ABCDEF~1"]);
    fs.write_bytes((ROOT_AT + 1) as u64, b"n\0").unwrap();
    assert_eq!(names(&fs, "/"), vec!["nop"]);
}

#[test]
fn a_cluster_claimed_halfway_is_given_back() {
    // The device ends before cell 2 of the second table.
    let mut img = empty_image(512);
    img.truncate(FAT_AT + FAT_SECTORS * 512 + 4);
    let mut fs = mount(img);
    assert!(fs.allocate_clusters(1, None).is_err());
    assert_eq!(cell(&fs, 0, 2), 0);

    // The device ends before cell 5 of the second table: cluster 2 is claimed,
    // but linking it behind cluster 5 fails.
    let mut img = empty_image(512);
    img[FAT_AT + 10..FAT_AT + 12].copy_from_slice(&[0xFF, 0xFF]);
    img.truncate(FAT_AT + FAT_SECTORS * 512 + 10);
    let mut fs = mount(img);
    assert!(fs.allocate_clusters(1, Some(5)).is_err());
    assert_eq!(cell(&fs, 0, 2), 0);
    assert_eq!(cell(&fs, 1, 2), 0);
    assert_eq!(cell(&fs, 0, 5), 0xFFFF);
}

#[test]
fn moved_entries_keep_their_stamps() {
    let mut fs = mount(empty_image(512));
    create(&mut fs, "/", "to", true);
    create(&mut fs, "/", "dir", true);
    create(&mut fs, "/", "file", false);
    let times = EntryTimes {
        created: Some(at(3)),
        modified: Some(at(4)),
        accessed: Some(Date { year: 2001, month: 2, day: 3 }),
    };
    for path in ["/dir", "/file"] {
        fs.set_times(path, times).unwrap();
    }
    let dir = fs.lookup("/dir").unwrap();
    let file = fs.lookup("/file").unwrap();
    rename(&mut fs, "/", "dir", "/to", "A Directory");
    rename(&mut fs, "/", "file", "/to", "A File");
    assert_eq!(fs.lookup("/to/A Directory").unwrap(), dir);
    assert_eq!(fs.lookup("/to/A File").unwrap(), file);
    assert_eq!(dir.created, Some(at(3)));
    assert_eq!(file.accessed, Some(Date { year: 2001, month: 2, day: 3 }));
    assert_eq!(names(&fs, "/"), vec!["to"]);
}
