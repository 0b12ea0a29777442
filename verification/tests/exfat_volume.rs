//! A whole exFAT volume in memory: mounting, directories, open files.

use unifat::attrs::Attributes;
use unifat::calendar::{Date, PrimitiveDateTime, Time};
use unifat::codec::exfat::boot::{boot_region_checksum, upcase_table_checksum};
use unifat::device::MemBlockDevice;
use unifat::dir::ReadDir;
use unifat::entry_times::EntryTimes;
use unifat::error::{CorruptKind, FileError, FsError};
use unifat::exfat::directory::ExfatDirectory;
use unifat::exfat::file::ExfatFile;
use unifat::exfat::volume::ExfatVfs;
use unifat::file::{File, SeekFrom};
use unifat::vfs::{EntryPatch, NewEntry};
use unifat::volume::Volume;

const CLUSTERS: usize = 100;
const FAT_AT: usize = 24 * 512;
const HEAP_AT: usize = 32 * 512;

fn put32(img: &mut [u8], at: usize, v: u32) {
    img[at..at + 4].copy_from_slice(&v.to_le_bytes());
}

fn put64(img: &mut [u8], at: usize, v: u64) {
    img[at..at + 8].copy_from_slice(&v.to_le_bytes());
}

fn seal_boot_region(img: &mut [u8]) {
    let sum = boot_region_checksum(&img[..11 * 512]);
    for k in 0..128 {
        put32(img, 11 * 512 + 4 * k, sum);
    }
}

/// An empty volume of 100 clusters of 512 bytes: allocation bitmap in
/// cluster 2, up-case table in cluster 3, root directory in cluster 4.
fn empty_image() -> Vec<u8> {
    let mut img = vec![0u8; HEAP_AT + CLUSTERS * 512];
    img[..3].copy_from_slice(&[0xEB, 0x76, 0x90]);
    img[3..11].copy_from_slice(b"EXFAT   ");
    let sectors = (img.len() / 512) as u64;
    put64(&mut img, 72, sectors);
    put32(&mut img, 80, 24);
    put32(&mut img, 84, 1);
    put32(&mut img, 88, 32);
    put32(&mut img, 92, CLUSTERS as u32);
    put32(&mut img, 96, 4);
    img[105] = 1;
    img[108] = 9;
    img[109] = 0;
    img[110] = 1;
    img[510] = 0x55;
    img[511] = 0xAA;
    seal_boot_region(&mut img);
    put32(&mut img, FAT_AT, 0xFFFF_FFF8);
    for cell in 1..5 {
        put32(&mut img, FAT_AT + 4 * cell, 0xFFFF_FFFF);
    }
    img[HEAP_AT] = 0x07;
    // Identity up to 'a', then the Latin letters.
    let mut table = vec![0xFFu8, 0xFF, 0x61, 0x00];
    for letter in b'A'..=b'Z' {
        table.push(letter);
        table.push(0);
    }
    img[HEAP_AT + 512..HEAP_AT + 512 + table.len()].copy_from_slice(&table);
    let root = HEAP_AT + 1024;
    img[root] = 0x81;
    put32(&mut img, root + 20, 2);
    put64(&mut img, root + 24, CLUSTERS.div_ceil(8) as u64);
    img[root + 32] = 0x82;
    put32(&mut img, root + 36, upcase_table_checksum(&table));
    put32(&mut img, root + 52, 3);
    put64(&mut img, root + 56, table.len() as u64);
    img
}

fn mount(img: Vec<u8>) -> ExfatVfs<MemBlockDevice> {
    match ExfatVfs::mount(MemBlockDevice::new(img), true) {
        Ok(vol) => vol,
        Err(e) => panic!("{}", e.message()),
    }
}

fn at(hour: u8) -> PrimitiveDateTime {
    PrimitiveDateTime {
        date: Date { year: 2024, month: 5, day: 17 },
        time: Time { hour, minute: 30, second: 15, nanosecond: 0 },
    }
}

fn new_entry(name: &str, is_dir: bool) -> NewEntry {
    NewEntry {
        name: String::from(name),
        is_dir,
        attrs: Attributes::default(),
        times: EntryTimes::default(),
        first_cluster: 0,
        size: 0,
        allocated_size: None,
        no_fat_chain: None,
    }
}

fn names(vol: &ExfatVfs<MemBlockDevice>, path: &str) -> Vec<String> {
    let mut out = Vec::new();
    let mut walk = vol.read_dir(path).unwrap();
    while let Some(e) = walk.next() {
        out.push(e.name);
    }
    out
}

fn fat_cell(vol: &ExfatVfs<MemBlockDevice>, cluster: usize) -> u32 {
    let mut b = [0u8; 4];
    vol.read_at((FAT_AT + 4 * cluster) as u64, &mut b).unwrap();
    u32::from_le_bytes(b)
}

fn used_clusters(vol: &ExfatVfs<MemBlockDevice>) -> u32 {
    let mut b = [0u8; 13];
    vol.read_at(HEAP_AT as u64, &mut b).unwrap();
    b.iter().map(|x| x.count_ones()).sum()
}

fn open_rw(vol: &mut ExfatVfs<MemBlockDevice>, path: &str) -> ExfatFile {
    ExfatFile::new(&vol.open_file_rw(path).unwrap())
}

fn read_all(file: &mut ExfatFile, vol: &ExfatVfs<MemBlockDevice>) -> Vec<u8> {
    let mut out = Vec::new();
    let mut buf = [0u8; 300];
    loop {
        let n = file.read(vol, &mut buf).unwrap();
        if n == 0 {
            return out;
        }
        out.extend_from_slice(&buf[..n]);
    }
}

#[test]
fn fresh_exfat_volume_mounts_empty() {
    let vol = mount(empty_image());
    assert_eq!(names(&vol, "/"), Vec::<String>::new());
    assert!(vol.lookup("/").unwrap().is_dir());
    assert!(matches!(vol.lookup("/none"), Err(FsError::NotFound)));
    assert!(vol.names_equal("ReadMe", "rEADmE"));
    assert!(!vol.names_equal("a", "b"));
    assert_eq!(vol.find_free_cluster().unwrap(), Some(5));
}

#[test]
fn mount_reports_what_is_wrong() {
    let fault = |img: Vec<u8>| match ExfatVfs::mount(MemBlockDevice::new(img), true) {
        Ok(_) => panic!("mounted"),
        Err(e) => e,
    };
    assert!(matches!(fault(vec![0u8; 100]), FsError::Corrupt(CorruptKind::Other)));

    let mut img = empty_image();
    img[3] = b'N';
    assert!(matches!(fault(img), FsError::Unsupported));

    // A flipped bit of the boot region no longer fits its checksum.
    let mut img = empty_image();
    img[200] ^= 1;
    assert!(matches!(fault(img), FsError::Corrupt(CorruptKind::BootSector)));

    // Sector sizes below 512 bytes do not exist.
    let mut img = empty_image();
    img[108] = 8;
    assert!(matches!(fault(img), FsError::Unsupported));

    // No bitmap entry in the root directory.
    let mut img = empty_image();
    img[HEAP_AT + 1024] = 0x01;
    assert!(matches!(fault(img), FsError::Corrupt(CorruptKind::Other)));

    // A bitmap that lies outside the cluster heap.
    let mut img = empty_image();
    put32(&mut img, HEAP_AT + 1024 + 20, 102);
    assert!(matches!(fault(img), FsError::Corrupt(CorruptKind::Other)));

    // The table does not match its checksum.
    let mut img = empty_image();
    img[HEAP_AT + 512 + 4] = b'Q';
    assert!(matches!(fault(img), FsError::Corrupt(_)));
}

#[test]
fn inserted_entry_is_found_and_removed() {
    let mut vol = mount(empty_image());
    let mut root = ExfatDirectory::root(&vol);
    let made = root.insert(&mut vol, &new_entry("Report.txt", false), at(9)).unwrap();
    assert_eq!(made.name, "Report.txt");
    assert!(!made.is_dir());
    assert_eq!(made.created, Some(at(9)));
    assert_eq!(made.accessed, Some(at(9).date));
    // New files carry the archive bit.
    assert!(made.attributes.to_attributes().archive);

    let (found, meta) = root.lookup(&vol, "REPORT.TXT").unwrap().unwrap();
    assert_eq!(found.name, "Report.txt");
    assert_eq!(meta.len(), 0);
    assert_eq!(meta.modified(), Some(at(9)));
    assert!(matches!(
        root.insert(&mut vol, &new_entry("report.TXT", false), at(9)),
        Err(FsError::AlreadyExists)
    ));

    root.insert(&mut vol, &new_entry("second", false), at(10)).unwrap();
    assert_eq!(names(&vol, ""), vec!["Report.txt", "second"]);
    root.remove(&mut vol, &found).unwrap();
    assert_eq!(names(&vol, ""), vec!["second"]);
    assert!(root.lookup(&vol, "Report.txt").unwrap().is_none());
    assert!(matches!(root.remove(&mut vol, &found), Err(FsError::NotFound)));
    assert_eq!(root.list_entries(&vol).unwrap().len(), 1);
}

#[test]
fn names_without_or_with_too_many_units_are_refused() {
    let mut vol = mount(empty_image());
    let mut root = ExfatDirectory::root(&vol);
    let long: String = "x".repeat(256);
    for name in ["", long.as_str()] {
        assert!(matches!(
            root.insert(&mut vol, &new_entry(name, false), at(9)),
            Err(FsError::InvalidInput)
        ));
    }
    let longest: String = "\u{e9}".repeat(255);
    root.insert(&mut vol, &new_entry(&longest, false), at(9)).unwrap();
    assert_eq!(names(&vol, "/"), vec![longest]);
}

#[test]
fn directories_nest_and_resolve() {
    let mut vol = mount(empty_image());
    let mut root = ExfatDirectory::root(&vol);
    let made = root.insert(&mut vol, &new_entry("docs", true), at(9)).unwrap();
    assert!(made.is_dir());
    assert_eq!(made.first_cluster, 5);
    assert_eq!(made.data_length, 512);
    let mut docs = ExfatDirectory::open_path(&vol, "/Docs").unwrap();
    docs.insert(&mut vol, &new_entry("inner.bin", false), at(10)).unwrap();
    assert_eq!(names(&vol, "\\docs/"), vec!["inner.bin"]);
    assert!(vol.lookup("docs\\INNER.BIN").unwrap().is_file());
    assert!(matches!(vol.lookup("/docs/inner.bin/x"), Err(FsError::NotADirectory)));
    assert!(matches!(vol.read_dir("/docs/inner.bin"), Err(FsError::NotADirectory)));
    assert!(matches!(vol.open_file("/docs"), Err(FsError::IsADirectory)));
    assert!(matches!(vol.open_file("/docs/none"), Err(FsError::NotFound)));

    let base = String::from("/docs");
    let mut listed = ReadDir::<MemBlockDevice>::exfat(base, vol.read_dir("/docs").unwrap());
    let first = listed.next().unwrap().unwrap();
    assert_eq!(first.file_name(), "inner.bin");
    assert_eq!(first.path(), "/docs\\inner.bin");
    assert!(vol.lookup(first.path()).unwrap().is_file());
    assert!(first.is_file());
    assert!(listed.next().is_none());
}

#[test]
fn a_full_directory_grows_by_clusters() {
    let mut vol = mount(empty_image());
    let mut root = ExfatDirectory::root(&vol);
    root.insert(&mut vol, &new_entry("d", true), at(9)).unwrap();
    let mut d = ExfatDirectory::open_path(&vol, "/d").unwrap();
    // Three slots to a file, sixteen to a cluster.
    let mut expected = Vec::new();
    for k in 0..12 {
        let name = format!("file{k:02}");
        d.insert(&mut vol, &new_entry(&name, false), at(9)).unwrap();
        expected.push(name);
    }
    assert_eq!(names(&vol, "/d"), expected);
    let (entry, _) = root.lookup(&vol, "d").unwrap().unwrap();
    assert_eq!(entry.data_length, 3 * 512);
    assert!(!entry.no_fat_chain);
    assert_eq!(fat_cell(&vol, 5), 6);
    assert_eq!(fat_cell(&vol, 6), 7);
    assert_eq!(fat_cell(&vol, 7), 0xFFFF_FFFF);
    assert_eq!(used_clusters(&vol), 6);

    // The freed clusters are free again.
    root.remove(&mut vol, &entry).unwrap();
    root.free_data(&mut vol, &entry).unwrap();
    assert_eq!(used_clusters(&vol), 3);
    assert_eq!(fat_cell(&vol, 5), 0);
    assert_eq!(fat_cell(&vol, 7), 0);
}

#[test]
fn extents_are_contiguous_where_possible() {
    let mut vol = mount(empty_image());
    assert_eq!(vol.allocate_extent(4).unwrap(), (5, true));
    vol.mark_cluster_allocated(11).unwrap();
    assert_eq!(vol.find_free_contiguous_run(3).unwrap(), Some(12));
    assert_eq!(vol.find_free_contiguous_run(2).unwrap(), Some(9));
    vol.mark_cluster_free(11).unwrap();
    assert_eq!(vol.find_free_contiguous_run(3).unwrap(), Some(9));
    assert_eq!(used_clusters(&vol), 7);
    // No run of 60 is left: the clusters are chained instead.
    vol.mark_cluster_allocated(50).unwrap();
    assert_eq!(vol.allocate_extent(60).unwrap(), (9, false));
    assert_eq!(fat_cell(&vol, 9), 10);
    assert_eq!(fat_cell(&vol, 49), 51);
    assert_eq!(fat_cell(&vol, 69), 0xFFFF_FFFF);
    assert!(matches!(vol.allocate_extent(200), Err(FsError::StorageFull)));
    assert_eq!(vol.allocate_extent(0).unwrap(), (0, false));
}

#[test]
fn links_keep_every_field() {
    let mut vol = mount(empty_image());
    let mut root = ExfatDirectory::root(&vol);
    let made = root.insert(&mut vol, &new_entry("old name", false), at(9)).unwrap();
    root.link(&mut vol, &made, "new name").unwrap();
    root.remove(&mut vol, &made).unwrap();
    let (moved, _) = root.lookup(&vol, "new name").unwrap().unwrap();
    assert_eq!(moved.created, made.created);
    assert_eq!(moved.modified, made.modified);
    assert_eq!(moved.first_cluster, made.first_cluster);
    assert_eq!(names(&vol, "/"), vec!["new name"]);
}

#[test]
fn patches_change_only_what_they_name() {
    let mut vol = mount(empty_image());
    let mut root = ExfatDirectory::root(&vol);
    let made = root.insert(&mut vol, &new_entry("a", false), at(9)).unwrap();
    root.insert(&mut vol, &new_entry("b", false), at(9)).unwrap();
    let stamps = EntryTimes { created: None, modified: Some(at(20)), accessed: None };
    vol.set_times("/a", stamps).unwrap();
    let m = vol.lookup("/a").unwrap();
    assert_eq!(m.created(), Some(at(9)));
    assert_eq!(m.modified(), Some(at(20)));
    let marks = Attributes { read_only: true, hidden: true, system: false, archive: false };
    vol.set_attributes("/a", marks).unwrap();
    let m = vol.lookup("/a").unwrap();
    assert!(m.is_read_only() && m.is_hidden() && !m.is_system());
    assert_eq!(m.modified(), Some(at(20)));
    assert_eq!(vol.lookup("/b").unwrap().modified(), Some(at(9)));
    assert!(!vol.lookup("/b").unwrap().is_read_only());

    // An empty patch does not touch the disk.
    let (entry, _) = root.lookup(&vol, "a").unwrap().unwrap();
    root.update(&mut vol, &entry, EntryPatch::default()).unwrap();
    assert_eq!(vol.lookup("/a").unwrap().modified(), Some(at(20)));
    assert_eq!(made.modified, Some(at(9)));
    assert!(matches!(vol.set_attributes("/zzz", marks), Err(FsError::NotFound)));
    assert!(matches!(vol.open_file_rw("/a"), Err(FsError::ReadOnlyFile)));
}

#[test]
fn what_is_written_is_read_back() {
    let mut vol = mount(empty_image());
    let mut root = ExfatDirectory::root(&vol);
    root.insert(&mut vol, &new_entry("data", false), at(9)).unwrap();
    let mut f = open_rw(&mut vol, "/data");
    let text: Vec<u8> = (0..1300u32).map(|k| (k % 251) as u8).collect();
    assert_eq!(f.write(&mut vol, &text, at(11)).unwrap(), 1300);
    assert_eq!(f.state.pos, 1300);
    assert_eq!(f.state.seek::<()>(SeekFrom::Start(0)).unwrap(), 0);
    assert_eq!(read_all(&mut f, &vol), text);
    // Overwriting in the middle leaves the rest.
    f.state.seek::<()>(SeekFrom::Start(510)).unwrap();
    f.write(&mut vol, b"WXYZ", at(12)).unwrap();
    f.flush(&mut vol).unwrap();
    let mut expected = text.clone();
    expected[510..514].copy_from_slice(b"WXYZ");
    let mut g = ExfatFile::new(&{
        let key = vol.name_policy.fold_path("/data");
        vol.handles.release_rw(&key);
        vol.open_file("/data").unwrap()
    });
    assert_eq!(g.state.len, 1300);
    assert_eq!(read_all(&mut g, &vol), expected);
    assert_eq!(vol.lookup("/data").unwrap().modified(), Some(at(12)));
    assert!(matches!(g.write(&mut vol, b"no", at(13)), Err(FileError::ReadOnly)));
}

#[test]
fn lengths_change_both_ways() {
    let mut vol = mount(empty_image());
    let mut root = ExfatDirectory::root(&vol);
    root.insert(&mut vol, &new_entry("data", false), at(9)).unwrap();
    let mut f = open_rw(&mut vol, "/data");
    f.write(&mut vol, &[7u8; 700], at(10)).unwrap();
    assert_eq!(used_clusters(&vol), 5);
    f.set_len(&mut vol, 1100, at(10)).unwrap();
    assert_eq!(used_clusters(&vol), 6);
    f.state.seek::<()>(SeekFrom::Start(0)).unwrap();
    let mut expected = vec![7u8; 700];
    expected.resize(1100, 0);
    assert_eq!(read_all(&mut f, &vol), expected);
    f.set_len(&mut vol, 10, at(10)).unwrap();
    assert_eq!(used_clusters(&vol), 4);
    f.state.seek::<()>(SeekFrom::Start(0)).unwrap();
    assert_eq!(read_all(&mut f, &vol), vec![7u8; 10]);
    f.set_len(&mut vol, 0, at(10)).unwrap();
    assert_eq!(used_clusters(&vol), 3);
    // Growing again shows zeros, not what was there before.
    f.set_len(&mut vol, 20, at(10)).unwrap();
    f.state.seek::<()>(SeekFrom::Start(0)).unwrap();
    assert_eq!(read_all(&mut f, &vol), vec![0u8; 20]);
    // Writing behind the end leaves a gap of zeros.
    f.state.seek::<()>(SeekFrom::End(600)).unwrap();
    f.write(&mut vol, b"end", at(10)).unwrap();
    f.state.seek::<()>(SeekFrom::Start(0)).unwrap();
    let mut expected = vec![0u8; 620];
    expected.extend_from_slice(b"end");
    assert_eq!(read_all(&mut f, &vol), expected);
}

#[test]
fn a_full_volume_reports_it() {
    let mut vol = mount(empty_image());
    let mut root = ExfatDirectory::root(&vol);
    root.insert(&mut vol, &new_entry("big", false), at(9)).unwrap();
    let mut f = open_rw(&mut vol, "/big");
    let chunk = vec![1u8; 98 * 512];
    assert!(matches!(f.write(&mut vol, &chunk, at(9)), Err(FileError::StorageFull)));
}

#[test]
fn handles_exclude_writers() {
    let mut vol = mount(empty_image());
    let mut root = ExfatDirectory::root(&vol);
    root.insert(&mut vol, &new_entry("f", false), at(9)).unwrap();
    let one = vol.open_file("/f").unwrap();
    assert!(vol.open_file("/F").is_ok());
    assert!(matches!(vol.open_file_rw("f"), Err(FsError::FileLocked)));
    vol.handles.release_ro(&one.init.lock_key);
    vol.handles.release_ro(&one.init.lock_key);
    let two = vol.open_file_rw("f").unwrap();
    assert!(matches!(vol.open_file("/f"), Err(FsError::FileLocked)));
    assert!(vol.handles.any_open_under(&[]));
    vol.handles.release_rw(&two.init.lock_key);
    assert!(!vol.handles.any_open_under(&[]));
    assert!(vol.open_file("/f").is_ok());
}

#[test]
fn flushed_exfat_volume_remounts() {
    let mut vol = mount(empty_image());
    let mut root = ExfatDirectory::root(&vol);
    root.insert(&mut vol, &new_entry("kept", false), at(9)).unwrap();
    let mut f = open_rw(&mut vol, "/kept");
    f.write(&mut vol, b"hello", at(9)).unwrap();
    // The volume is marked dirty while changes are under way.
    let mut flags = [0u8; 2];
    vol.read_at(106, &mut flags).unwrap();
    assert_eq!(flags[0] & 2, 2);
    f.flush(&mut vol).unwrap();
    vol.flush().unwrap();
    vol.read_at(106, &mut flags).unwrap();
    assert_eq!(flags[0] & 2, 0);
    let img = vol.into_inner().into_inner();
    let mut again = mount(img);
    assert_eq!(names(&again, "/"), vec!["kept"]);
    let mut g = ExfatFile::new(&again.open_file("/kept").unwrap());
    assert_eq!(read_all(&mut g, &again), b"hello");
}

#[test]
fn open_file_reports_its_metadata() {
    let mut vol = mount(empty_image());
    let mut root = ExfatDirectory::root(&vol);
    root.insert(&mut vol, &new_entry("f", false), at(9)).unwrap();
    let stream = vol.open_file_rw("/f").unwrap();
    let mut f = File::exfat(ExfatFile::new(&stream));
    assert!(f.is_empty());
    assert_eq!(f.len(), 0);
    assert_eq!(f.metadata().created(), Some(at(9)));
    f.set_created::<()>(at(3)).unwrap();
    f.set_modified::<()>(at(4)).unwrap();
    f.set_accessed::<()>(at(4).date).unwrap();
    assert_eq!(f.metadata().created(), Some(at(3)));
    assert_eq!(f.metadata().modified(), Some(at(4)));
    assert_eq!(f.seek::<()>(SeekFrom::Start(5)).unwrap(), 5);
    assert_eq!(f.seek::<()>(SeekFrom::Current(-2)).unwrap(), 3);
    assert_eq!(f.seek::<()>(SeekFrom::End(1)).unwrap(), 1);
    assert!(matches!(f.seek::<()>(SeekFrom::Current(-2)), Err(FileError::InvalidSeek)));
    assert_eq!(f.seek::<()>(SeekFrom::Current(0)).unwrap(), 1);

    vol.handles.release_rw(&stream.init.lock_key);
    let mut g = File::exfat(ExfatFile::new(&vol.open_file("/f").unwrap()));
    assert!(matches!(g.set_created::<()>(at(3)), Err(FileError::ReadOnly)));
}

#[test]
fn exfat_files_do_not_disturb_each_other() {
    let mut vol = mount(empty_image());
    let mut root = ExfatDirectory::root(&vol);
    root.insert(&mut vol, &new_entry("one", false), at(9)).unwrap();
    root.insert(&mut vol, &new_entry("two", false), at(9)).unwrap();
    let mut one = open_rw(&mut vol, "/one");
    let mut two = open_rw(&mut vol, "/two");
    // Taking turns, so that the clusters of both are interleaved.
    for k in 0..4u8 {
        one.write(&mut vol, &[k; 400], at(10)).unwrap();
        two.write(&mut vol, &[100 + k; 700], at(10)).unwrap();
    }
    one.set_len(&mut vol, 900, at(10)).unwrap();
    two.state.seek::<()>(SeekFrom::Start(0)).unwrap();
    let expected: Vec<u8> = (0..4u8).flat_map(|k| [100 + k; 700]).collect();
    assert_eq!(read_all(&mut two, &vol), expected);
    one.state.seek::<()>(SeekFrom::Start(0)).unwrap();
    let expected: Vec<u8> = (0..4u8).flat_map(|k| [k; 400]).take(900).collect();
    assert_eq!(read_all(&mut one, &vol), expected);
    assert_eq!(names(&vol, "/"), vec!["one", "two"]);
}

#[test]
fn unified_file_works_on_exfat() {
    let mut vol = mount(empty_image());
    let mut root = ExfatDirectory::root(&vol);
    root.insert(&mut vol, &new_entry("f", false), at(9)).unwrap();
    let mut f = File::exfat(open_rw(&mut vol, "/f"));
    let mut vol = Volume::Exfat(vol);
    assert_eq!(f.write(&mut vol, b"abcdef", at(10)).unwrap(), 6);
    f.set_len(&mut vol, 4, at(10)).unwrap();
    assert_eq!(f.len(), 4);
    f.seek::<()>(SeekFrom::Start(1)).unwrap();
    let mut buf = [0u8; 8];
    assert_eq!(f.read(&vol, &mut buf).unwrap(), 3);
    assert_eq!(&buf[..3], b"bcd");
    assert_eq!(f.read(&vol, &mut buf).unwrap(), 0);
    f.flush(&mut vol).unwrap();
    match &vol {
        Volume::Exfat(v) => assert_eq!(v.lookup("/f").unwrap().len(), 4),
        Volume::Fat(_) => unreachable!(),
    }
}

#[test]
fn dots_are_never_surfaced() {
    let mut vol = mount(empty_image());
    let mut root = ExfatDirectory::root(&vol);
    for name in [".", "a", "..", "b", "..."] {
        root.insert(&mut vol, &new_entry(name, false), at(9)).unwrap();
    }
    let base = String::from("/");
    let mut listed = ReadDir::<MemBlockDevice>::exfat(base, vol.read_dir("/").unwrap());
    let mut shown = Vec::new();
    while let Some(e) = listed.next() {
        shown.push(String::from(e.unwrap().file_name()));
    }
    assert_eq!(shown, vec!["a", "b", "..."]);
}

#[test]
fn valid_length_follows_a_smaller_size() {
    let mut vol = mount(empty_image());
    let mut root = ExfatDirectory::root(&vol);
    root.insert(&mut vol, &new_entry("f", false), at(9)).unwrap();
    let mut f = open_rw(&mut vol, "/f");
    f.write(&mut vol, &[1u8; 100], at(9)).unwrap();
    f.flush(&mut vol).unwrap();
    let (entry, _) = root.lookup(&vol, "f").unwrap().unwrap();
    assert_eq!((entry.valid_data_length, entry.data_length), (100, 100));
    let patch = EntryPatch { size: Some(50), ..Default::default() };
    root.update(&mut vol, &entry, patch).unwrap();
    // The entry is still listed, so its lengths fit each other.
    let (entry, _) = root.lookup(&vol, "f").unwrap().unwrap();
    assert_eq!((entry.valid_data_length, entry.data_length), (50, 50));
    let patch = EntryPatch { size: Some(80), valid_size: Some(90), ..Default::default() };
    root.update(&mut vol, &entry, patch).unwrap();
    let (entry, _) = root.lookup(&vol, "f").unwrap().unwrap();
    assert_eq!((entry.valid_data_length, entry.data_length), (80, 80));
}

#[test]
fn huge_lengths_run_out_of_space() {
    let mut vol = mount(empty_image());
    let mut root = ExfatDirectory::root(&vol);
    root.insert(&mut vol, &new_entry("f", false), at(9)).unwrap();
    let mut f = open_rw(&mut vol, "/f");
    assert!(matches!(f.set_len(&mut vol, u64::MAX, at(9)), Err(FileError::StorageFull)));
}

#[test]
fn appended_entries_come_last() {
    let mut vol = mount(empty_image());
    let mut root = ExfatDirectory::root(&vol);
    let mut expected = Vec::new();
    for k in 0..9 {
        let name = format!("entry{k}");
        root.insert(&mut vol, &new_entry(&name, false), at(9)).unwrap();
        expected.push(name);
        assert_eq!(names(&vol, "/"), expected);
    }
}

#[test]
fn patched_directories_stay_directories() {
    let mut vol = mount(empty_image());
    let mut root = ExfatDirectory::open_path(&vol, "/").unwrap();
    root.insert(&mut vol, &new_entry("Keep This Name", true), at(9)).unwrap();
    let marks = Attributes { hidden: true, ..Attributes::default() };
    vol.set_attributes("/keep this name", marks).unwrap();
    let about = vol.lookup("/keep this name").unwrap();
    assert!(about.is_dir);
    assert!(about.attributes.hidden);
    assert_eq!(names(&vol, "/"), vec!["Keep This Name"]);
}

#[test]
fn a_stale_extent_still_appends_at_the_end() {
    let mut vol = mount(empty_image());
    let mut root = ExfatDirectory::open_path(&vol, "/").unwrap();
    root.insert(&mut vol, &new_entry("sub", true), at(9)).unwrap();
    // Held while another handle makes the directory grow past its first cluster.
    let mut held = ExfatDirectory::open_path(&vol, "/sub").unwrap();
    let mut other = ExfatDirectory::open_path(&vol, "/sub").unwrap();
    let mut expected = Vec::new();
    for k in 0..7 {
        let name = format!("other {k}");
        other.insert(&mut vol, &new_entry(&name, false), at(9)).unwrap();
        expected.push(name);
    }
    held.insert(&mut vol, &new_entry("late", false), at(9)).unwrap();
    expected.push(String::from("late"));
    assert_eq!(names(&vol, "/sub"), expected);
}

#[test]
fn paths_that_come_back_to_the_root_name_the_root() {
    let mut vol = mount(empty_image());
    let mut root = ExfatDirectory::open_path(&vol, "/").unwrap();
    root.insert(&mut vol, &new_entry("sub", true), at(9)).unwrap();
    for path in ["", "/", "\\", ".", "/sub/..", "/nowhere/../.."] {
        let about = vol.lookup(path).unwrap();
        assert!(about.is_dir);
        assert_eq!(about.created, None);
    }
    assert!(vol.lookup("/sub").unwrap().created.is_some());
    assert!(matches!(vol.lookup("/nowhere"), Err(FsError::NotFound)));
}
