//! FAT short names.

use unifat::codec::fat::sfn_layout::Sfn;
use unifat::fat::sfn::{as_sfn, compose_short_name, digest_of, numbered, sfn_stem_ext, tagged};

#[test]
fn as_sfn_accepts_plain_8_3() {
    assert!(as_sfn("HELLO.TXT").is_some());
    assert!(as_sfn("NOEXT").is_some());
    assert!(as_sfn("A$%-_@~1.X_Y").is_some());
    assert_eq!(as_sfn("."), Some(Sfn::current_dir()));
    assert_eq!(as_sfn(".."), Some(Sfn::parent_dir()));
}

#[test]
fn as_sfn_rejects_names_needing_an_lfn() {
    // Multi-dot: a raw '.' inside the 11-byte field is invalid.
    assert!(as_sfn("A.B.C").is_none());
    // SFN-illegal characters.
    assert!(as_sfn("A+B.TXT").is_none());
    assert!(as_sfn("A B.TXT").is_none());
    assert!(as_sfn("A[1].TXT").is_none());
    // Lowercase and non-ASCII need the LFN.
    assert!(as_sfn("hello.txt").is_none());
    assert!(as_sfn("б.txt").is_none());
    // Length limits and empty stem.
    assert!(as_sfn("TOOLONGNAME.TXT").is_none());
    assert!(as_sfn("NAME.LONG").is_none());
    assert!(as_sfn(".GIT").is_none());
}

#[test]
fn alias_stems_replace_illegal_chars() {
    // Spaces and dots dropped; illegal ASCII becomes '_'.
    let (stem, ext) = sfn_stem_ext("My File+x.v1.txt");
    assert_eq!(stem, b"MYFILE_XV1");
    assert_eq!(&ext, b"TXT");
    // Fully non-ASCII stems degrade to the numeric tail alone.
    let (stem, _) = sfn_stem_ext("файл");
    assert!(stem.is_empty());
}

#[test]
fn exact_short_names_are_padded() {
    let sfn = as_sfn("HELLO.C").unwrap();
    assert_eq!(&sfn.name, b"HELLO   ");
    assert_eq!(&sfn.ext, b"C  ");
    assert_eq!(sfn.decode(), "HELLO.C");
}

#[test]
fn tails_survive_long_stems() {
    let sfn = compose_short_name(b"ABCDEFGHIJ", b"~1", *b"TXT");
    assert_eq!(&sfn.name, b"ABCDEF~1");
    assert_eq!(&sfn.ext, b"TXT");
    assert_eq!(&numbered(b"AB", *b"   ", 3).name, b"AB~3    ");
    assert_eq!(&tagged(b"ABCDEF", *b"   ", 0x0AF9).name, b"ABC~0AF9");
}

#[test]
fn digest_is_folded_fnv1a() {
    // FNV-1a of nothing is its offset basis 0x811C9DC5.
    assert_eq!(digest_of(""), 0x811C ^ 0x9DC5);
    // FNV-1a of "a" is 0xE40C292C.
    assert_eq!(digest_of("a"), 0xE40C ^ 0x292C);
}
