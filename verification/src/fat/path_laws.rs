//! What a path leads to, step by step, and what may be opened there.

use vstd::prelude::*;

use super::dir_slots::FatDir;
use super::directory::fat_first_named;
use super::entry::FatFields;
use super::layout::{FatDisk, FatLayout};
use super::rename_laws::{lemma_first_named_in, lemma_none_named};
use super::slot_iter::fat_listing;
use crate::attrs::Attributes;
use crate::codec::fat::bpb::Ebr;
use crate::codec::fat::fat_entry::FatEntry;
use crate::entry_times::EntryTimes;
use crate::error::{CorruptKind, FsError};
use crate::exfat::vfs::{attributes_patch, times_patch};
use crate::name::NamePolicy;
use crate::path::{components_of, ends_in_parent, is_forbidden, normalized, valid_path};
use crate::path_laws::{law_components_of_valid_path, law_paths_split_at_separators};

verus! {

/// `r` is what a search for `name` among the entries of the directory `dir` comes
/// to: the first entry that goes by the name; where none does, the error at which
/// the listing broke off, or else that there is none.
pub open spec fn sought_in(
    l: FatLayout,
    img: Seq<u8>,
    dir: FatDir,
    name: Seq<char>,
    r: Result<Option<FatFields>, FsError<()>>,
) -> bool {
    let (all, err) = fat_listing(l, img, dir);
    match r {
        Ok(Some(f)) => exists|i: int|
            {
                &&& 0 <= i < all.len()
                &&& #[trigger] all[i] == f
                &&& NamePolicy::Ascii.same_name(f.name, name)
                &&& forall|j: int|
                    0 <= j < i ==> !NamePolicy::Ascii.same_name(#[trigger] all[j].name, name)
            },
        Ok(None) => false,
        Err(x) => {
            &&& err == Some(x) || (err is None && x == FsError::<()>::NotFound)
            &&& forall|j: int|
                0 <= j < all.len() ==> !NamePolicy::Ascii.same_name(#[trigger] all[j].name, name)
        },
    }
}

/// The root directory: the fixed region behind the FATs on FAT16, on FAT32 the
/// chain that the boot record names.
pub open spec fn root_of(l: FatLayout) -> FatDir {
    match l.boot.ebr {
        Ebr::Fat16(_) => FatDir::FixedRoot,
        Ebr::Fat32(e, _) => FatDir::Clusters(e.root_cluster),
    }
}

/// One component more leads one directory further down.
proof fn lemma_descend_further(
    l: FatLayout,
    img: Seq<u8>,
    dir: FatDir,
    a: Seq<Seq<char>>,
    c: Seq<char>,
)
    ensures
        l.descend(img, dir, a.push(c)) == (match l.descend(img, dir, a) {
            Err(x) => Err(x),
            Ok(sub) => match l.child(img, sub, c) {
                Err(x) => Err(x),
                Ok(None) => Err(FsError::NotFound),
                Ok(Some(f)) => if f.is_dir {
                    Ok(FatDir::Clusters(f.data_cluster))
                } else {
                    Err(FsError::NotADirectory)
                },
            },
        }),
    decreases a.len(),
{
    let b = a.push(c);
    if a.len() == 0 {
        assert(b.first() == c);
        assert(b.drop_first() =~= seq![]);
        if let Ok(Some(f)) = l.child(img, dir, c) {
            let next = FatDir::Clusters(f.data_cluster);
            assert(l.descend(img, next, b.drop_first()) == Ok::<FatDir, FsError<()>>(next));
        }
    } else {
        assert(b.first() == a.first());
        assert(b.drop_first() =~= a.drop_first().push(c));
        if let Ok(Some(f)) = l.child(img, dir, a.first()) {
            lemma_descend_further(l, img, FatDir::Clusters(f.data_cluster), a.drop_first(), c);
        }
    }
}

proof fn lemma_child_sought(
    l: FatLayout,
    img: Seq<u8>,
    dir: FatDir,
    name: Seq<char>,
    r: Result<Option<FatFields>, FsError<()>>,
)
    requires
        r == (match l.child(img, dir, name) {
            Err(x) => Err(x),
            Ok(None) => Err(FsError::NotFound),
            Ok(Some(f)) => Ok(Some(f)),
        }),
    ensures
        sought_in(l, img, dir, name, r),
{
    let all = fat_listing(l, img, dir).0;
    match fat_first_named(NamePolicy::Ascii, all, name) {
        Some(f) => {
            let i = lemma_first_named_in(all, name);
            assert(all[i] == f);
        },
        None => {
            lemma_none_named(all, name);
        },
    }
}

/// A path is followed from the root on, one component at a time. A name behind a
/// path that leads to the root is looked for in the root, behind the path of a
/// directory in that directory; behind the path of a file, and behind a path that
/// leads nowhere, it is not found, for the reason that holds of the path. The
/// directory that a path names is found in the same way.
pub proof fn law_path_followed(l: FatLayout, img: Seq<u8>, path: Seq<char>, name: Seq<char>)
    requires
        name.len() > 0,
        forall|i: int| 0 <= i < name.len() ==> #[trigger] name[i] != '/' && name[i] != '\\',
        name != seq!['.'],
        name != seq!['.', '.'],
        valid_path(name),
    ensures
        ({
            let below = l.entry_at(img, path.push('/') + name);
            let dir = l.dir_at(img, path);
            match l.entry_at(img, path) {
                Err(x) => {
                    &&& below == Err::<Option<FatFields>, FsError<()>>(x)
                    &&& dir == Err::<FatDir, FsError<()>>(x)
                },
                Ok(None) => {
                    &&& normalized(components_of(path)).len() == 0
                    &&& dir == Ok::<FatDir, FsError<()>>(root_of(l))
                    &&& sought_in(l, img, root_of(l), name, below)
                },
                Ok(Some(f)) => if f.is_dir {
                    &&& dir == Ok::<FatDir, FsError<()>>(FatDir::Clusters(f.data_cluster))
                    &&& sought_in(l, img, FatDir::Clusters(f.data_cluster), name, below)
                } else {
                    &&& dir == Err::<FatDir, FsError<()>>(FsError::NotADirectory)
                    &&& below == Err::<Option<FatFields>, FsError<()>>(FsError::NotADirectory)
                },
            }
        }),
        !valid_path(path) ==> l.entry_at(img, path) == Err::<Option<FatFields>, FsError<()>>(
            FsError::InvalidInput,
        ),
{
    law_paths_split_at_separators(path, name, name);
    let long = path.push('/') + name;
    let (a, b) = (components_of(path), components_of(long));
    assert(b =~= a.push(name));
    assert(b.drop_last() =~= a);
    let (c, n) = (normalized(a), normalized(b));
    assert(n == c.push(name));
    assert(n.drop_last() =~= c);
    if valid_path(path) {
        assert forall|i: int| 0 <= i < long.len() implies !is_forbidden(
            #[trigger] long[i],
        ) by {
            if i < path.len() {
                assert(!is_forbidden(path[i]));
            } else if i > path.len() {
                assert(!is_forbidden(name[i - path.len() - 1]));
            }
        }
        assert(valid_path(long));
        if c.len() == 0 {
            lemma_child_sought(l, img, root_of(l), name, l.entry_at(img, long));
        } else {
            assert(c.drop_last().push(c.last()) =~= c);
            lemma_descend_further(l, img, root_of(l), c.drop_last(), c.last());
            if let Ok(Some(f)) = l.entry_at(img, path) {
                if f.is_dir {
                    lemma_child_sought(
                        l,
                        img,
                        FatDir::Clusters(f.data_cluster),
                        name,
                        l.entry_at(img, long),
                    );
                }
            }
        }
    } else {
        let i = choose|i: int|
            0 <= i < path.len() && is_forbidden(#[trigger] path[i]);
        assert(long[i] == path[i]);
    }
}

proof fn lemma_chain_holds(l: FatLayout, img: Seq<u8>, cs: Seq<u32>, i: int, size: int)
    requires
        0 <= i < cs.len() <= l.props.max_cluster,
        forall|j: int|
            0 <= j < cs.len() - 1 ==> l.fat_read(img, (#[trigger] cs[j]) as int) == Ok::<
                FatEntry,
                FsError<()>,
            >(FatEntry::Next(cs[j + 1])),
        l.fat_read(img, cs.last() as int) == Ok::<FatEntry, FsError<()>>(FatEntry::End),
        i * l.props.cluster_size < size || i == 0,
        0 <= size <= 0xFFFF_FFFF,
    ensures
        l.chain_holds(img, cs[i], i, size) == Ok::<bool, FsError<()>>(
            size <= cs.len() * l.props.cluster_size,
        ),
    decreases cs.len() - i,
{
    let n = l.props.cluster_size as int;
    let (k, m) = (i + 1, cs.len() as int);
    assert(k * n <= m * n) by (nonlinear_arith)
        requires
            k <= m,
            n >= 0,
    ;
    if k * n < size {
        if k < m {
            assert(l.fat_read(img, cs[i] as int) == Ok::<FatEntry, FsError<()>>(
                FatEntry::Next(cs[i + 1]),
            ));
            lemma_chain_holds(l, img, cs, k, size);
        } else {
            assert(cs[i] == cs.last());
        }
    }
}

/// A file whose chain is `cs` has a chain long enough for its size if and only if
/// the size is at most what the chain's clusters hold; a file without clusters
/// is taken as it is.
pub proof fn law_chain_long_enough(l: FatLayout, img: Seq<u8>, cs: Seq<u32>, size: u32)
    requires
        0 < cs.len() <= l.props.max_cluster,
        cs[0] >= 2,
        forall|j: int|
            0 <= j < cs.len() - 1 ==> l.fat_read(img, (#[trigger] cs[j]) as int) == Ok::<
                FatEntry,
                FsError<()>,
            >(FatEntry::Next(cs[j + 1])),
        l.fat_read(img, cs.last() as int) == Ok::<FatEntry, FsError<()>>(FatEntry::End),
    ensures
        l.chain_healthy(img, cs[0], size as int) == Ok::<bool, FsError<()>>(
            size <= cs.len() * l.props.cluster_size,
        ),
        l.chain_healthy(img, 0, size as int) == Ok::<bool, FsError<()>>(true),
{
    lemma_chain_holds(l, img, cs, 0, size as int);
}

/// A path opens for reading if it leads to a file whose chain is long enough, and
/// for writing if the file is not read-only either. A directory opens for
/// neither, nor does a path that ends by going up.
pub proof fn law_paths_open(l: FatLayout, img: Seq<u8>, path: Seq<char>)
    requires
        valid_path(path),
    ensures
        ({
            let (r, w) = (l.file_at(img, path), l.writable_at(img, path));
            &&& match l.entry_at(img, path) {
                Err(x) => {
                    &&& w == Err::<FatFields, FsError<()>>(x)
                    &&& !ends_in_parent(path) ==> r == Err::<FatFields, FsError<()>>(x)
                },
                Ok(None) => {
                    &&& r == Err::<FatFields, FsError<()>>(FsError::IsADirectory)
                    &&& w == Err::<FatFields, FsError<()>>(FsError::IsADirectory)
                },
                Ok(Some(f)) => {
                    &&& f.is_dir ==> {
                        &&& r == Err::<FatFields, FsError<()>>(FsError::IsADirectory)
                        &&& w == Err::<FatFields, FsError<()>>(FsError::IsADirectory)
                    }
                    &&& !f.is_dir ==> {
                        let whole = l.chain_healthy(img, f.data_cluster, f.file_size as int);
                        &&& f.attributes & 0x01 == 0x01 ==> w == Err::<FatFields, FsError<()>>(
                            FsError::ReadOnlyFile,
                        )
                        &&& f.attributes & 0x01 != 0x01 ==> w == r
                        &&& !ends_in_parent(path) && whole == Ok::<bool, FsError<()>>(true)
                            ==> r == Ok::<FatFields, FsError<()>>(f)
                        &&& !ends_in_parent(path) && whole == Ok::<bool, FsError<()>>(false)
                            ==> r == Err::<FatFields, FsError<()>>(
                            FsError::Corrupt(CorruptKind::ClusterChain),
                        )
                    }
                },
            }
            &&& ends_in_parent(path) ==> r == Err::<FatFields, FsError<()>>(FsError::IsADirectory)
        }),
{
    law_components_of_valid_path(path);
    let c = normalized(components_of(path));
    if c.len() > 0 {
        assert forall|i: int| 0 <= i < c.drop_last().len() implies valid_path(
            #[trigger] c.drop_last()[i],
        ) by {
            assert(valid_path(c[i]));
        }
    }
    if let Ok(Some(f)) = l.entry_at(img, path) {
        let (x, y) = (f.attributes, f.attributes as u16);
        assert(y & 0x01 == 0x01u16 <==> x & 0x01 == 0x01u8) by (bit_vector)
            requires
                y == x as u16,
        ;
    }
}

/// Setting the stamps or the attributes of a path changes the entry that the path
/// leads to and no more of it than that; the root has no entry to change, and a
/// path that leads nowhere changes nothing.
pub proof fn law_path_change_is_entry_change(
    l: FatLayout,
    d: FatDisk,
    path: Seq<char>,
    times: EntryTimes,
    attrs: Attributes,
)
    ensures
        ({
            let (t, a) = (times_patch(times), attributes_patch(attrs));
            let (rt, ra) = (l.path_patched(d, path, t), l.path_patched(d, path, a));
            match l.entry_at(d.img, path) {
                Err(x) => rt.out == Err::<(), FsError<()>>(x) && ra.out == Err::<(), FsError<()>>(x)
                    && rt.disk == d && ra.disk == d,
                Ok(None) => rt.out == Err::<(), FsError<()>>(FsError::InvalidInput) && ra.out
                    == Err::<(), FsError<()>>(FsError::InvalidInput) && rt.disk == d && ra.disk == d,
                Ok(Some(f)) => rt == l.entry_updated(d, f, t) && ra == l.entry_updated(d, f, a),
            }
        }),
{
}

} // verus!
