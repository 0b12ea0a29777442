//! What a path leads to, step by step, and what may be opened there.

use vstd::prelude::*;

use super::dir_edit::located_from;
use super::direntry::{decoded_at, next_entry, DirExtent, EntryFields, SetLoc};
use super::format_laws::{lemma_flag_bits, long};
use super::layout::{lemma_unit_sizes, Disk, ExfatLayout};
use super::move_laws::{lemma_first_named_in, lemma_none_named};
use super::open::allocated_bytes;
use super::readdir::{
    fits_volume, lemma_next_entry_bounds, lemma_next_listed_bounds, listed_from, next_listed,
    DirWalk,
};
use super::resolve::first_named;
use super::vfs::{attributes_patch, times_patch};
use crate::attrs::Attributes;
use crate::calendar::PrimitiveDateTime;
use crate::codec::exfat::boot::ExfatBootRecord;
use crate::entry_times::EntryTimes;
use crate::error::FsError;
use crate::name::NamePolicy;
use crate::path::components_of;
use crate::path_laws::law_paths_split_at_separators;
use crate::text::utf16_of;
use crate::vfs::NewEntry;

verus! {

/// `r` is what a search for `name` among the entries of the directory `ext` comes
/// to: the first entry that goes by the name, or else that there is none.
pub open spec fn sought_in(
    l: ExfatLayout,
    p: NamePolicy,
    img: Seq<u8>,
    ext: DirExtent,
    name: Seq<char>,
    r: Result<(DirExtent, EntryFields), FsError<()>>,
) -> bool {
    match l.listing(img, ext) {
        Err(x) => r == Err::<(DirExtent, EntryFields), FsError<()>>(x),
        Ok(all) => match r {
            Ok((dir, e)) => dir == ext && exists|i: int|
                {
                    &&& 0 <= i < all.len()
                    &&& #[trigger] all[i] == e
                    &&& p.same_name(e.name, name)
                    &&& forall|j: int| 0 <= j < i ==> !p.same_name(#[trigger] all[j].name, name)
                },
            Err(x) => {
                &&& x == FsError::<()>::NotFound
                &&& forall|j: int|
                    0 <= j < all.len() ==> !p.same_name(#[trigger] all[j].name, name)
            },
        },
    }
}

/// The directory whose entry is `e`: it begins at the entry's cluster, lies
/// contiguously if the entry says so, and has as many clusters as its length
/// takes up, but at least one.
pub open spec fn directory_of(l: ExfatLayout, e: EntryFields) -> DirExtent {
    let cb = l.boot.cluster_bytes();
    let n = if e.data_length == 0 {
        1
    } else {
        (e.data_length + cb - 1) / cb
    };
    DirExtent {
        first_cluster: e.first_cluster,
        no_fat_chain: e.no_fat_chain,
        max_clusters: (if n > 0xFFFF_FFFF {
            0xFFFF_FFFFu32
        } else {
            n as u32
        }),
        parent_entry: e.loc,
    }
}

/// The root directory begins where the boot record says; it is a chain of any
/// length and has no entry.
pub open spec fn root_of(l: ExfatLayout) -> DirExtent {
    DirExtent {
        first_cluster: l.boot.root_dir_cluster,
        no_fat_chain: false,
        max_clusters: 0xFFFF_FFFF,
        parent_entry: None,
    }
}

/// One component more leads one directory further down.
proof fn lemma_descend_further(
    l: ExfatLayout,
    p: NamePolicy,
    img: Seq<u8>,
    ext: DirExtent,
    a: Seq<Seq<char>>,
    c: Seq<char>,
)
    ensures
        l.descend(p, img, ext, a.push(c)) == (match l.descend(p, img, ext, a) {
            Err(x) => Err(x),
            Ok(dir) => match l.child(p, img, dir, c) {
                Err(x) => Err(x),
                Ok(e) => if e.attributes & 0x10 == 0x10 {
                    Ok(l.extent_of(img, e))
                } else {
                    Err(FsError::NotADirectory)
                },
            },
        }),
    decreases a.len(),
{
    let b = a.push(c);
    if a.len() == 0 {
        assert(b.first() == c);
        assert(b.drop_first() =~= seq![]);
        if let Ok(e) = l.child(p, img, ext, c) {
            let next = l.extent_of(img, e);
            assert(l.descend(p, img, next, b.drop_first()) == Ok::<DirExtent, FsError<()>>(next));
        }
    } else {
        assert(b.first() == a.first());
        assert(b.drop_first() =~= a.drop_first().push(c));
        if let Ok(e) = l.child(p, img, ext, a.first()) {
            lemma_descend_further(l, p, img, l.extent_of(img, e), a.drop_first(), c);
        }
    }
}

proof fn lemma_child_sought(
    l: ExfatLayout,
    p: NamePolicy,
    img: Seq<u8>,
    ext: DirExtent,
    name: Seq<char>,
    r: Result<(DirExtent, EntryFields), FsError<()>>,
)
    requires
        l.refreshed(img, ext) == ext,
        r == (match l.child(p, img, ext, name) {
            Err(x) => Err(x),
            Ok(e) => Ok((ext, e)),
        }),
    ensures
        sought_in(l, p, img, ext, name, r),
{
    if let Ok(all) = l.listing(img, ext) {
        match first_named(p, all, name) {
            Some(e) => {
                let i = lemma_first_named_in(p, all, name);
                assert(all[i] == e);
            },
            None => {
                lemma_none_named(p, all, name);
            },
        }
    }
}

/// A path is followed from the root on, one component at a time. A name by itself
/// is looked for in the root. Behind the path of a directory it is looked for in
/// that directory; behind the path of anything else, and behind a path that leads
/// nowhere, it is not found, for the reason that holds of the path. The root has
/// no entry.
pub proof fn law_path_followed(
    l: ExfatLayout,
    p: NamePolicy,
    img: Seq<u8>,
    path: Seq<char>,
    name: Seq<char>,
)
    requires
        name.len() > 0,
        forall|i: int| 0 <= i < name.len() ==> #[trigger] name[i] != '/' && name[i] != '\\',
    ensures
        sought_in(l, p, img, root_of(l), name, l.entry_at(p, img, name)),
        l.entry_at(p, img, Seq::empty()) == Err::<(DirExtent, EntryFields), FsError<()>>(
            FsError::InvalidInput,
        ),
        components_of(path).len() > 0 ==> {
            let below = l.entry_at(p, img, path.push('/') + name);
            match l.entry_at(p, img, path) {
                Err(x) => below == Err::<(DirExtent, EntryFields), FsError<()>>(x),
                Ok((_, e)) => {
                    &&& e.attributes & 0x10 != 0x10 ==> below == Err::<
                        (DirExtent, EntryFields),
                        FsError<()>,
                    >(FsError::NotADirectory)
                    &&& e.attributes & 0x10 == 0x10 && l.entry_fresh(img, e) ==> sought_in(
                        l,
                        p,
                        img,
                        directory_of(l, e),
                        name,
                        below,
                    )
                },
            }
        },
{
    law_paths_split_at_separators(path, name, name);
    let root = l.root();
    let cs = components_of(name);
    assert(cs.drop_last() =~= seq![]);
    assert(l.descend(p, img, root, seq![]) == Ok::<DirExtent, FsError<()>>(root));
    assert(root_of(l) == root);
    lemma_child_sought(l, p, img, root, name, l.entry_at(p, img, name));
    let a = components_of(path);
    if a.len() > 0 {
        let long = path.push('/') + name;
        let b = components_of(long);
        assert(b =~= a.push(name));
        assert(b.drop_last() =~= a);
        assert(a.drop_last().push(a.last()) =~= a);
        lemma_descend_further(l, p, img, root, a.drop_last(), a.last());
        if let Ok((_, e)) = l.entry_at(p, img, path) {
            if e.attributes & 0x10 == 0x10 && l.entry_fresh(img, e) {
                let dir = directory_of(l, e);
                assert(l.extent_of(img, e) == dir);
                lemma_child_sought(l, p, img, dir, name, l.entry_at(p, img, long));
            }
        }
    }
}

/// The directory that a path names is the one whose entry the path leads to; a
/// path without components names the root, and one that leads to a file names no
/// directory.
pub proof fn law_directory_at_path(l: ExfatLayout, p: NamePolicy, img: Seq<u8>, path: Seq<char>)
    ensures
        ({
            let dir = l.descend(p, img, root_of(l), components_of(path));
            if components_of(path).len() == 0 {
                dir == Ok::<DirExtent, FsError<()>>(root_of(l))
            } else {
                match l.entry_at(p, img, path) {
                    Err(x) => dir == Err::<DirExtent, FsError<()>>(x),
                    Ok((_, e)) => {
                        &&& e.attributes & 0x10 != 0x10 ==> dir == Err::<DirExtent, FsError<()>>(
                            FsError::NotADirectory,
                        )
                        &&& e.attributes & 0x10 == 0x10 && l.entry_fresh(img, e) ==> dir == Ok::<
                            DirExtent,
                            FsError<()>,
                        >(directory_of(l, e))
                    },
                }
            }
        }),
{
    let a = components_of(path);
    assert(root_of(l) == l.root());
    if a.len() > 0 {
        assert(a.drop_last().push(a.last()) =~= a);
        lemma_descend_further(l, p, img, l.root(), a.drop_last(), a.last());
        if let Ok((_, e)) = l.entry_at(p, img, path) {
            if e.attributes & 0x10 == 0x10 && l.entry_fresh(img, e) {
                assert(l.extent_of(img, e) == directory_of(l, e));
            }
        }
    }
}

/// Where no entry set of the name is hidden by its geometry, the set of a name is
/// located where the listing shows it.
proof fn lemma_located_as_listed(
    boot: ExfatBootRecord,
    p: NamePolicy,
    w: DirWalk,
    buf: Seq<u8>,
    pos: int,
    name: Seq<char>,
)
    requires
        0 <= pos,
        forall|q: int| #[trigger] decoded_at(buf, q) matches Some(e) ==> p.same_name(e.name, name)
            ==> fits_volume(boot, e),
        first_named(p, listed_from(boot, w, buf, pos), name) is Some,
    ensures
        ({
            let e = first_named(p, listed_from(boot, w, buf, pos), name)->0;
            exists|at: int| #[trigger]
                located_from(p, buf, pos, name) == Some((at, e.entry_set_len)) && e.loc == Some(
                    SetLoc {
                        dir_first_cluster: w.first_cluster,
                        dir_no_fat_chain: w.no_fat_chain,
                        dir_max_clusters: w.max_clusters,
                        logical: at as u64,
                        len: e.entry_set_len,
                    },
                )
        }),
    decreases buf.len() - pos,
{
    lemma_next_entry_bounds(buf, pos);
    let all = listed_from(boot, w, buf, pos);
    let (bare, q) = next_entry(buf, pos)->0;
    assert(next_entry(buf, pos) is Some);
    let at = q - bare.entry_set_len;
    assert(decoded_at(buf, at) == Some(bare));
    if fits_volume(boot, bare) {
        let (e, _) = next_listed(boot, w, buf, pos)->0;
        let rest = listed_from(boot, w, buf, q);
        assert(all == seq![e] + rest);
        assert(all.first() == e && all.drop_first() =~= rest);
        if p.same_name(e.name, name) {
            assert(located_from(p, buf, pos, name) == Some((at, e.entry_set_len)));
        } else {
            lemma_located_as_listed(boot, p, w, buf, q, name);
        }
    } else {
        lemma_next_listed_bounds(boot, w, buf, q);
        assert(listed_from(boot, w, buf, q) == all);
        lemma_located_as_listed(boot, p, w, buf, q, name);
    }
}

/// A path opens for reading if and only if it leads to an entry that is no
/// directory, and for writing only if that entry is not read-only either. The
/// place to which a writer writes back is then the place of the entry, where no
/// entry set of that name in its directory is hidden from the listing.
pub proof fn law_paths_open(l: ExfatLayout, p: NamePolicy, img: Seq<u8>, path: Seq<char>)
    requires
        p.wf(),
    ensures
        match l.entry_at(p, img, path) {
            Err(x) => {
                &&& l.readable_at(p, img, path) == Err::<EntryFields, FsError<()>>(x)
                &&& l.writable_at(p, img, path) == Err::<(EntryFields, SetLoc), FsError<()>>(x)
            },
            Ok((parent, e)) => {
                let ext = l.refreshed(img, parent);
                &&& e.attributes & 0x10 == 0x10 ==> {
                    &&& l.readable_at(p, img, path) == Err::<EntryFields, FsError<()>>(
                        FsError::IsADirectory,
                    )
                    &&& l.writable_at(p, img, path) == Err::<(EntryFields, SetLoc), FsError<()>>(
                        FsError::IsADirectory,
                    )
                }
                &&& e.attributes & 0x10 != 0x10 ==> {
                    &&& l.readable_at(p, img, path) == Ok::<EntryFields, FsError<()>>(e)
                    &&& e.attributes & 0x01 == 0x01 ==> l.writable_at(p, img, path) == Err::<
                        (EntryFields, SetLoc),
                        FsError<()>,
                    >(FsError::ReadOnlyFile)
                    &&& e.attributes & 0x01 != 0x01 && e.name == components_of(path).last()
                        && all_shown(l, p, img, ext, e.name) ==> e.loc is Some && l.writable_at(
                        p,
                        img,
                        path,
                    ) == Ok::<(EntryFields, SetLoc), FsError<()>>((e, e.loc->0))
                }
            },
        },
{
    if let Ok((parent, e)) = l.entry_at(p, img, path) {
        let ext = l.refreshed(img, parent);
        let c = components_of(path).last();
        if e.attributes & 0x10 != 0x10 && e.attributes & 0x01 != 0x01 && e.name == c && all_shown(
            l,
            p,
            img,
            ext,
            c,
        ) {
            let w = DirWalk {
                first_cluster: ext.first_cluster,
                no_fat_chain: ext.no_fat_chain,
                max_clusters: ext.max_clusters,
            };
            let buf = l.dir_read(
                img,
                ext.first_cluster,
                ext.no_fat_chain,
                ext.max_clusters as int,
            )->Ok_0.1;
            lemma_located_as_listed(l.boot, p, w, buf, 0, c);
        }
    }
}

/// Every entry set of the directory that goes by `name` fits the volume, so that
/// the listing shows it.
pub open spec fn all_shown(
    l: ExfatLayout,
    p: NamePolicy,
    img: Seq<u8>,
    ext: DirExtent,
    name: Seq<char>,
) -> bool {
    l.dir_read(img, ext.first_cluster, ext.no_fat_chain, ext.max_clusters as int) matches Ok(r)
        && forall|q: int| #[trigger] decoded_at(r.1, q) matches Some(e) ==> p.same_name(e.name, name)
        ==> fits_volume(l.boot, e)
}

/// Setting the stamps of a path changes the stamps alone of the entry that the
/// path leads to, and setting its attributes the attributes alone; a path that
/// leads to no entry changes nothing.
pub proof fn law_path_change_is_entry_change(
    l: ExfatLayout,
    p: NamePolicy,
    d: Disk,
    path: Seq<char>,
    times: EntryTimes,
    attrs: Attributes,
)
    ensures
        ({
            let (t, a) = (times_patch(times), attributes_patch(attrs));
            let (rt, ra) = (l.path_patched(p, d, path, t), l.path_patched(p, d, path, a));
            &&& t.times == Some(times) && t.attrs is None && a.attrs == Some(attrs) && a.times is None
            &&& t.size is None && t.valid_size is None && t.first_cluster is None
                && t.no_fat_chain is None
            &&& a.size is None && a.valid_size is None && a.first_cluster is None
                && a.no_fat_chain is None
            &&& match l.entry_at(p, d.img, path) {
                Err(x) => rt.out == Err::<(), FsError<()>>(x) && ra.out == Err::<(), FsError<()>>(x)
                    && rt.disk == d && ra.disk == d,
                Ok((_, e)) => {
                    &&& rt.disk == l.entry_updated(d, e, t).disk
                    &&& rt.out is Ok <==> l.entry_updated(d, e, t).out is Ok
                    &&& ra.disk == l.entry_updated(d, e, a).disk
                    &&& ra.out is Ok <==> l.entry_updated(d, e, a).out is Ok
                },
            }
        }),
{
}

/// A directory is walked by what its own entry says on disk now: where that can be
/// read, its length and whether it lies contiguously come from there, whatever they
/// were when the directory was opened.
pub proof fn law_directory_follows_its_entry(
    l: ExfatLayout,
    img: Seq<u8>,
    ext: DirExtent,
    e: EntryFields,
    set: Seq<u8>,
)
    requires
        e.loc is Some,
        ext.parent_entry == e.loc,
        l.set_read(img, e.loc->0) == Ok::<Seq<u8>, FsError<()>>(set),
        set[32] == 0xC0,
        long(set, 56) <= u64::MAX,
    ensures
        ({
            let now = EntryFields {
                data_length: long(set, 56) as u64,
                no_fat_chain: set[33] & 0x02 == 0x02,
                ..e
            };
            &&& l.extent_of(img, e) == directory_of(l, now)
            &&& l.refreshed(img, ext) == (DirExtent {
                first_cluster: ext.first_cluster,
                ..directory_of(l, now)
            })
        }),
{
    lemma_flag_bits(set[33], 0);
}

/// A stream is opened with as many bytes in whole clusters as hold its data.
pub proof fn law_opened_with_its_clusters(l: ExfatLayout, e: EntryFields, n: int)
    requires
        l.boot.valid_shifts(),
        e.first_cluster >= 2,
        0 <= n,
        n * l.boot.cluster_bytes() <= u64::MAX,
        (n - 1) * l.boot.cluster_bytes() < e.data_length <= n * l.boot.cluster_bytes(),
    ensures
        allocated_bytes(l, e) == n * l.boot.cluster_bytes(),
        allocated_bytes(l, EntryFields { first_cluster: 0, ..e }) == 0,
{
    lemma_unit_sizes(l.boot);
    let cb = l.boot.cluster_bytes();
    assert(n * cb == (n - 1) * cb + cb) by (nonlinear_arith);
    let r = e.data_length + cb - 1 - n * cb;
    assert(n * cb == cb * n) by (nonlinear_arith);
    vstd::arithmetic::div_mod::lemma_fundamental_div_mod_converse(e.data_length + cb - 1, cb, n, r);
}

/// A new entry without a name or with one of more than 255 units is refused, and so
/// is one whose name is taken; nothing changes then.
pub proof fn law_bad_name_is_refused(
    l: ExfatLayout,
    p: NamePolicy,
    d: Disk,
    parent: DirExtent,
    entry: NewEntry,
    now: PrimitiveDateTime,
    i: int,
)
    ensures
        ({
            let r = l.inserted(p, d, parent, entry, now);
            let n = utf16_of(entry.name@).len();
            &&& n == 0 || n > 255 ==> r.out == Err::<(), FsError<()>>(FsError::InvalidInput)
                && r.disk == d
            &&& 0 < n <= 255 ==> match l.listing(d.img, l.refreshed(d.img, parent)) {
                Err(x) => r.out == Err::<(), FsError<()>>(x) && r.disk == d,
                Ok(all) => 0 <= i < all.len() && p.same_name(all[i].name, entry.name@) ==> r.out
                    == Err::<(), FsError<()>>(FsError::AlreadyExists) && r.disk == d,
            }
        }),
{
    if let Ok(all) = l.listing(d.img, l.refreshed(d.img, parent)) {
        if first_named(p, all, entry.name@) is None {
            lemma_none_named(p, all, entry.name@);
        }
    }
}

} // verus!
