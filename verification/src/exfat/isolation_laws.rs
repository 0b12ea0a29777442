//! Work on one file leaves the other files and the directories alone.

use vstd::prelude::*;

use super::chains::{lemma_dir_kept, lemma_stream_byte, members};
use super::cluster_map::ExfatClusterMap;
use super::direntry::{DirExtent, FatEntry};
use super::effects::lemma_touches_more;
use super::file_laws::{
    drawn_from, law_lengthened_content, law_shortened_content, law_write_then_content,
    lemma_file_clusters, lemma_heap_kept,
};
use super::frame_laws::{law_insert_leaves_others, lemma_left_alone, lemma_touched_leaves};
use super::layout::{lemma_unit_sizes, Disk, ExfatLayout};
use crate::calendar::PrimitiveDateTime;
use crate::error::FsError;
use crate::file::FileState;
use crate::name::NamePolicy;
use crate::vfs::NewEntry;

verus! {

/// Clusters that were free or belong to one file are none of another list of
/// clusters in use.
proof fn lemma_apart(l: ExfatLayout, img: Seq<u8>, cs: Seq<u32>, all: Seq<u32>, other: Seq<u32>)
    requires
        drawn_from(l, img, cs, all),
        members(cs).disjoint(members(other)),
        l.all_in_use(img, other),
    ensures
        members(all).disjoint(members(other)),
{
    assert forall|c: int| members(all).contains(c) implies !members(other).contains(c) by {
        let i = choose|i: int| 0 <= i < all.len() && all[i] == c as u32;
        if members(other).contains(c) {
            let j = choose|j: int| 0 <= j < other.len() && other[j] == c as u32;
            assert(l.allocated(img, other[j] as int));
            assert(cs.contains(all[i]));
            assert(members(cs).contains(c));
        }
    }
}

/// A file none of whose clusters is `own` stays sound and keeps its contents.
pub proof fn lemma_file_left(
    l: ExfatLayout,
    x: Seq<u8>,
    a: Seq<u8>,
    own: Set<int>,
    t: FileState,
    k: ExfatClusterMap,
    other: Seq<u32>,
)
    requires
        l.volume_sound(x),
        l.file_sound(x, t, k, other),
        l.leaves_alone(x, a, own),
        own.disjoint(members(other)),
    ensures
        l.file_sound(a, t, k, other),
        l.file_content(a, t, other) == l.file_content(x, t, other),
{
    lemma_left_alone(l, x, a, own, 2);
    lemma_heap_kept(l, x, a);
    if other.len() > 0 {
        assert forall|i: int| 0 <= i < other.len() implies {
            let c = (#[trigger] other[i]) as int;
            &&& l.data_cluster(c)
            &&& l.allocated(a, c)
            &&& l.fat_read(a, c) == l.fat_read(x, c)
            &&& l.cluster_data(a, c) == l.cluster_data(x, c)
        } by {
            let c = other[i] as int;
            assert(members(other).contains(c));
            assert(l.data_cluster(c));
            assert(l.has_bit_on(x, c));
            assert(l.cluster_on(x, c));
            assert(l.cluster_kept(x, c));
            lemma_left_alone(l, x, a, own, c);
        }
        if !k.no_fat_chain {
            assert(other.last() == other[other.len() - 1]);
            assert forall|i: int| 0 <= i < other.len() - 1 implies #[trigger] l.fat_read(
                a,
                other[i] as int,
            ) == Ok::<FatEntry, FsError<()>>(FatEntry::Next(other[i + 1])) by {
                assert(l.fat_read(x, other[i] as int) == Ok::<FatEntry, FsError<()>>(
                    FatEntry::Next(other[i + 1]),
                ));
            }
        }
        assert(l.holds_stream(a, other, k.no_fat_chain));
        lemma_file_clusters(l, x, t, k, other);
        lemma_file_clusters(l, a, t, k, other);
        lemma_unit_sizes(l.boot);
        let cb = l.boot.cluster_bytes();
        assert forall|i: int| 0 <= i < t.valid_len implies l.stream_of(a, other)[i] == l.stream_of(
            x,
            other,
        )[i] by {
            lemma_stream_byte(l, x, other, i);
            lemma_stream_byte(l, a, other, i);
            let q = i / cb;
            assert(l.cluster_data(a, other[q] as int) == l.cluster_data(x, other[q] as int));
        }
    } else {
        assert(0 * l.boot.cluster_bytes() == 0);
    }
    assert(l.file_content(a, t, other) =~= l.file_content(x, t, other));
}

/// A file none of whose clusters is touched stays sound and keeps its
/// contents.
proof fn lemma_file_kept(
    l: ExfatLayout,
    x: Seq<u8>,
    a: Seq<u8>,
    touched: Set<int>,
    t: FileState,
    k: ExfatClusterMap,
    other: Seq<u32>,
)
    requires
        l.volume_sound(x),
        l.file_sound(x, t, k, other),
        l.touches_only(x, a, touched, touched, touched),
        touched.disjoint(members(other)),
    ensures
        l.file_sound(a, t, k, other),
        l.file_content(a, t, other) == l.file_content(x, t, other),
{
    lemma_touched_leaves(l, x, a, touched, touched);
    lemma_file_left(l, x, a, touched, t, k, other);
}

/// Inserting an entry leaves every file as it was.
pub proof fn law_insert_keeps_files(
    l: ExfatLayout,
    p: NamePolicy,
    d: Disk,
    parent: DirExtent,
    entry: NewEntry,
    now: PrimitiveDateTime,
    t: FileState,
    k: ExfatClusterMap,
    other: Seq<u32>,
)
    requires
        l.volume_sound(d.img),
        l.dir_sound(d.img, l.refreshed(d.img, parent)),
        l.file_sound(d.img, t, k, other),
        l.dir_and_parent(d.img, l.refreshed(d.img, parent)).disjoint(members(other)),
        entry.times.wf(),
        now.wf(),
        l.inserted(p, d, parent, entry, now).out is Ok,
    ensures
        ({
            let a = l.inserted(p, d, parent, entry, now).disk.img;
            &&& l.file_sound(a, t, k, other)
            &&& l.file_content(a, t, other) == l.file_content(d.img, t, other)
        }),
{
    law_insert_leaves_others(l, p, d, parent, entry, now);
    let a = l.inserted(p, d, parent, entry, now).disk.img;
    let own = l.dir_and_parent(d.img, l.refreshed(d.img, parent));
    lemma_file_left(l, d.img, a, own, t, k, other);
}

/// Writing to a file leaves every other file as it was.
pub proof fn law_write_keeps_other_file(
    l: ExfatLayout,
    d: Disk,
    s: FileState,
    m: ExfatClusterMap,
    cs: Seq<u32>,
    bytes: Seq<u8>,
    now: PrimitiveDateTime,
    t: FileState,
    k: ExfatClusterMap,
    other: Seq<u32>,
)
    requires
        l.volume_sound(d.img),
        l.file_sound(d.img, s, m, cs),
        l.file_sound(d.img, t, k, other),
        members(cs).disjoint(members(other)),
        s.writable,
        0 < bytes.len() <= usize::MAX,
        l.file_written(d, s, m, bytes, now).out is Ok,
    ensures
        ({
            let a = l.file_written(d, s, m, bytes, now).disk.img;
            &&& l.file_sound(a, t, k, other)
            &&& l.file_content(a, t, other) == l.file_content(d.img, t, other)
        }),
{
    let all = law_write_then_content(l, d, s, m, cs, bytes, now);
    let a = l.file_written(d, s, m, bytes, now).disk.img;
    if other.len() > 0 {
        lemma_apart(l, d.img, cs, all, other);
    }
    lemma_file_kept(l, d.img, a, members(all), t, k, other);
}

/// Changing the length of a file leaves every other file as it was. Where the
/// file is shortened, its last cluster must not be marked bad.
pub proof fn law_resize_keeps_other_file(
    l: ExfatLayout,
    d: Disk,
    s: FileState,
    m: ExfatClusterMap,
    cs: Seq<u32>,
    size: u64,
    now: PrimitiveDateTime,
    t: FileState,
    k: ExfatClusterMap,
    other: Seq<u32>,
)
    requires
        l.volume_sound(d.img),
        l.file_sound(d.img, s, m, cs),
        l.file_sound(d.img, t, k, other),
        members(cs).disjoint(members(other)),
        s.writable,
        size < s.len && cs.len() > 0 && !m.no_fat_chain ==> l.fat_entry(
            d.img,
            cs.last() as int,
        ) != FatEntry::Bad,
        l.file_resized(d, s, m, size, now).out is Ok,
    ensures
        ({
            let a = l.file_resized(d, s, m, size, now).disk.img;
            &&& l.file_sound(a, t, k, other)
            &&& l.file_content(a, t, other) == l.file_content(d.img, t, other)
        }),
{
    let a = l.file_resized(d, s, m, size, now).disk.img;
    let e = Set::<int>::empty();
    if size > s.len {
        let all = law_lengthened_content(l, d, s, m, cs, size, now);
        let of = members(all);
        if other.len() > 0 {
            lemma_apart(l, d.img, cs, all, other);
        }
        lemma_touches_more(l, d.img, a, of, of, e, of, of, of);
        lemma_file_kept(l, d.img, a, of, t, k, other);
    } else if size < s.len {
        law_shortened_content(l, d, s, m, cs, size, now);
        let of = members(cs);
        lemma_touches_more(l, d.img, a, of, of, e, of, of, of);
        lemma_file_kept(l, d.img, a, of, t, k, other);
    }
}

/// Writing to a file leaves every directory's listing as it was.
pub proof fn law_write_keeps_listing(
    l: ExfatLayout,
    d: Disk,
    s: FileState,
    m: ExfatClusterMap,
    cs: Seq<u32>,
    bytes: Seq<u8>,
    now: PrimitiveDateTime,
    ext: DirExtent,
    other: Seq<u32>,
)
    requires
        l.volume_sound(d.img),
        l.file_sound(d.img, s, m, cs),
        l.holds_dir(
            d.img,
            ext.first_cluster,
            ext.no_fat_chain,
            ext.max_clusters as int,
            other,
        ),
        other.no_duplicates(),
        members(cs).disjoint(members(other)),
        s.writable,
        0 < bytes.len() <= usize::MAX,
        l.file_written(d, s, m, bytes, now).out is Ok,
    ensures
        l.listing(l.file_written(d, s, m, bytes, now).disk.img, ext) == l.listing(d.img, ext),
{
    let all = law_write_then_content(l, d, s, m, cs, bytes, now);
    let a = l.file_written(d, s, m, bytes, now).disk.img;
    let of = members(all);
    lemma_apart(l, d.img, cs, all, other);
    assert(l.stream_sound(d.img, other)) by {
        assert forall|i: int| 0 <= i < other.len() implies l.data_cluster((#[trigger] other[i]) as int) by {
            assert(l.data_cluster(other[i] as int));
        }
    }
    lemma_dir_kept(
        l,
        d.img,
        a,
        ext.first_cluster,
        ext.no_fat_chain,
        ext.max_clusters as int,
        of,
        of,
        of,
    );
}

} // verus!
