//! Work on one file leaves the other files and the directories alone.

use vstd::prelude::*;

use super::dir_laws::{lemma_dir_kept, lemma_places_walked, lemma_slots_kept};
use super::dir_slots::FatDir;
use super::effects::{lemma_touches_more, lemma_untouched, members, span};
use super::entry_laws::lemma_place_outside;
use super::file_laws::{
    drawn_from, law_lengthened_content, law_shortened_content, law_write_then_content,
    lemma_stream_place,
};
use super::layout::{FatDisk, FatLayout};
use super::regions::lemma_cluster_places;
use super::slot_iter::fat_listing;
use super::slot_laws::law_listing_reads_slots;
use super::stream_laws::lemma_file_chain;
use crate::calendar::PrimitiveDateTime;
use crate::codec::fat::fat_entry::FatEntry;
use crate::error::FsError;
use crate::file::FileState;

verus! {

/// Clusters that were free or belong to one file are none of another chain.
proof fn lemma_apart(l: FatLayout, img: Seq<u8>, cs: Seq<u32>, all: Seq<u32>, other: Seq<u32>)
    requires
        drawn_from(l, img, cs, all),
        members(cs).disjoint(members(other)),
        l.chained(img, other),
    ensures
        members(all).disjoint(members(other)),
{
    assert forall|c: int| members(all).contains(c) implies !members(other).contains(c) by {
        let i = choose|i: int| 0 <= i < all.len() && all[i] == c as u32;
        if members(other).contains(c) {
            let j = choose|j: int| 0 <= j < other.len() && other[j] == c as u32;
            if j < other.len() - 1 {
                assert(l.fat_read(img, other[j] as int) == Ok::<FatEntry, FsError<()>>(
                    FatEntry::Next(other[j + 1]),
                ));
            } else {
                assert(other[j] == other.last());
            }
            assert(cs.contains(all[i]));
            assert(members(cs).contains(c));
        }
    }
}

/// A byte of a stream lies in none of the clusters that are not its own.
proof fn lemma_byte_outside(
    l: FatLayout,
    img: Seq<u8>,
    all: Seq<u32>,
    other: Seq<u32>,
    i: int,
)
    requires
        l.sound(),
        l.volume_end() <= img.len(),
        l.distinct_clusters(all),
        l.distinct_clusters(other),
        members(all).disjoint(members(other)),
        0 <= i < other.len() * l.props.cluster_size,
    ensures
        !l.cluster_bytes(all).contains(l.stream_pos(other, i)),
        l.root_pos() <= l.stream_pos(other, i) < img.len(),
{
    lemma_stream_place(l, img, other, i);
    let size = l.props.cluster_size as int;
    let q = i / size;
    let b = l.stream_pos(other, i);
    if l.cluster_bytes(all).contains(b) {
        let k = choose|k: int|
            0 <= k < all.len() && l.cluster_pos((#[trigger] all[k]) as int) <= b < l.cluster_pos(
                all[k] as int,
            ) + l.props.cluster_size;
        assert(l.is_cluster(all[k] as int));
        assert(members(all).contains(all[k] as int));
        assert(members(other).contains(other[q] as int));
        lemma_cluster_places(l, all[k] as int, other[q] as int);
    }
}

/// A file none of whose clusters is touched stays sound and keeps its
/// contents.
proof fn lemma_file_kept(
    l: FatLayout,
    x: Seq<u8>,
    a: Seq<u8>,
    touched: Seq<u32>,
    t: FileState,
    allocated: u64,
    other: Seq<u32>,
)
    requires
        l.file_sound(x, t, allocated, other),
        l.distinct_clusters(touched),
        l.touches_only(x, a, members(touched), l.cluster_bytes(touched)),
        members(touched).disjoint(members(other)),
    ensures
        l.file_sound(a, t, allocated, other),
        l.file_content(a, t, other) == l.file_content(x, t, other),
{
    let (cells, area) = (members(touched), l.cluster_bytes(touched));
    lemma_untouched(l, x, a, cells, area, 0);
    if other.len() > 0 {
        lemma_file_chain(l, x, other[0], other);
        lemma_dir_kept(l, x, a, cells, area, FatDir::Clusters(other[0]), other);
        assert forall|i: int| 0 <= i < t.valid_len implies l.stream_of(a, other)[i] == l.stream_of(
            x,
            other,
        )[i] by {
            lemma_byte_outside(l, x, touched, other, i);
            lemma_untouched(l, x, a, cells, area, l.stream_pos(other, i));
        }
    } else {
        assert(0 * l.props.cluster_size == 0);
    }
    assert(l.file_content(a, t, other) =~= l.file_content(x, t, other));
}

/// Writing to a file leaves every other file as it was.
pub proof fn law_write_keeps_other_file(
    l: FatLayout,
    d: FatDisk,
    s: FileState,
    allocated: u64,
    cs: Seq<u32>,
    bytes: Seq<u8>,
    now: PrimitiveDateTime,
    t: FileState,
    held: u64,
    other: Seq<u32>,
)
    requires
        l.file_sound(d.img, s, allocated, cs),
        l.file_sound(d.img, t, held, other),
        members(cs).disjoint(members(other)),
        s.writable,
        0 < bytes.len() <= usize::MAX,
        l.file_written(d, s, allocated, bytes, now).out is Ok,
    ensures
        ({
            let a = l.file_written(d, s, allocated, bytes, now).disk.img;
            &&& l.file_sound(a, t, held, other)
            &&& l.file_content(a, t, other) == l.file_content(d.img, t, other)
        }),
{
    let all = law_write_then_content(l, d, s, allocated, cs, bytes, now);
    let r = l.file_written(d, s, allocated, bytes, now);
    if all.len() > 0 {
        lemma_file_chain(l, r.disk.img, all[0], all);
    }
    if other.len() > 0 {
        lemma_file_chain(l, d.img, other[0], other);
        lemma_apart(l, d.img, cs, all, other);
    }
    lemma_file_kept(l, d.img, r.disk.img, all, t, held, other);
}

/// Changing the length of a file leaves every other file as it was.
pub proof fn law_resize_keeps_other_file(
    l: FatLayout,
    d: FatDisk,
    s: FileState,
    allocated: u64,
    cs: Seq<u32>,
    size: u64,
    now: PrimitiveDateTime,
    t: FileState,
    held: u64,
    other: Seq<u32>,
)
    requires
        l.file_sound(d.img, s, allocated, cs),
        l.file_sound(d.img, t, held, other),
        members(cs).disjoint(members(other)),
        s.writable,
        s.len <= u32::MAX,
        l.file_resized(d, s, allocated, size, now).out is Ok,
    ensures
        ({
            let a = l.file_resized(d, s, allocated, size, now).disk.img;
            &&& l.file_sound(a, t, held, other)
            &&& l.file_content(a, t, other) == l.file_content(d.img, t, other)
        }),
{
    let r = l.file_resized(d, s, allocated, size, now);
    if size > s.len {
        let all = law_lengthened_content(l, d, s, allocated, cs, size, now);
        if all.len() > 0 {
            lemma_file_chain(l, r.disk.img, all[0], all);
        }
        if other.len() > 0 {
            lemma_file_chain(l, d.img, other[0], other);
            lemma_apart(l, d.img, cs, all, other);
        }
        lemma_file_kept(l, d.img, r.disk.img, all, t, held, other);
    } else if size < s.len {
        law_shortened_content(l, d, s, allocated, cs, size, now);
        if cs.len() > 0 {
            lemma_file_chain(l, d.img, cs[0], cs);
        }
        lemma_touches_more(
            l,
            d.img,
            r.disk.img,
            members(cs),
            set![],
            members(cs),
            l.cluster_bytes(cs),
        );
        lemma_file_kept(l, d.img, r.disk.img, cs, t, held, other);
    }
}

/// Writing to a file leaves every directory as it was.
pub proof fn law_write_keeps_listing(
    l: FatLayout,
    d: FatDisk,
    s: FileState,
    allocated: u64,
    cs: Seq<u32>,
    bytes: Seq<u8>,
    now: PrimitiveDateTime,
    dir: FatDir,
    other: Seq<u32>,
)
    requires
        l.file_sound(d.img, s, allocated, cs),
        l.dir_tidy(d.img, dir, other),
        members(cs).disjoint(members(other)),
        s.writable,
        0 < bytes.len() <= usize::MAX,
        l.file_written(d, s, allocated, bytes, now).out is Ok,
    ensures
        ({
            let a = l.file_written(d, s, allocated, bytes, now).disk.img;
            &&& l.dir_tidy(a, dir, other)
            &&& l.dir_content(a, dir, other) == l.dir_content(d.img, dir, other)
            &&& fat_listing(l, a, dir) == fat_listing(l, d.img, dir)
        }),
{
    let all = law_write_then_content(l, d, s, allocated, cs, bytes, now);
    let r = l.file_written(d, s, allocated, bytes, now);
    let a = r.disk.img;
    if all.len() > 0 {
        lemma_file_chain(l, a, all[0], all);
    }
    assert(l.chained(d.img, other)) by {
        reveal(FatLayout::dir_sound);
    }
    lemma_apart(l, d.img, cs, all, other);
    let (cells, area) = (members(all), l.cluster_bytes(all));
    lemma_dir_kept(l, d.img, a, cells, area, dir, other);
    assert forall|k: int| 0 <= k < l.place_count(dir, other) implies area.disjoint(
        span(#[trigger] l.place_offset(dir, other, k), 32),
    ) by {
        lemma_place_outside(l, d.img, dir, other, all, k);
    }
    lemma_slots_kept(l, d.img, a, cells, area, dir, other);
    let ps = l.places(dir, other);
    lemma_places_walked(l, d.img, dir, other);
    lemma_places_walked(l, a, dir, other);
    law_listing_reads_slots(l, d.img, dir, ps);
    law_listing_reads_slots(l, a, dir, ps);
}

} // verus!
