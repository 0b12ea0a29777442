//! What a new entry of a FAT directory is found as, and what a new directory
//! holds.

use vstd::prelude::*;

use super::dir_laws::lemma_places_walked;
use super::dir_slots::FatDir;
use super::effects::members;
use super::entry::FatFields;
use super::entry_laws::{
    inserted_fields, law_insert_then_found, law_new_directory_lists_dots, lemma_dir_cluster_effect,
    lemma_inserted_storable, lemma_new_cluster_apart, name_storable,
};
use super::frame_laws::law_entry_leaves_others;
use super::insert_laws::lemma_dir_in_use;
use super::layout::{FatDisk, FatLayout};
use super::move_laws::{lemma_dir_left, lemma_packed_attributes};
use super::slot_iter::fat_listing;
use super::slot_laws::law_listing_reads_slots;
use super::update_laws::law_stored_fields_keep;
use crate::attrs::{unpacked_attributes, Attributes};
use crate::calendar::{Date, PrimitiveDateTime, Time};
use crate::codec::fat::fat_entry::FatEntry;
use crate::codec::stamp_laws::{to_even_second, to_hundredths, year_fits};
use crate::entry_times::EntryTimes;
use crate::error::FsError;
use crate::vfs::NewEntry;

verus! {

/// The stamps are of years that records can hold.
pub open spec fn stamps_fit(t: EntryTimes) -> bool {
    &&& t.created matches Some(c) ==> year_fits(c.date.year as int)
    &&& t.modified matches Some(c) ==> year_fits(c.date.year as int)
    &&& t.accessed matches Some(c) ==> year_fits(c.year as int)
}

/// `g` shows what `entry` was given: the name, the attributes, with files marked
/// for archiving, the length, and the stamps as far as a record keeps them. An
/// entry without a modification stamp is shown as modified at the start of 1980.
pub open spec fn shows_new_entry(g: FatFields, entry: NewEntry) -> bool {
    let t = entry.times;
    let start = PrimitiveDateTime {
        date: Date { year: 1980, month: 1, day: 1 },
        time: Time { hour: 0, minute: 0, second: 0, nanosecond: 0 },
    };
    &&& g.name == entry.name@
    &&& g.is_dir == entry.is_dir
    &&& unpacked_attributes(g.attributes as u16) == (if entry.is_dir {
        entry.attrs
    } else {
        Attributes { archive: true, ..entry.attrs }
    })
    &&& g.file_size == (if entry.size <= 0xFFFF_FFFF {
        entry.size as int
    } else {
        0xFFFF_FFFF
    })
    &&& g.created == (match t.created {
        Some(c) => Some(to_hundredths(c)),
        None => None,
    })
    &&& g.modified == (match t.modified {
        Some(c) => to_even_second(c),
        None => start,
    })
    &&& g.accessed == t.accessed
}

/// The listing shows a directory that holds nothing but `.`, which leads to
/// itself, and `..`, which leads to the directory `parent`, or to cluster 0 where
/// that is the root.
pub open spec fn lists_dots_only(
    l: FatLayout,
    listing: (Seq<FatFields>, Option<FsError<()>>),
    own: u32,
    parent: FatDir,
) -> bool {
    let (entries, err) = listing;
    &&& err is None
    &&& entries.len() == 2
    &&& entries[0].name == seq!['.']
    &&& entries[0].is_dir
    &&& entries[0].data_cluster == own
    &&& entries[1].name == seq!['.', '.']
    &&& entries[1].is_dir
    &&& parent == l.root_dir() || parent == FatDir::FixedRoot ==> entries[1].data_cluster == 0
    &&& parent != l.root_dir() ==> (parent matches FatDir::Clusters(p) ==> entries[1].data_cluster
        == p)
}

/// Creating an entry in a tidy directory, where nothing was found under its name
/// before: a lookup then finds it with what it was given, and with the cluster it
/// brings along, if any. A directory that brings none gets a cluster that was
/// free before, and it lists nothing but `.` and `..`. Lookups of other names find
/// what they found before.
pub proof fn law_created_entry_found(
    l: FatLayout,
    d: FatDisk,
    dir: FatDir,
    cs: Seq<u32>,
    entry: NewEntry,
    other: Seq<char>,
) -> (g: FatFields)
    requires
        l.dir_tidy(d.img, dir, cs),
        dir matches FatDir::Clusters(p) ==> l.is_cluster(p as int),
        name_storable(entry.name@),
        entry.times.wf(),
        stamps_fit(entry.times),
        l.fat_type is FAT16 ==> entry.first_cluster < 0x1_0000,
        l.inserted(d, dir, entry).out is Ok,
    ensures
        ({
            let a = l.inserted(d, dir, entry).disk.img;
            &&& l.child(d.img, dir, entry.name@) == Ok::<Option<FatFields>, FsError<()>>(None)
            &&& l.child(a, dir, entry.name@) == Ok::<Option<FatFields>, FsError<()>>(Some(g))
            &&& shows_new_entry(g, entry)
            &&& !entry.is_dir || entry.first_cluster != 0 ==> g.data_cluster == entry.first_cluster
            &&& entry.is_dir && entry.first_cluster == 0 ==> {
                &&& l.is_cluster(g.data_cluster as int)
                &&& l.fat_read(d.img, g.data_cluster as int) == Ok::<FatEntry, FsError<()>>(
                    FatEntry::Free,
                )
                &&& lists_dots_only(
                    l,
                    fat_listing(l, a, FatDir::Clusters(g.data_cluster)),
                    g.data_cluster,
                    dir,
                )
            }
            &&& !crate::name::NamePolicy::Ascii.same_name(entry.name@, other) ==> l.child(
                a,
                dir,
                other,
            ) == l.child(d.img, dir, other)
        }),
{
    let more = law_insert_then_found(l, d, dir, cs, entry, other);
    let a = l.inserted(d, dir, entry).disk.img;
    let g = l.child(a, dir, entry.name@)->Ok_0->0;
    let p = inserted_fields(l, d, dir, entry);
    law_stored_fields_keep(p);
    let attrs = if entry.is_dir {
        entry.attrs
    } else {
        Attributes { archive: true, ..entry.attrs }
    };
    lemma_packed_attributes(attrs, entry.is_dir);
    if entry.is_dir && entry.first_cluster == 0 {
        lemma_new_directory_kept(l, d, dir, cs, entry);
    }
    g
}

/// The cluster of a new directory still lists its dots once the directory's entry
/// is stored.
proof fn lemma_new_directory_kept(l: FatLayout, d: FatDisk, dir: FatDir, cs: Seq<u32>, entry: NewEntry)
    requires
        l.dir_tidy(d.img, dir, cs),
        dir matches FatDir::Clusters(p) ==> l.is_cluster(p as int),
        name_storable(entry.name@),
        entry.times.wf(),
        l.inserted(d, dir, entry).out is Ok,
        entry.is_dir && entry.first_cluster == 0,
    ensures
        ({
            let a = l.inserted(d, dir, entry).disk.img;
            let c = l.new_cluster(d, dir, entry).out->Ok_0;
            &&& l.is_cluster(c as int)
            &&& l.fat_read(d.img, c as int) == Ok::<FatEntry, FsError<()>>(FatEntry::Free)
            &&& lists_dots_only(l, fat_listing(l, a, FatDir::Clusters(c)), c, dir)
        }),
{
    assert(l.sound() && l.volume_end() <= d.img.len()) by {
        reveal(FatLayout::dir_sound);
    }
    let at = match entry.times.modified {
        Some(t) => t,
        None => crate::calendar::epoch_datetime(),
    };
    lemma_dir_cluster_effect(l, d, dir, at);
    law_new_directory_lists_dots(l, d, dir, at);
    lemma_new_cluster_apart(l, d, dir, cs, entry);
    lemma_inserted_storable(l, d, dir, cs, entry);
    let made = l.new_cluster(d, dir, entry);
    let c = made.out->Ok_0;
    let p = inserted_fields(l, d, dir, entry);
    let one = seq![c];
    assert(one[0] == c);
    law_entry_leaves_others(l, made.disk, p, dir, cs);
    let a = l.inserted(d, dir, entry).disk.img;
    let new = FatDir::Clusters(c);
    assert(members(cs).disjoint(members(one))) by {
        assert forall|k: int| !(members(cs).contains(k) && members(one).contains(k)) by {
            if members(cs).contains(k) && members(one).contains(k) {
                let i = choose|i: int| 0 <= i < cs.len() && cs[i] == k as u32;
                let j = choose|j: int| 0 <= j < one.len() && one[j] == k as u32;
                lemma_dir_in_use(l, d.img, dir, cs, i);
                assert(l.fat_read(d.img, one[0] as int) == Ok::<FatEntry, FsError<()>>(
                    FatEntry::Free,
                ));
            }
        }
    }
    assert(l.fat_read(d.img, one[0] as int) == Ok::<FatEntry, FsError<()>>(FatEntry::Free));
    lemma_dir_left(l, made.disk.img, a, members(cs), c, one);
    let ps = l.places(new, one);
    lemma_places_walked(l, made.disk.img, new, one);
    lemma_places_walked(l, a, new, one);
    law_listing_reads_slots(l, made.disk.img, new, ps);
    law_listing_reads_slots(l, a, new, ps);
}

} // verus!
