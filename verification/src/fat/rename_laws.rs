//! What a file is found as once it was renamed, what it then holds, and what is
//! free once an entry's data were given back.

use vstd::prelude::*;

use super::alloc_laws::law_chain_freed;
use super::dir_laws::{
    law_slots_deleted, lemma_dir_kept, lemma_places_walked, lemma_slots_kept, place_bytes,
};
use super::dir_slots::FatDir;
use super::directory::{fat_first_named, fat_metadata, relink_of};
use super::effects::{lemma_touches_more, lemma_untouched, members, span};
use super::entry::FatFields;
use super::entry_laws::{law_remove_then_gone, name_storable};
use super::file_laws::law_read_gives_content;
use super::frame_laws::{
    law_insert_keeps_files, lemma_file_left, lemma_slot_owner, lemma_touched_leaves,
};
use super::layout::{lemma_cluster_size, FatDisk, FatLayout};
use super::move_laws::{law_link_moves_file, listed_as};
use super::open::{fat_opened_stream, FatStream};
use super::slot_iter::fat_listing;
use super::slot_laws::{idle, law_listing_reads_slots, law_slots_delete, scanned, within_cap};
use super::update_laws::lemma_listed_stored;
use crate::attrs::Attributes;
use crate::calendar::PrimitiveDateTime;
use crate::codec::fat::fat_entry::FatEntry;
use crate::dir::Metadata;
use crate::error::FsError;
use crate::exfat::removal_laws::lemma_clusters_taken;
use crate::file::{opened_state, FileState};
use crate::name::NamePolicy;
use crate::vfs::NewEntry;

verus! {

/// The two directories share no slot.
pub open spec fn slots_apart(l: FatLayout, a: FatDir, cs: Seq<u32>, b: FatDir, ds: Seq<u32>) -> bool {
    forall|k: int|
        0 <= k < l.place_count(b, ds) ==> place_bytes(l, a, cs, 0, l.place_count(a, cs)).disjoint(
            span(#[trigger] l.place_offset(b, ds, k), 32),
        )
}

/// Removing an entry touches slots of its directory only.
proof fn lemma_remove_touches(
    l: FatLayout,
    d: FatDisk,
    dir: FatDir,
    cs: Seq<u32>,
    m: int,
)
    requires
        l.dir_sound(d.img, dir, cs),
        0 <= m < fat_listing(l, d.img, dir).0.len(),
    ensures
        ({
            let chain = fat_listing(l, d.img, dir).0[m].chain;
            let r = l.slots_deleted(d, chain.first, chain.len as int);
            &&& r.out is Ok
            &&& l.touches_only(
                d.img,
                r.disk.img,
                set![],
                place_bytes(l, dir, cs, 0, l.place_count(dir, cs)),
            )
            &&& l.leaves_alone(d.img, r.disk.img, members(cs))
        }),
{
    let t = l.fat_type;
    let e = Set::<int>::empty();
    let ps = l.places(dir, cs);
    let all = l.dir_content(d.img, dir, cs);
    let ss = within_cap(all);
    lemma_places_walked(l, d.img, dir, cs);
    law_listing_reads_slots(l, d.img, dir, ps);
    assert forall|j: int| 0 <= j < ss.len() implies (#[trigger] ss[j]).len() == 32 by {
        assert(l.slot_read(d.img, ps[j]) is Ok);
    }
    let i = law_slots_delete(t, ps, ss, m);
    let n = scanned(t, ps, ss, 0, idle())[m].chain.len as int;
    law_slots_deleted(l, d, dir, cs, i, n);
    let a = l.slots_deleted(d, ps[i], n).disk.img;
    let whole = place_bytes(l, dir, cs, 0, l.place_count(dir, cs));
    let part = place_bytes(l, dir, cs, i, n);
    assert forall|b: int| part.contains(b) implies whole.contains(b) by {
        let k = choose|k: int|
            i <= k < i + n && #[trigger] l.place_offset(dir, cs, k) <= b < l.place_offset(dir, cs, k)
                + 32;
        assert(l.place_offset(dir, cs, k) <= b);
    }
    lemma_touches_more(l, d.img, a, e, part, e, whole);
    assert(l.sound()) by {
        reveal(FatLayout::dir_sound);
    }
    assert forall|c: int, b: int|
        part.contains(b) && l.is_cluster(c) && #[trigger] l.byte_of(c, b) implies members(
        cs,
    ).contains(c) || !l.in_use(d.img, c) by {
        lemma_slot_owner(l, d.img, dir, cs, i, n, c, b);
    }
    lemma_touched_leaves(l, d.img, a, e, part, members(cs));
}

/// Renaming or moving a file, which is linking it under the new name and then
/// removing it under the old one: a lookup of the new name finds it at the same
/// cluster, with the same length, stamps and attributes, and marked for archiving
/// as every new file is; and what it holds is byte for byte what it held before.
///
/// The directory `left` is either the one entered, in which case the names must
/// differ by more than case, or one that shares no slot with it; and the file's
/// own clusters belong to neither of them.
pub proof fn law_rename_keeps_file(
    l: FatLayout,
    d: FatDisk,
    dir: FatDir,
    cs: Seq<u32>,
    from: FatDir,
    ss: Seq<u32>,
    m: int,
    f: FatFields,
    entry: NewEntry,
    now: PrimitiveDateTime,
    left: FatDir,
    ls: Seq<u32>,
    k: int,
    here: Seq<u32>,
    t: FileState,
    allocated: u64,
    own: Seq<u32>,
)
    requires
        l.dir_tidy(d.img, dir, cs),
        listed_as(l, d.img, from, ss, m, f),
        !f.is_dir,
        relink_of(f, entry.name@, entry),
        name_storable(entry.name@),
        l.linked(d, dir, f, entry, now).out is Ok,
        ({
            let x = l.linked(d, dir, f, entry, now).disk.img;
            let all = fat_listing(l, x, left).0;
            &&& 0 <= k < all.len()
            &&& all[k] == f
            &&& if left == dir {
                l.dir_tidy(x, left, ls) && !NamePolicy::Ascii.same_name(f.name, entry.name@)
            } else {
                &&& l.dir_sound(x, left, ls)
                &&& l.dir_sound(x, dir, here)
                &&& slots_apart(l, left, ls, dir, here)
            }
        }),
        l.file_sound(d.img, t, allocated, own),
        members(cs).disjoint(members(own)),
        members(ls).disjoint(members(own)),
    ensures
        ({
            let x = l.linked(d, dir, f, entry, now).disk;
            let a = l.slots_deleted(x, f.chain.first, f.chain.len as int).disk.img;
            let same = fat_metadata(f);
            &&& l.child(a, dir, entry.name@) matches Ok(Some(g)) && {
                &&& g.name == entry.name@
                &&& g.data_cluster == f.data_cluster
                &&& fat_metadata(g) == (Metadata {
                    attributes: Attributes { archive: true, ..same.attributes },
                    ..same
                })
            }
            &&& l.file_sound(a, t, allocated, own)
            &&& l.file_content(a, t, own) == l.file_content(d.img, t, own)
        }),
{
    let e = Set::<int>::empty();
    let x = l.linked(d, dir, f, entry, now).disk;
    let a = l.slots_deleted(x, f.chain.first, f.chain.len as int).disk.img;
    law_link_moves_file(l, d, dir, cs, from, ss, m, f, entry, now, entry.name@);
    lemma_listed_stored(l, d, from, ss, m);
    law_insert_keeps_files(l, d, dir, cs, entry, t, allocated, own);
    lemma_remove_touches(l, x, left, ls, k);
    lemma_file_left(l, x.img, a, members(ls), t, allocated, own);
    if left == dir {
        law_remove_then_gone(l, x, dir, ls, k, entry.name@);
    } else {
        let area = place_bytes(l, left, ls, 0, l.place_count(left, ls));
        let ps = l.places(dir, here);
        lemma_dir_kept(l, x.img, a, e, area, dir, here);
        lemma_slots_kept(l, x.img, a, e, area, dir, here);
        lemma_places_walked(l, x.img, dir, here);
        lemma_places_walked(l, a, dir, here);
        law_listing_reads_slots(l, x.img, dir, ps);
        law_listing_reads_slots(l, a, dir, ps);
    }
}

/// A file opened from an entry starts at its first byte and is as long as the
/// entry says, and it reads the bytes of its clusters.
pub proof fn law_opened_file_reads_entry(
    l: FatLayout,
    img: Seq<u8>,
    f: FatFields,
    cs: Seq<u32>,
    s: FatStream,
    key: Seq<u16>,
    writable: bool,
    owns_lock: bool,
    update_times: bool,
    n: int,
)
    requires
        l.sound(),
        l.volume_end() <= img.len(),
        fat_opened_stream(l, s, f, key, writable, owns_lock, update_times),
        cs.len() == 0 ==> f.data_cluster < 2,
        cs.len() > 0 ==> f.data_cluster == cs[0] && l.file_chain(img, cs[0], cs),
        f.file_size <= cs.len() * l.props.cluster_size,
        cs.len() > 1 ==> (cs.len() - 1) * l.props.cluster_size < f.file_size,
        0 <= n,
    ensures
        ({
            let t = opened_state(s.init);
            let k = if n <= f.file_size {
                n
            } else {
                f.file_size as int
            };
            &&& t.pos == 0
            &&& t.len == f.file_size
            &&& l.file_sound(img, t, s.map.allocated_len, cs)
            &&& f.file_size > 0 ==> l.file_read(img, t, n) == Ok::<Seq<u8>, FsError<()>>(
                l.stream_of(img, cs).subrange(0, k),
            )
        }),
{
    lemma_cluster_size(l);
    let t = opened_state(s.init);
    let (c, size) = (cs.len() as int, l.props.cluster_size as int);
    if c == 0 {
        assert(0 * size == 0);
    } else {
        assert(f.data_cluster >= 2) by {
            reveal(FatLayout::dir_sound);
            assert(l.is_cluster(cs[0] as int));
        }
        if f.file_size > 0 {
            if c == 1 {
                assert((c - 1) * size == 0);
            }
            lemma_clusters_taken(c, f.file_size as int, size);
        } else if c == 1 {
            assert(1 * size == size);
        } else {
            assert((c - 1) * size >= 0) by (nonlinear_arith)
                requires
                    c >= 1,
                    size >= 0,
            ;
        }
    }
    if f.file_size > 0 {
        law_read_gives_content(l, img, t, s.map.allocated_len, cs, n);
        assert(l.file_content(img, t, cs).subrange(0, t.readable(n)) =~= l.stream_of(
            img,
            cs,
        ).subrange(0, t.readable(n)));
    }
}

/// The first of a name is one of the list.
pub proof fn lemma_first_named_in(entries: Seq<FatFields>, name: Seq<char>) -> (i: int)
    requires
        fat_first_named(NamePolicy::Ascii, entries, name) is Some,
    ensures
        0 <= i < entries.len(),
        entries[i] == fat_first_named(NamePolicy::Ascii, entries, name)->0,
        NamePolicy::Ascii.same_name(entries[i].name, name),
        forall|j: int|
            0 <= j < i ==> !NamePolicy::Ascii.same_name(#[trigger] entries[j].name, name),
    decreases entries.len(),
{
    if NamePolicy::Ascii.same_name(entries.first().name, name) {
        0
    } else {
        let rest = entries.drop_first();
        let k = lemma_first_named_in(rest, name);
        assert forall|j: int| 0 <= j < k + 1 implies !NamePolicy::Ascii.same_name(
            #[trigger] entries[j].name,
            name,
        ) by {
            if j > 0 {
                assert(entries[j] == rest[j - 1]);
            }
        }
        k + 1
    }
}

pub proof fn lemma_none_named(entries: Seq<FatFields>, name: Seq<char>)
    requires
        fat_first_named(NamePolicy::Ascii, entries, name) is None,
    ensures
        forall|j: int|
            0 <= j < entries.len() ==> !NamePolicy::Ascii.same_name(#[trigger] entries[j].name, name),
    decreases entries.len(),
{
    if entries.len() > 0 {
        let rest = entries.drop_first();
        lemma_none_named(rest, name);
        assert forall|j: int| 0 <= j < entries.len() implies !NamePolicy::Ascii.same_name(
            #[trigger] entries[j].name,
            name,
        ) by {
            if j > 0 {
                assert(entries[j] == rest[j - 1]);
            }
        }
    }
}

/// A lookup in a directory that can be read finds the first entry of the listing
/// that goes by the name, and nothing if and only if none does.
pub proof fn law_lookup_finds_first(l: FatLayout, img: Seq<u8>, dir: FatDir, name: Seq<char>)
    requires
        fat_listing(l, img, dir).1 is None,
    ensures
        ({
            let all = fat_listing(l, img, dir).0;
            match l.child(img, dir, name) {
                Ok(Some(f)) => exists|i: int|
                    {
                        &&& 0 <= i < all.len()
                        &&& #[trigger] all[i] == f
                        &&& NamePolicy::Ascii.same_name(f.name, name)
                        &&& forall|j: int|
                            0 <= j < i ==> !NamePolicy::Ascii.same_name(#[trigger] all[j].name, name)
                    },
                Ok(None) => forall|j: int|
                    0 <= j < all.len() ==> !NamePolicy::Ascii.same_name(#[trigger] all[j].name, name),
                Err(_) => false,
            }
        }),
{
    let all = fat_listing(l, img, dir).0;
    match fat_first_named(NamePolicy::Ascii, all, name) {
        Some(f) => {
            let i = lemma_first_named_in(all, name);
            assert(all[i] == f);
        },
        None => {
            lemma_none_named(all, name);
        },
    }
}

/// From `x` to `a` every cluster of `cs` became free, no other cluster's FAT cell
/// changed, and the bytes of none.
pub open spec fn given_back(l: FatLayout, x: Seq<u8>, a: Seq<u8>, cs: Seq<u32>) -> bool {
    &&& a.len() == x.len()
    &&& forall|i: int|
        0 <= i < cs.len() ==> l.fat_read(a, (#[trigger] cs[i]) as int) == Ok::<
            FatEntry,
            FsError<()>,
        >(FatEntry::Free)
    &&& forall|k: u32|
        l.is_cluster(k as int) && !cs.contains(k) ==> #[trigger] l.fat_read(a, k as int)
            == l.fat_read(x, k as int)
    &&& forall|k: int| l.is_cluster(k) ==> #[trigger] l.same_bytes(x, a, k)
}

/// Giving back the data of an entry whose clusters are the chain `cs`: it
/// succeeds, every one of them is free afterwards, and no other cluster's FAT
/// cell or bytes are touched. An entry without clusters has nothing to give back.
pub proof fn law_data_given_back(l: FatLayout, d: FatDisk, f: FatFields, cs: Seq<u32>)
    requires
        l.sound(),
        l.volume_end() <= d.img.len(),
        cs.len() == 0 ==> f.data_cluster < 2,
        cs.len() > 0 ==> f.data_cluster == cs[0] && l.file_chain(d.img, cs[0], cs),
    ensures
        l.data_freed(d, f).out is Ok,
        given_back(l, d.img, l.data_freed(d, f).disk.img, cs),
{
    if cs.len() > 0 {
        super::stream_laws::lemma_file_chain(l, d.img, cs[0], cs);
        super::stream_laws::lemma_distinct_fit(l, cs);
        assert(l.is_cluster(cs[0] as int));
        law_chain_freed(l, d, cs, 0);
        let a = l.data_freed(d, f).disk.img;
        let e = Set::<int>::empty();
        lemma_untouched(l, d.img, a, members(cs), e, 0);
        assert forall|k: u32| l.is_cluster(k as int) && !cs.contains(k) implies #[trigger] l.fat_read(
            a,
            k as int,
        ) == l.fat_read(d.img, k as int) by {
            assert(!members(cs).contains(k as int));
            lemma_untouched(l, d.img, a, members(cs), e, k as int);
        }
        assert forall|k: int| l.is_cluster(k) implies #[trigger] l.same_bytes(d.img, a, k) by {
            super::regions::lemma_cluster_places(l, k, k);
            assert forall|i: int| #[trigger] l.byte_of(k, i) && i < d.img.len() implies a[i]
                == d.img[i] by {
                lemma_untouched(l, d.img, a, members(cs), e, i);
            }
        }
    } else {
        assert forall|k: int| l.is_cluster(k) implies #[trigger] l.same_bytes(d.img, d.img, k) by {}
    }
}

} // verus!
