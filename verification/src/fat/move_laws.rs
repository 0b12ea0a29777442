//! What a directory that was linked into another holds.

use vstd::prelude::*;

use super::dir_laws::{
    lemma_dir_kept, lemma_place_apart, lemma_places_walked, lemma_slot_cluster, lemma_slot_units,
    lemma_slot_written, lemma_slots_kept,
};
use super::dir_slots::{FatDir, SlotChain};
use super::directory::{fat_metadata, relink_of};
use super::effects::{lemma_touches_more, members, span};
use super::entry::{record_image, sfn_record, FatFields, MinFields};
use super::entry_io::dotdot_sfn;
use super::entry_laws::{
    inserted_fields, law_insert_then_found, law_rewrite_changes_one, lemma_first_named_joined,
    lemma_first_named_one, lemma_place_outside, lemma_slot_nth, name_storable,
};
use super::frame_laws::{law_insert_leaves_others, lemma_left_alone};
use super::insert_laws::lemma_dir_in_use;
use super::layout::{FatDisk, FatLayout};
use super::name_laws::{lemma_record_exists, stored_fields};
use super::slot_iter::fat_listing;
use super::slot_laws::law_listing_reads_slots;
use super::update_laws::lemma_listed_stored;
use crate::attrs::{packed_attributes, unpacked_attributes, Attributes};
use crate::calendar::PrimitiveDateTime;
use crate::codec::fat::dir_entry::RAW_DIRECTORY;
use crate::codec::fat::fat_entry::FatEntry;
use crate::dir::Metadata;
use crate::error::FsError;
use crate::name::NamePolicy;
use crate::vfs::NewEntry;

verus! {

/// A directory none of whose clusters is `own` stays as it is.
pub proof fn lemma_dir_left(
    l: FatLayout,
    x: Seq<u8>,
    a: Seq<u8>,
    own: Set<int>,
    first: u32,
    ms: Seq<u32>,
)
    requires
        l.dir_sound(x, FatDir::Clusters(first), ms),
        l.leaves_alone(x, a, own),
        own.disjoint(members(ms)),
    ensures
        l.dir_sound(a, FatDir::Clusters(first), ms),
        l.dir_content(a, FatDir::Clusters(first), ms) == l.dir_content(
            x,
            FatDir::Clusters(first),
            ms,
        ),
{
    let dir = FatDir::Clusters(first);
    lemma_left_alone(l, x, a, own, 0);
    assert forall|i: int| 0 <= i < ms.len() implies l.fat_read(a, (#[trigger] ms[i]) as int)
        == l.fat_read(x, ms[i] as int) && l.same_bytes(x, a, ms[i] as int) by {
        lemma_dir_in_use(l, x, dir, ms, i);
        assert(members(ms).contains(ms[i] as int));
        lemma_left_alone(l, x, a, own, ms[i] as int);
    }
    assert(l.dir_sound(a, dir, ms)) by {
        reveal(FatLayout::dir_sound);
        assert(ms.last() == ms[ms.len() - 1]);
        assert forall|i: int| 0 <= i < ms.len() - 1 implies #[trigger] l.fat_read(
            a,
            ms[i] as int,
        ) == Ok::<FatEntry, FsError<()>>(FatEntry::Next(ms[i + 1])) by {
            assert(l.fat_read(x, ms[i] as int) == Ok::<FatEntry, FsError<()>>(
                FatEntry::Next(ms[i + 1]),
            ));
        }
    }
    assert(l.wf()) by {
        reveal(FatLayout::dir_sound);
    }
    let ps = l.places(dir, ms);
    lemma_places_walked(l, x, dir, ms);
    lemma_places_walked(l, a, dir, ms);
    lemma_slot_units(l);
    assert forall|k: int| 0 <= k < ps.len() implies l.slot_read(a, #[trigger] ps[k]) == l.slot_read(
        x,
        ps[k],
    ) by {
        lemma_slot_cluster(l, ms, k);
        lemma_place_apart(l, x, dir, ms, k, k);
        let c = ms[k / l.slots_in_cluster()] as int;
        let off = l.place_offset(dir, ms, k);
        assert(l.same_bytes(x, a, c));
        assert forall|i: int| off <= i < off + 32 && i < x.len() implies #[trigger] x[i] == a[i] by {
            assert(l.byte_of(c, i));
        }
        if off + 32 <= x.len() {
            assert(x.subrange(off, off + 32) =~= a.subrange(off, off + 32));
        }
    }
    assert(l.dir_content(a, dir, ms) =~= l.dir_content(x, dir, ms));
}

/// A directory that shares no cluster with the one a slot of which was written
/// lists as before.
proof fn lemma_other_listing(
    l: FatLayout,
    x: Seq<u8>,
    a: Seq<u8>,
    bytes: Set<int>,
    ms: Seq<u32>,
    dir: FatDir,
    cs: Seq<u32>,
)
    requires
        l.dir_sound(x, dir, cs),
        l.touches_only(x, a, set![], bytes),
        bytes.subset_of(l.cluster_bytes(ms)),
        members(cs).disjoint(members(ms)),
        forall|i: int| 0 <= i < ms.len() ==> l.is_cluster((#[trigger] ms[i]) as int),
    ensures
        fat_listing(l, a, dir) == fat_listing(l, x, dir),
{
    let e = Set::<int>::empty();
    let area = l.cluster_bytes(ms);
    lemma_touches_more(l, x, a, e, bytes, e, area);
    lemma_dir_kept(l, x, a, e, area, dir, cs);
    assert forall|k: int| 0 <= k < l.place_count(dir, cs) implies area.disjoint(
        span(#[trigger] l.place_offset(dir, cs, k), 32),
    ) by {
        lemma_place_outside(l, x, dir, cs, ms, k);
    }
    lemma_slots_kept(l, x, a, e, area, dir, cs);
    let ps = l.places(dir, cs);
    lemma_places_walked(l, x, dir, cs);
    lemma_places_walked(l, a, dir, cs);
    law_listing_reads_slots(l, x, dir, ps);
    law_listing_reads_slots(l, a, dir, ps);
}

/// Rewriting the `..` of a directory, its second entry and slot: it then leads
/// to the new parent, and all else is listed as before.
proof fn lemma_dotdot_rewritten(
    l: FatLayout,
    d: FatDisk,
    first: u32,
    ms: Seq<u32>,
    parent: FatDir,
    now: PrimitiveDateTime,
)
    requires
        l.dir_sound(d.img, FatDir::Clusters(first), ms),
        has_dotdot(l, d.img, first, ms),
        parent matches FatDir::Clusters(p) ==> l.is_cluster(p as int),
        now.wf(),
        l.dotdot_repointed(d, first, parent, now).out is Ok,
    ensures
        ({
            let dir = FatDir::Clusters(first);
            let r = l.dotdot_repointed(d, first, parent, now);
            let all = fat_listing(l, d.img, dir).0;
            let q = l.dot_fields(dotdot_sfn(), l.parent_link(parent), now);
            let at = l.place_offset(dir, ms, 1);
            &&& fat_listing(l, r.disk.img, dir) == (
                all.update(1, (MinFields { name: all[1].name, ..stored_fields(q) }).at(all[1].chain)),
                None::<FsError<()>>,
            )
            &&& l.touches_only(d.img, r.disk.img, set![], span(at, 32))
        }),
{
    let dir = FatDir::Clusters(first);
    let ps = l.places(dir, ms);
    let all = fat_listing(l, d.img, dir).0;
    let q = l.dot_fields(dotdot_sfn(), l.parent_link(parent), now);
    assert(l.sound() && ms.len() > 0 && ms[0] == first) by {
        reveal(FatLayout::dir_sound);
    }
    lemma_places_walked(l, d.img, dir, ms);
    lemma_slot_units(l);
    let (n, u) = (ms.len() as int, l.slots_in_cluster());
    assert(n * u >= 16) by (nonlinear_arith)
        requires
            n >= 1,
            u >= 16,
    ;
    assert(ps[0] == l.first_slot(dir));
    lemma_slot_nth(l, d.img, dir, ps, 0, 1);
    lemma_slot_nth(l, d.img, dir, ps, 1, 0);
    let a = RAW_DIRECTORY;
    assert(0x10u8 & 0x08u8 != 0x08u8) by (bit_vector);
    law_rewrite_changes_one(l, d, dir, ms, 1, q);
    lemma_record_exists(sfn_record(q));
    lemma_slot_written(l, d, dir, ms, 1, record_image(sfn_record(q)));
}

/// The second slot and the second entry of the directory are its `..`.
pub open spec fn has_dotdot(l: FatLayout, img: Seq<u8>, first: u32, ms: Seq<u32>) -> bool {
    let dir = FatDir::Clusters(first);
    let all = fat_listing(l, img, dir).0;
    &&& all.len() >= 2
    &&& all[1].sfn == dotdot_sfn()
    &&& all[1].chain == (SlotChain { first: l.places(dir, ms)[1], len: 1 })
}

/// Linking a directory, as some directory lists it, into another under a new
/// name: the other then finds it under that name, at the same cluster and with
/// the same attributes and stamps; its `..` leads to the other, or to
/// cluster 0 where that is the root; and all its other entries are listed, and
/// found by name, as before.
pub proof fn law_link_moves_directory(
    l: FatLayout,
    d: FatDisk,
    dir: FatDir,
    cs: Seq<u32>,
    from: FatDir,
    ss: Seq<u32>,
    m: int,
    f: FatFields,
    ms: Seq<u32>,
    entry: NewEntry,
    now: PrimitiveDateTime,
    other: Seq<char>,
)
    requires
        l.dir_tidy(d.img, dir, cs),
        dir matches FatDir::Clusters(p) ==> l.is_cluster(p as int),
        listed_as(l, d.img, from, ss, m, f),
        f.is_dir,
        relink_of(f, entry.name@, entry),
        name_storable(entry.name@),
        now.wf(),
        l.dir_sound(d.img, FatDir::Clusters(f.data_cluster), ms),
        has_dotdot(l, d.img, f.data_cluster, ms),
        members(cs).disjoint(members(ms)),
        l.linked(d, dir, f, entry, now).out is Ok,
    ensures
        ({
            let a = l.linked(d, dir, f, entry, now).disk.img;
            let moved = FatDir::Clusters(f.data_cluster);
            let all = fat_listing(l, d.img, moved).0;
            let after = fat_listing(l, a, moved).0;
            &&& l.child(a, dir, entry.name@) matches Ok(Some(g)) && g.data_cluster
                == f.data_cluster && g.name == entry.name@ && fat_metadata(g) == fat_metadata(f)
            &&& fat_listing(l, a, moved).1 is None
            &&& after.len() == all.len()
            &&& after[1].name == all[1].name
            &&& after[1].data_cluster == l.parent_link(dir)
            &&& forall|i: int| 0 <= i < all.len() && i != 1 ==> #[trigger] after[i] == all[i]
            &&& !NamePolicy::Ascii.same_name(all[1].name, other) ==> l.child(a, moved, other)
                == l.child(d.img, moved, other)
        }),
{
    let first = f.data_cluster;
    let moved = FatDir::Clusters(first);
    let all = fat_listing(l, d.img, moved).0;
    let i = l.inserted(d, dir, entry);
    let b = i.disk.img;
    assert(ms.len() > 0 && ms[0] == first && l.sound()) by {
        reveal(FatLayout::dir_sound);
    }
    lemma_dir_in_use(l, d.img, moved, ms, 0);
    assert(first >= 2);
    lemma_listed_stored(l, d, from, ss, m);
    let more = law_insert_then_found(l, d, dir, cs, entry, entry.name@);
    law_insert_leaves_others(l, d, dir, cs, entry);
    lemma_dir_left(l, d.img, b, members(cs), first, ms);
    let ps = l.places(moved, ms);
    lemma_places_walked(l, d.img, moved, ms);
    lemma_places_walked(l, b, moved, ms);
    law_listing_reads_slots(l, d.img, moved, ps);
    law_listing_reads_slots(l, b, moved, ps);
    lemma_dotdot_rewritten(l, i.disk, first, ms, dir, now);
    let r = l.dotdot_repointed(i.disk, first, dir, now);
    let a = r.disk.img;
    let q = l.dot_fields(dotdot_sfn(), l.parent_link(dir), now);
    let h = (MinFields { name: all[1].name, ..stored_fields(q) }).at(all[1].chain);
    // The directory that took the entry is not touched by that.
    let at = l.place_offset(moved, ms, 1);
    lemma_more_apart(l, d.img, moved, cs, more, ms);
    assert forall|k: int| 0 <= k < ms.len() implies l.is_cluster((#[trigger] ms[k]) as int) by {
        lemma_dir_in_use(l, d.img, moved, ms, k);
    }
    lemma_slot_units(l);
    let (n, u) = (ms.len() as int, l.slots_in_cluster());
    assert(n * u >= 16) by (nonlinear_arith)
        requires
            n >= 1,
            u >= 16,
    ;
    lemma_slot_cluster(l, ms, 1);
    assert(span(at, 32).subset_of(l.cluster_bytes(ms))) by {
        let c = 1int / u;
        assert forall|x: int| span(at, 32).contains(x) implies l.cluster_bytes(ms).contains(x) by {
            assert(l.cluster_pos(ms[c] as int) <= x < l.cluster_pos(ms[c] as int)
                + l.props.cluster_size);
        }
    }
    lemma_other_listing(l, b, a, span(at, 32), ms, dir, cs + more);
    // Lookups in the moved directory.
    let (before, behind) = (all.subrange(0, 1), all.subrange(2, all.len() as int));
    let ascii = NamePolicy::Ascii;
    let g = all[1];
    assert(all =~= before + seq![g] + behind);
    assert(all.update(1, h) =~= before + seq![h] + behind);
    lemma_first_named_joined(ascii, before + seq![g], behind, other);
    lemma_first_named_joined(ascii, before, seq![g], other);
    lemma_first_named_one(ascii, g, other);
    lemma_first_named_joined(ascii, before + seq![h], behind, other);
    lemma_first_named_joined(ascii, before, seq![h], other);
    lemma_first_named_one(ascii, h, other);
    // What is found under the new name.
    lemma_relinked_fields(l, d, dir, f, entry);
}

/// `f` is number `m` of what the directory `from`, made of the clusters `ss`,
/// lists.
pub open spec fn listed_as(
    l: FatLayout,
    img: Seq<u8>,
    from: FatDir,
    ss: Seq<u32>,
    m: int,
    f: FatFields,
) -> bool {
    &&& l.dir_sound(img, from, ss)
    &&& 0 <= m < fat_listing(l, img, from).0.len()
    &&& f == fat_listing(l, img, from).0[m]
}

/// Linking a file, as some directory lists it, into a directory under a new
/// name: the directory then finds it under that name, at the same cluster, with
/// the same size, stamps and attributes, and marked for archiving as every new
/// file is. Under every other name it finds what it found before.
pub proof fn law_link_moves_file(
    l: FatLayout,
    d: FatDisk,
    dir: FatDir,
    cs: Seq<u32>,
    from: FatDir,
    ss: Seq<u32>,
    m: int,
    f: FatFields,
    entry: NewEntry,
    now: PrimitiveDateTime,
    other: Seq<char>,
)
    requires
        l.dir_tidy(d.img, dir, cs),
        listed_as(l, d.img, from, ss, m, f),
        !f.is_dir,
        relink_of(f, entry.name@, entry),
        name_storable(entry.name@),
        l.linked(d, dir, f, entry, now).out is Ok,
    ensures
        ({
            let a = l.linked(d, dir, f, entry, now).disk.img;
            let same = fat_metadata(f);
            &&& l.child(a, dir, entry.name@) matches Ok(Some(g)) && {
                &&& g.name == entry.name@
                &&& g.data_cluster == f.data_cluster
                &&& fat_metadata(g) == (Metadata {
                    attributes: Attributes { archive: true, ..same.attributes },
                    ..same
                })
            }
            &&& !NamePolicy::Ascii.same_name(entry.name@, other) ==> l.child(a, dir, other)
                == l.child(d.img, dir, other)
        }),
{
    lemma_listed_stored(l, d, from, ss, m);
    let more = law_insert_then_found(l, d, dir, cs, entry, other);
    lemma_relinked_fields(l, d, dir, f, entry);
}

/// What an entry that is linked again is stored as.
proof fn lemma_relinked_fields(l: FatLayout, d: FatDisk, dir: FatDir, f: FatFields, entry: NewEntry)
    requires
        relink_of(f, entry.name@, entry),
        stored_fields(f.min()) == f.min(),
        f.is_dir ==> f.data_cluster != 0,
    ensures
        ({
            let p = inserted_fields(l, d, dir, entry);
            let same = fat_metadata(f);
            forall|chain: SlotChain|
                {
                    let g = #[trigger] stored_fields(p).at(chain);
                    &&& g.name == entry.name@
                    &&& g.data_cluster == f.data_cluster
                    &&& fat_metadata(g) == (if f.is_dir {
                        same
                    } else {
                        Metadata {
                            attributes: Attributes { archive: true, ..same.attributes },
                            ..same
                        }
                    })
                }
        }),
{
    let p = inserted_fields(l, d, dir, entry);
    let attrs = if f.is_dir {
        entry.attrs
    } else {
        Attributes { archive: true, ..entry.attrs }
    };
    lemma_packed_attributes(attrs, f.is_dir);
    assert(p.attributes == packed_attributes(attrs, f.is_dir) as u8);
    assert(p.data_cluster == f.data_cluster);
    assert(stored_fields(p).created == stored_fields(f.min()).created);
    assert(stored_fields(p).modified == stored_fields(f.min()).modified);
    assert(stored_fields(p).accessed == stored_fields(f.min()).accessed);
}

/// Clusters that were free belong to no directory.
proof fn lemma_more_apart(
    l: FatLayout,
    img: Seq<u8>,
    moved: FatDir,
    cs: Seq<u32>,
    more: Seq<u32>,
    ms: Seq<u32>,
)
    requires
        l.dir_sound(img, moved, ms),
        l.all_free(img, more),
        members(cs).disjoint(members(ms)),
    ensures
        members(cs + more).disjoint(members(ms)),
{
    let all = cs + more;
    assert forall|c: int| members(all).contains(c) implies !members(ms).contains(c) by {
        let i = choose|i: int| 0 <= i < all.len() && all[i] == c as u32;
        if i < cs.len() {
            assert(cs[i] == c as u32);
            assert(members(cs).contains(c));
        } else {
            assert(more[i - cs.len()] == c as u32);
            if members(ms).contains(c) {
                let j = choose|j: int| 0 <= j < ms.len() && ms[j] == c as u32;
                lemma_dir_in_use(l, img, moved, ms, j);
                assert(l.fat_read(img, more[i - cs.len()] as int) == Ok::<FatEntry, FsError<()>>(
                    FatEntry::Free,
                ));
            }
        }
    }
}

/// Attributes packed into a byte read back, and so does the directory bit.
pub proof fn lemma_packed_attributes(a: Attributes, is_dir: bool)
    ensures
        ({
            let m = packed_attributes(a, is_dir) as u8;
            &&& unpacked_attributes(m as u16) == a
            &&& (m & RAW_DIRECTORY == RAW_DIRECTORY) == is_dir
        }),
{
    crate::attrs::law_attributes_round_trip(a, is_dir);
    let m = packed_attributes(a, is_dir);
    assert(m <= 0x3Fu16 ==> (m as u8) as u16 == m && ((m as u8) & 0x10u8 == 0x10u8) == (m
        & 0x0010u16 == 0x0010u16)) by (bit_vector);
}

} // verus!
