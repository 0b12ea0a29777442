//! What lookups see of changes: an entry that was inserted is found under its
//! name, one that was unlinked is not, and all others are found as before.

use vstd::prelude::*;

use super::alloc_laws::{law_extent_allocated, law_new_allocation};
use super::chains::members;
use super::compose::{
    law_composed_exists, law_composed_set_decodes, set_bytes, stored_date, stored_datetime,
};
use super::create::{effective_times, new_attributes, new_set};
use super::dir_edit::{end_slot, located_from, unlinked_set};
use super::dir_laws::{appended, law_append_to_directory, lemma_dir_untouched};
use super::direntry::{
    decoded_at, decoded_set, lemma_decoded_set_shape, next_entry, set_len, DirExtent, EntryFields,
    SetLoc,
};
use super::growth::lemma_distinct_fit;
use super::layout::{lemma_unit_sizes, Disk, ExfatLayout, Run};
use super::listing_laws::{
    law_append_adds_entry, law_unlink_removes_entry, lemma_listed_step, no_end, shown,
};
use super::readdir::{fits_volume, lemma_next_entry_bounds, listed, listed_from, placed, DirWalk};
use super::resolve::first_named;
use crate::bytes::spliced;
use crate::calendar::PrimitiveDateTime;
use crate::codec::exfat::boot::ExfatBootRecord;
use crate::error::FsError;
use crate::name::{law_same_name_equivalence, NamePolicy};
use crate::num::ceil_div;
use crate::text::utf16_of;
use crate::vfs::NewEntry;

verus! {

/// How the directory `ext` is walked.
pub open spec fn walk_of(ext: DirExtent) -> DirWalk {
    DirWalk {
        first_cluster: ext.first_cluster,
        no_fat_chain: ext.no_fat_chain,
        max_clusters: ext.max_clusters,
    }
}

/// The entry with its place given in terms of the walk `w`.
pub open spec fn rewalked(e: EntryFields, w: DirWalk) -> EntryFields {
    EntryFields {
        loc: match e.loc {
            Some(loc) => Some(
                SetLoc {
                    dir_first_cluster: w.first_cluster,
                    dir_no_fat_chain: w.no_fat_chain,
                    dir_max_clusters: w.max_clusters,
                    logical: loc.logical,
                    len: loc.len,
                },
            ),
            None => None,
        },
        ..e
    }
}

/// The same stream listed with other walk parameters gives the same entries,
/// placed in terms of those.
pub proof fn lemma_listed_rewalked(
    boot: ExfatBootRecord,
    w: DirWalk,
    v: DirWalk,
    s: Seq<u8>,
    q: int,
)
    requires
        0 <= q,
    ensures
        listed_from(boot, v, s, q) == listed_from(boot, w, s, q).map_values(
            |e: EntryFields| rewalked(e, v),
        ),
    decreases s.len() - q,
{
    let f = |e: EntryFields| rewalked(e, v);
    lemma_listed_step(boot, w, s, q);
    lemma_listed_step(boot, v, s, q);
    lemma_next_entry_bounds(s, q);
    match next_entry(s, q) {
        None => {
            assert(listed_from(boot, w, s, q).map_values(f) =~= seq![]);
        },
        Some((e, r)) => {
            lemma_listed_rewalked(boot, w, v, s, r);
            let pos = r - e.entry_set_len;
            if fits_volume(boot, e) {
                assert(rewalked(placed(e, w, pos), v) == placed(e, v, pos));
            }
            assert(shown(boot, w, e, pos).map_values(f) =~= shown(boot, v, e, pos));
            assert(listed_from(boot, w, s, q).map_values(f) =~= shown(boot, w, e, pos).map_values(f)
                + listed_from(boot, w, s, r).map_values(f));
        },
    }
}

/// The first entry of that name in a list followed by another.
pub proof fn lemma_first_named_joined(
    p: NamePolicy,
    a: Seq<EntryFields>,
    b: Seq<EntryFields>,
    name: Seq<char>,
)
    ensures
        first_named(p, a + b, name) == (match first_named(p, a, name) {
            Some(e) => Some(e),
            None => first_named(p, b, name),
        }),
    decreases a.len(),
{
    if a.len() == 0 {
        assert(a + b =~= b);
    } else {
        assert((a + b).first() == a.first());
        assert((a + b).drop_first() =~= a.drop_first() + b);
        lemma_first_named_joined(p, a.drop_first(), b, name);
    }
}

/// Names are found alike whatever walk the places are given for.
pub proof fn lemma_first_named_rewalked(
    p: NamePolicy,
    a: Seq<EntryFields>,
    w: DirWalk,
    name: Seq<char>,
)
    ensures
        first_named(p, a.map_values(|e: EntryFields| rewalked(e, w)), name) == (match first_named(
            p,
            a,
            name,
        ) {
            Some(e) => Some(rewalked(e, w)),
            None => None,
        }),
    decreases a.len(),
{
    let f = |e: EntryFields| rewalked(e, w);
    if a.len() > 0 {
        assert(a.map_values(f).first() == rewalked(a.first(), w));
        assert(a.map_values(f).drop_first() =~= a.drop_first().map_values(f));
        lemma_first_named_rewalked(p, a.drop_first(), w, name);
    }
}

/// What a new entry is found as, once its allocation is known and before its
/// place is.
pub open spec fn new_fields(
    entry: NewEntry,
    now: PrimitiveDateTime,
    allocation: (u32, u64, u64, bool),
    set_len: int,
) -> EntryFields {
    let times = effective_times(entry.times, now);
    EntryFields {
        name: entry.name@,
        attributes: new_attributes(entry),
        first_cluster: allocation.0,
        valid_data_length: allocation.1,
        data_length: allocation.2,
        no_fat_chain: allocation.3,
        loc: None,
        entry_set_len: set_len as u32,
        created: stored_datetime(times.created),
        modified: stored_datetime(times.modified),
        accessed: stored_date(times.accessed),
    }
}

/// The allocation made for a new entry that owns no clusters yet fits the
/// volume.
pub proof fn law_new_allocation_fits(l: ExfatLayout, d: Disk, entry: NewEntry)
    requires
        l.volume_sound(d.img),
        l.new_allocation(d, entry).out is Ok,
        entry.first_cluster < 2,
    ensures
        ({
            let (first, valid, length, contiguous) = l.new_allocation(d, entry).out->Ok_0;
            l.boot.geometry_ok(first as int, length as int, valid as int, contiguous)
        }),
{
    let cb = l.boot.cluster_bytes();
    lemma_unit_sizes(l.boot);
    assert((cb + cb - 1) / cb == 1) by (nonlinear_arith)
        requires
            cb > 0,
    ;
    if entry.is_dir {
        super::regions::law_search_finds_free(l, d.img, 1);
    } else if entry.size > 0 {
        let n = ceil_div(entry.size as int, cb);
        assert(n >= 1) by (nonlinear_arith)
            requires
                n == (entry.size + cb - 1) / cb,
                entry.size >= 1,
                cb > 0,
        ;
        let cs = law_extent_allocated(l, d, n);
        assert(l.data_cluster(cs[0] as int));
        let (first, contiguous) = l.extent_allocated(d, n).out->Ok_0;
        if contiguous {
            assert(cs[n - 1] == (first + n - 1) as u32);
            super::regions::law_search_finds_free(l, d.img, n);
        } else {
            super::chains::lemma_walk_distinct(
                l,
                l.extent_allocated(d, n).disk.img,
                Some(first),
                false,
                0,
                0,
            );
            lemma_distinct_fit(l, cs);
        }
    }
}

/// A directory in use is left alone by an allocation.
proof fn lemma_allocation_apart(l: ExfatLayout, a: Seq<u8>, b: Seq<u8>, taken: Seq<u32>, ext: DirExtent)
    requires
        l.volume_sound(a),
        l.dir_sound(a, ext),
        l.took(a, b, taken),
    ensures
        l.volume_sound(b),
        l.dir_sound(b, ext),
        l.refreshed(b, ext) == l.refreshed(a, ext),
        ext.parent_entry matches Some(loc) ==> l.stream_now(b, loc) == l.stream_now(a, loc),
        l.dir_read(b, ext.first_cluster, ext.no_fat_chain, ext.max_clusters as int) == l.dir_read(
            a,
            ext.first_cluster,
            ext.no_fat_chain,
            ext.max_clusters as int,
        ),
{
    let m = members(taken);
    let (first, nfc, max) = (ext.first_cluster, ext.no_fat_chain, ext.max_clusters as int);
    let cs = l.dir_clusters(a, first, nfc, max)->Ok_0;
    super::dir_laws::lemma_free_apart(l, a, taken, cs);
    lemma_dir_untouched(l, a, b, m, m, m, first, nfc, max, cs);
    if let Some(loc) = ext.parent_entry {
        let pcs = l.dir_clusters(
            a,
            loc.dir_first_cluster,
            loc.dir_no_fat_chain,
            loc.dir_max_clusters as int,
        )->Ok_0;
        super::dir_laws::lemma_free_apart(l, a, taken, pcs);
        super::dir_laws::lemma_set_kept(l, a, b, m, m, m, loc, cs);
    }
}

/// The bytes of a directory in the order they are walked.
pub open spec fn stream_at(l: ExfatLayout, img: Seq<u8>, ext: DirExtent) -> Seq<u8> {
    l.dir_read(img, ext.first_cluster, ext.no_fat_chain, ext.max_clusters as int)->Ok_0.1
}

/// Behind the end of the directory there is room for `n` bytes that nothing
/// but an end follows.
pub open spec fn clean_end(buf: Seq<u8>, n: int) -> bool {
    end_slot(buf, 0) + n >= buf.len() || buf[end_slot(buf, 0) + n] == 0
}

/// The set appended to a directory whose length is a whole number of slots.
pub proof fn lemma_append_listed(
    l: ExfatLayout,
    d: Disk,
    ext: DirExtent,
    set: Seq<u8>,
    e: EntryFields,
)
    requires
        l.volume_sound(d.img),
        l.dir_sound(d.img, ext),
        l.refreshed(d.img, ext) == ext,
        l.set_appended(d, ext, set).out is Ok,
        decoded_set(set) == Some(e),
    ensures
        ({
            let a = l.set_appended(d, ext, set).disk.img;
            let now = l.refreshed(a, ext);
            let buf = stream_at(l, d.img, ext);
            let end = end_slot(buf, 0);
            let old = listed(l.boot, walk_of(now), buf);
            &&& l.listing(d.img, ext) == Ok::<Seq<EntryFields>, FsError<()>>(
                listed(l.boot, walk_of(ext), buf),
            )
            &&& l.listing(a, now) matches Ok(entries) && {
                &&& entries.subrange(0, old.len() as int) == old
                &&& old.len() + shown(l.boot, walk_of(now), e, end).len() <= entries.len()
                &&& entries.subrange(
                    old.len() as int,
                    (old.len() + shown(l.boot, walk_of(now), e, end).len()) as int,
                ) == shown(l.boot, walk_of(now), e, end)
                &&& clean_end(buf, set.len() as int) ==> entries == old + shown(
                    l.boot,
                    walk_of(now),
                    e,
                    end,
                )
            }
            &&& l.volume_sound(a)
            &&& l.dir_sound(a, now)
        }),
{
    law_append_to_directory(l, d, ext, set);
    let a = l.set_appended(d, ext, set).disk.img;
    let now = l.refreshed(a, ext);
    let (cs, buf) = l.dir_read(
        d.img,
        ext.first_cluster,
        ext.no_fat_chain,
        ext.max_clusters as int,
    )->Ok_0;
    lemma_unit_sizes(l.boot);
    let (n, cb) = (cs.len() as int, l.boot.cluster_bytes());
    assert(buf.len() == n * cb && (n * cb) % 32 == 0) by {
        assert(0 <= n * cb && (n * cb) % 32 == 0) by (nonlinear_arith)
            requires
                0 <= n,
                0 < cb,
                cb % 32 == 0,
        ;
    }
    let end = end_slot(buf, 0);
    super::dir_edit::lemma_end_slot_bounds(buf, 0);
    let room = l.room_added(buf, set.len() as int);
    assert(end + set.len() <= buf.len() + room) by {
        if end + set.len() > buf.len() {
            super::dir_laws::lemma_clusters_added(l, buf, set.len() as int);
        }
    }
    law_append_adds_entry(l.boot, walk_of(now), buf, room, set, e);
    let entries = l.listing(a, now)->Ok_0;
    let old = listed(l.boot, walk_of(now), buf);
    let new = shown(l.boot, walk_of(now), e, end);
    let long = buf + Seq::new(room, |i: int| 0u8);
    let tail = listed_from(l.boot, walk_of(now), long, end + set.len());
    assert(entries == old + new + tail);
    assert(entries.subrange(0, old.len() as int) =~= old);
    assert(entries.subrange(old.len() as int, (old.len() + new.len()) as int) =~= new);
    if clean_end(buf, set.len() as int) {
        assert(old + new + tail =~= old + new);
    }
}

/// Appending an entry set to a directory behind whose end nothing is left: the
/// listing is the old one followed by the new entry, wherever the set comes to
/// lie; what a growing directory adds holds zeros but for the set; and a growing
/// directory takes free clusters only, so that nothing in use elsewhere is
/// touched.
///
/// The extent may have been held for any time: its walk parameters are brought
/// up to date first. Where the directory grew, the entries before are placed by
/// its new walk parameters.
pub proof fn law_append_then_listed(
    l: ExfatLayout,
    d: Disk,
    held: DirExtent,
    set: Seq<u8>,
    e: EntryFields,
)
    requires
        l.volume_sound(d.img),
        l.dir_sound(d.img, l.refreshed(d.img, held)),
        l.set_appended(d, l.refreshed(d.img, held), set).out is Ok,
        decoded_set(set) == Some(e),
        fits_volume(l.boot, e),
        clean_end(stream_at(l, d.img, l.refreshed(d.img, held)), set.len() as int),
    ensures
        ({
            let ext = l.refreshed(d.img, held);
            let a = l.set_appended(d, ext, set).disk.img;
            let now = l.refreshed(a, held);
            let buf = stream_at(l, d.img, ext);
            let end = end_slot(buf, 0);
            let old = l.listing(d.img, ext)->Ok_0;
            &&& l.listing(d.img, ext) is Ok
            &&& l.listing(a, now) == Ok::<Seq<EntryFields>, FsError<()>>(
                old.map_values(|x: EntryFields| rewalked(x, walk_of(now))).push(
                    placed(e, walk_of(now), end),
                ),
            )
            &&& stream_at(l, a, now) == spliced(
                buf + Seq::new(l.room_added(buf, set.len() as int), |i: int| 0u8),
                end,
                set,
            )
            &&& l.leaves_alone(d.img, a, l.dir_and_parent(d.img, ext))
        }),
{
    let ext = l.refreshed(d.img, held);
    lemma_append_listed(l, d, ext, set, e);
    law_append_to_directory(l, d, ext, set);
    super::frame_laws::law_append_leaves_others(l, d, ext, set);
    let a = l.set_appended(d, ext, set).disk.img;
    let now = l.refreshed(a, ext);
    let buf = stream_at(l, d.img, ext);
    lemma_listed_rewalked(l.boot, walk_of(ext), walk_of(now), buf, 0);
    let old = listed(l.boot, walk_of(now), buf);
    let new = placed(e, walk_of(now), end_slot(buf, 0));
    assert(old + shown(l.boot, walk_of(now), e, end_slot(buf, 0)) =~= old.push(new));
}

/// An insertion by an extent that is up to date comes to one thing, whether or
/// not the storage lets the extent be read again on the way.
pub proof fn law_fresh_insert_is_exact(
    l: ExfatLayout,
    p: NamePolicy,
    d: Disk,
    parent: DirExtent,
    entry: NewEntry,
    now: PrimitiveDateTime,
    run: Run<()>,
    reliable: bool,
)
    requires
        l.volume_sound(d.img),
        l.dir_sound(d.img, parent),
        l.refreshed(d.img, parent) == parent,
        l.inserts(p, d, parent, entry, now, run, reliable),
    ensures
        run == l.inserted(p, d, parent, entry, now),
{
    let a = l.new_allocation(d, entry);
    if a.out is Ok {
        let taken = law_new_allocation(l, d, entry);
        lemma_allocation_apart(l, d.img, a.disk.img, taken, parent);
    }
}

/// Inserting an entry into a directory of a sound volume: the entry is found
/// under its name, with the name, attributes, allocation and stamps it was
/// given; the volume and the directory stay sound.
///
/// The stamps are found as the stored form holds them, and the entry must fit
/// the volume, as one always does that owned no clusters before.
pub proof fn law_insert_then_found(
    l: ExfatLayout,
    p: NamePolicy,
    d: Disk,
    parent: DirExtent,
    entry: NewEntry,
    now: PrimitiveDateTime,
)
    requires
        l.volume_sound(d.img),
        l.dir_sound(d.img, l.refreshed(d.img, parent)),
        entry.times.wf(),
        now.wf(),
        l.inserted(p, d, parent, entry, now).out is Ok,
        entry.first_cluster >= 2 ==> ({
            let (first, valid, length, contiguous) = l.new_allocation(d, entry).out->Ok_0;
            l.boot.geometry_ok(first as int, length as int, valid as int, contiguous)
        }),
    ensures
        ({
            let a = l.inserted(p, d, parent, entry, now).disk.img;
            let ext = l.refreshed(a, parent);
            let allocation = l.new_allocation(d, entry).out->Ok_0;
            let n = entry_len(entry);
            let pos = end_slot(stream_at(l, d.img, l.refreshed(d.img, parent)), 0);
            &&& l.volume_sound(a)
            &&& l.dir_sound(a, ext)
            &&& l.child(p, d.img, parent, entry.name@) == Err::<EntryFields, FsError<()>>(
                FsError::NotFound,
            )
            &&& l.child(p, a, parent, entry.name@) == Ok::<EntryFields, FsError<()>>(
                placed(new_fields(entry, now, allocation, n), walk_of(ext), pos),
            )
        }),
{
    let step = lemma_insert_steps(l, p, d, parent, entry, now);
    let a = l.inserted(p, d, parent, entry, now).disk.img;
    let ext = l.refreshed(d.img, parent);
    let after = l.refreshed(a, parent);
    let e = step.1;
    lemma_append_listed(l, step.0, ext, step.2, e);
    if entry.first_cluster < 2 {
        law_new_allocation_fits(l, d, entry);
    }
    let buf = stream_at(l, d.img, ext);
    let end = end_slot(buf, 0);
    let entries = l.listing(a, after)->Ok_0;
    let old = listed(l.boot, walk_of(after), buf);
    let new = seq![placed(e, walk_of(after), end)];
    assert(shown(l.boot, walk_of(after), e, end) =~= new);
    let rest = entries.subrange(old.len() as int + 1, entries.len() as int);
    assert(entries =~= old + (new + rest)) by {
        assert forall|i: int| 0 <= i < entries.len() implies entries[i] == (old + (new + rest))[i] by {
            if i < old.len() {
                assert(entries.subrange(0, old.len() as int)[i] == old[i]);
            } else if i == old.len() {
                assert(entries.subrange(old.len() as int, (old.len() + new.len()) as int)[0]
                    == new[0]);
            }
        }
    }
    lemma_listed_rewalked(l.boot, walk_of(ext), walk_of(after), buf, 0);
    lemma_first_named_rewalked(
        p,
        listed(l.boot, walk_of(ext), buf),
        walk_of(after),
        entry.name@,
    );
    lemma_first_named_joined(p, old, new + rest, entry.name@);
    law_same_name_equivalence(p, entry.name@, entry.name@, entry.name@);
    assert((new + rest).first() == new[0]);
}

/// Length of the entry set of a new entry.
pub open spec fn entry_len(entry: NewEntry) -> int {
    32 * (2 + super::compose::name_slots(utf16_of(entry.name@).len() as int))
}

/// The steps of a successful insertion: the disk the set is appended on, the
/// entry it decodes to, and the set.
pub proof fn lemma_insert_steps(
    l: ExfatLayout,
    p: NamePolicy,
    d: Disk,
    parent: DirExtent,
    entry: NewEntry,
    now: PrimitiveDateTime,
) -> (r: (Disk, EntryFields, Seq<u8>))
    requires
        l.volume_sound(d.img),
        l.dir_sound(d.img, l.refreshed(d.img, parent)),
        entry.times.wf(),
        now.wf(),
        l.inserted(p, d, parent, entry, now).out is Ok,
    ensures
        ({
            let ext = l.refreshed(d.img, parent);
            let a = l.new_allocation(d, entry);
            &&& a.out is Ok
            &&& r.0 == a.disk
            &&& r.1 == new_fields(entry, now, a.out->Ok_0, entry_len(entry))
            &&& r.2.len() == entry_len(entry)
            &&& decoded_set(r.2) == Some(r.1)
            &&& l.inserted(p, d, parent, entry, now) == l.set_appended(r.0, ext, r.2)
            &&& l.volume_sound(r.0.img)
            &&& l.dir_sound(r.0.img, ext)
            &&& l.refreshed(r.0.img, ext) == ext
            &&& stream_at(l, r.0.img, ext) == stream_at(l, d.img, ext)
            &&& l.listing(d.img, ext) == Ok::<Seq<EntryFields>, FsError<()>>(
                listed(l.boot, walk_of(ext), stream_at(l, d.img, ext)),
            )
            &&& first_named(
                p,
                listed(l.boot, walk_of(ext), stream_at(l, d.img, ext)),
                entry.name@,
            ) is None
            &&& l.refreshed(l.inserted(p, d, parent, entry, now).disk.img, parent) == l.refreshed(
                l.inserted(p, d, parent, entry, now).disk.img,
                ext,
            )
        }),
{
    let ext = l.refreshed(d.img, parent);
    let a = l.new_allocation(d, entry);
    let (first, valid, length, contiguous) = a.out->Ok_0;
    let taken = law_new_allocation(l, d, entry);
    lemma_allocation_apart(l, d.img, a.disk.img, taken, ext);
    let f = new_set(p, entry, now, first, valid, length, contiguous);
    law_composed_exists(f);
    law_composed_set_decodes(f, entry.name@, set_bytes(f));
    law_append_to_directory(l, a.disk, ext, set_bytes(f));
    (a.disk, new_fields(entry, now, a.out->Ok_0, entry_len(entry)), set_bytes(f))
}

/// Inserting an entry changes no other: under every other name a lookup finds
/// what it found before, its place given for the walk that holds now. This
/// holds where the directory's end is clean: bytes left behind the end of the
/// directory could show up as entries once the end moves.
pub proof fn law_insert_keeps_others(
    l: ExfatLayout,
    p: NamePolicy,
    d: Disk,
    parent: DirExtent,
    entry: NewEntry,
    now: PrimitiveDateTime,
    other: Seq<char>,
)
    requires
        l.volume_sound(d.img),
        l.dir_sound(d.img, l.refreshed(d.img, parent)),
        entry.times.wf(),
        now.wf(),
        l.inserted(p, d, parent, entry, now).out is Ok,
        clean_end(stream_at(l, d.img, l.refreshed(d.img, parent)), entry_len(entry)),
        !p.same_name(entry.name@, other),
    ensures
        ({
            let a = l.inserted(p, d, parent, entry, now).disk.img;
            l.child(p, a, parent, other) == (match l.child(p, d.img, parent, other) {
                Ok(e) => Ok::<EntryFields, FsError<()>>(
                    rewalked(e, walk_of(l.refreshed(a, parent))),
                ),
                Err(x) => Err(x),
            })
        }),
{
    let step = lemma_insert_steps(l, p, d, parent, entry, now);
    let a = l.inserted(p, d, parent, entry, now).disk.img;
    let ext = l.refreshed(d.img, parent);
    let after = l.refreshed(a, parent);
    let e = step.1;
    lemma_append_listed(l, step.0, ext, step.2, e);
    let buf = stream_at(l, d.img, ext);
    let old = listed(l.boot, walk_of(after), buf);
    let new = shown(l.boot, walk_of(after), e, end_slot(buf, 0));
    lemma_listed_rewalked(l.boot, walk_of(ext), walk_of(after), buf, 0);
    lemma_first_named_rewalked(p, listed(l.boot, walk_of(ext), buf), walk_of(after), other);
    lemma_first_named_joined(p, old, new, other);
    assert(first_named(p, new, other) is None) by {
        if new.len() > 0 {
            assert(new.first().name == entry.name@);
            assert(new.drop_first().len() == 0);
            assert(first_named(p, new.drop_first(), other) is None);
        }
    }
}

/// Slots that do not end the directory do not move its end.
proof fn lemma_end_slot_skip(buf: Seq<u8>, q: int, to: int)
    requires
        0 <= q <= to <= buf.len(),
        q % 32 == 0,
        to % 32 == 0,
        no_end(buf, q, to),
    ensures
        end_slot(buf, q) == end_slot(buf, to),
    decreases to - q,
{
    if q < to {
        assert(buf[q] != 0);
        lemma_end_slot_skip(buf, q + 32, to);
    }
}

/// Decoding finds sets before the end of the directory, at whole slots.
pub proof fn lemma_next_entry_place(buf: Seq<u8>, q: int)
    requires
        0 <= q <= buf.len(),
        q % 32 == 0,
        buf.len() % 32 == 0,
    ensures
        next_entry(buf, q) matches Some((e, r)) ==> {
            &&& r % 32 == 0
            &&& r <= buf.len()
            &&& q <= r - e.entry_set_len
            &&& (r - e.entry_set_len) % 32 == 0
            &&& r - e.entry_set_len < end_slot(buf, q)
            &&& end_slot(buf, q) == end_slot(buf, r)
            &&& decoded_at(buf, r - e.entry_set_len) == Some(e)
        },
    decreases buf.len() - q,
{
    if q + 32 <= buf.len() && buf[q] != 0 {
        match decoded_at(buf, q) {
            Some(e) => {
                let n = set_len(buf.subrange(q, q + 32));
                let set = buf.subrange(q, q + n);
                lemma_decoded_set_shape(set);
                assert(set[1] == buf.subrange(q, q + 32)[1]);
                assert(no_end(buf, q, q + n)) by {
                    assert forall|k: int|
                        q <= k < q + n && k % 32 == 0 && k + 32 <= buf.len() implies #[trigger] buf[k]
                        != 0 by {
                        let i = (k - q) / 32;
                        assert(k - q == 32 * i);
                        assert(set[32 * i] == buf[k]);
                        assert(0 <= i < 1 + set[1]);
                    }
                }
                lemma_end_slot_skip(buf, q, q + n);
                super::dir_edit::lemma_end_slot_bounds(buf, q + n);
            },
            None => {
                lemma_next_entry_place(buf, q + 32);
            },
        }
    }
}

/// What is located is a set that decodes to an entry of that name.
proof fn lemma_located_place(p: NamePolicy, buf: Seq<u8>, q: int, name: Seq<char>)
    requires
        0 <= q <= buf.len(),
        q % 32 == 0,
        buf.len() % 32 == 0,
    ensures
        located_from(p, buf, q, name) matches Some((pos, len)) ==> {
            &&& q <= pos < end_slot(buf, q)
            &&& pos % 32 == 0
            &&& decoded_at(buf, pos) matches Some(e) && e.entry_set_len == len && p.same_name(
                e.name,
                name,
            )
        },
    decreases buf.len() - q,
{
    lemma_next_entry_place(buf, q);
    lemma_next_entry_bounds(buf, q);
    if let Some((e, r)) = next_entry(buf, q) {
        if !p.same_name(e.name, name) {
            lemma_located_place(p, buf, r, name);
        }
    }
}

/// Unlinking a name takes out of the directory's listing one entry of that
/// name, if the listing shows it, and leaves the entries before and behind
/// it; the volume and the directory stay sound, and nothing but the directory's
/// clusters is touched.
pub proof fn law_unlink_removes_one(
    l: ExfatLayout,
    p: NamePolicy,
    d: Disk,
    ext: DirExtent,
    name: Seq<char>,
) -> (r: (Seq<EntryFields>, EntryFields, int, Seq<EntryFields>))
    requires
        l.volume_sound(d.img),
        l.dir_sound(d.img, ext),
        l.refreshed(d.img, ext) == ext,
        l.set_unlinked(p, d, ext, name).out is Ok,
    ensures
        ({
            let a = l.set_unlinked(p, d, ext, name).disk.img;
            let (before, e, pos, behind) = r;
            &&& p.same_name(e.name, name)
            &&& 0 <= pos
            &&& decoded_at(stream_at(l, d.img, ext), pos) == Some(e)
            &&& l.listing(d.img, ext) == Ok::<Seq<EntryFields>, FsError<()>>(
                before + shown(l.boot, walk_of(ext), e, pos) + behind,
            )
            &&& l.listing(a, ext) == Ok::<Seq<EntryFields>, FsError<()>>(before + behind)
            &&& l.refreshed(a, ext) == ext
            &&& l.volume_sound(a)
            &&& l.dir_sound(a, ext)
            &&& l.touches_only(
                d.img,
                a,
                set![],
                set![],
                members(
                    l.dir_clusters(
                        d.img,
                        ext.first_cluster,
                        ext.no_fat_chain,
                        ext.max_clusters as int,
                    )->Ok_0,
                ),
            )
        }),
{
    let none = Set::<int>::empty();
    let (first, nfc, max) = (ext.first_cluster, ext.no_fat_chain, ext.max_clusters as int);
    let cs = l.dir_clusters(d.img, first, nfc, max)->Ok_0;
    let buf = l.stream_of(d.img, cs);
    lemma_unit_sizes(l.boot);
    let (n, cb) = (cs.len() as int, l.boot.cluster_bytes());
    assert(0 <= n * cb && (n * cb) % 32 == 0) by (nonlinear_arith)
        requires
            0 <= n,
            0 < cb,
            cb % 32 == 0,
    ;
    let (pos, len) = located_from(p, buf, 0, name)->0;
    lemma_located_place(p, buf, 0, name);
    let e = decoded_at(buf, pos)->0;
    let set = buf.subrange(pos, pos + len);
    lemma_located_inside(buf, pos);
    super::dir_edit::lemma_dir_stream_len(l, d.img, first, nfc, ext.max_clusters);
    super::dir_laws::lemma_dir_stream(l, d.img, first, nfc, max, cs);
    super::chains::law_stream_read(l, d.img, cs, pos, len as int);
    super::chains::law_stream_written(l, d, cs, pos, unlinked_set(set));
    let a = l.stream_written(d, cs, pos, unlinked_set(set)).disk.img;
    assert(l.set_unlinked(p, d, ext, name).disk.img == a);
    super::dir_laws::lemma_stream_dir_kept(l, d.img, a, first, nfc, max, cs);
    super::dir_laws::lemma_guard_kept(l, d.img, a, none, none, members(cs));
    if let Some(loc) = ext.parent_entry {
        super::dir_laws::lemma_set_kept(l, d.img, a, none, none, members(cs), loc, cs);
    }
    law_unlink_removes_entry(l.boot, walk_of(ext), buf, pos, e);
    let before = listed(l.boot, walk_of(ext), buf.subrange(0, pos));
    let behind = listed_from(l.boot, walk_of(ext), buf, pos + len);
    (before, e, pos, behind)
}

/// A set that decodes lies within the stream.
proof fn lemma_located_inside(buf: Seq<u8>, pos: int)
    requires
        0 <= pos,
    ensures
        decoded_at(buf, pos) matches Some(e) ==> pos + e.entry_set_len <= buf.len()
            && e.entry_set_len >= 64,
{
    if decoded_at(buf, pos) is Some {
        let n = set_len(buf.subrange(pos, pos + 32));
        lemma_decoded_set_shape(buf.subrange(pos, pos + n));
    }
}

/// Unlinking a name leaves lookups under every other name as they were; and
/// where no second entry set goes by the name, it is not found any more.
pub proof fn law_unlink_then_gone(
    l: ExfatLayout,
    p: NamePolicy,
    d: Disk,
    ext: DirExtent,
    name: Seq<char>,
    other: Seq<char>,
)
    requires
        l.volume_sound(d.img),
        l.dir_sound(d.img, ext),
        l.refreshed(d.img, ext) == ext,
        l.set_unlinked(p, d, ext, name).out is Ok,
    ensures
        ({
            let a = l.set_unlinked(p, d, ext, name).disk.img;
            &&& !p.same_name(name, other) ==> l.child(p, a, ext, other) == l.child(
                p,
                d.img,
                ext,
                other,
            )
            &&& named_once(p, l.listing(d.img, ext)->Ok_0, name) && none_hidden(l, p, d.img, ext, name)
                ==> l.child(p, a, ext, name) == Err::<EntryFields, FsError<()>>(FsError::NotFound)
        }),
{
    let a = l.set_unlinked(p, d, ext, name).disk.img;
    let (before, e, pos, behind) = law_unlink_removes_one(l, p, d, ext, name);
    let one = shown(l.boot, walk_of(ext), e, pos);
    law_same_name_equivalence(p, name, e.name, other);
    law_same_name_equivalence(p, e.name, name, other);
    if !p.same_name(name, other) {
        assert(before + one + behind =~= before + (one + behind));
        lemma_first_named_joined(p, before, one + behind, other);
        lemma_first_named_joined(p, one, behind, other);
        lemma_first_named_joined(p, before, behind, other);
        assert(first_named(p, one, other) is None) by {
            if one.len() > 0 {
                assert(one.first().name == e.name);
                assert(first_named(p, one.drop_first(), other) is None);
            }
        }
    }
    let all = before + one + behind;
    if named_once(p, all, name) && none_hidden(l, p, d.img, ext, name) {
        assert(one.len() == 1);
        if let Some(x) = first_named(p, before + behind, name) {
            lemma_first_named_found(p, before + behind, name);
            let i = choose|i: int|
                0 <= i < (before + behind).len() && p.same_name((before + behind)[i].name, name);
            let j = before.len() as int;
            let k = if i < before.len() {
                i
            } else {
                i + one.len()
            };
            assert(all[k] == (before + behind)[i]);
            assert(all[j] == one[0]);
            assert(k != j);
        }
    }
}

/// Every entry set of the directory that goes by `name` is shown in its
/// listing.
pub open spec fn none_hidden(
    l: ExfatLayout,
    p: NamePolicy,
    img: Seq<u8>,
    ext: DirExtent,
    name: Seq<char>,
) -> bool {
    forall|pos: int|
        0 <= pos && (decoded_at(stream_at(l, img, ext), pos) matches Some(e) && p.same_name(
            e.name,
            name,
        )) ==> fits_volume(l.boot, (#[trigger] decoded_at(stream_at(l, img, ext), pos))->0)
}

/// Only one entry of the list goes by `name`, and it is shown.
pub open spec fn named_once(p: NamePolicy, entries: Seq<EntryFields>, name: Seq<char>) -> bool {
    exists|i: int|
        0 <= i < entries.len() && p.same_name((#[trigger] entries[i]).name, name) && forall|j: int|
            0 <= j < entries.len() && j != i ==> !p.same_name((#[trigger] entries[j]).name, name)
}

/// What is found under a name goes by it.
proof fn lemma_first_named_found(p: NamePolicy, entries: Seq<EntryFields>, name: Seq<char>)
    ensures
        first_named(p, entries, name) is Some ==> exists|i: int|
            0 <= i < entries.len() && p.same_name((#[trigger] entries[i]).name, name),
    decreases entries.len(),
{
    if entries.len() > 0 {
        assert(entries[0] == entries.first());
        lemma_first_named_found(p, entries.drop_first(), name);
        if first_named(p, entries.drop_first(), name) is Some {
            let i = choose|i: int|
                0 <= i < entries.drop_first().len() && p.same_name(
                    (#[trigger] entries.drop_first()[i]).name,
                    name,
                );
            assert(entries[i + 1] == entries.drop_first()[i]);
        }
    }
}

} // verus!
