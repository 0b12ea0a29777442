//! What a file or directory is found as once it was renamed or moved, and what
//! it then holds.

use vstd::prelude::*;

use super::chains::{lemma_dir_kept, members};
use super::cluster_map::ExfatClusterMap;
use super::compose::{
    law_composed_exists, law_composed_set_decodes, law_stored_times_exact, set_bytes, stored_date,
    stored_datetime,
};
use super::dir_edit::end_slot;
use super::dir_laws::{law_append_to_directory, lemma_dir_stream};
use super::directory::renamed_set;
use super::direntry::{decoded_at, decoded_set, next_entry, set_len, DirExtent, EntryFields};
use super::effects::lemma_touches_more;
use super::entry_laws::{
    clean_end, law_unlink_removes_one, law_unlink_then_gone, lemma_append_listed,
    lemma_first_named_joined, lemma_first_named_rewalked, lemma_listed_rewalked, rewalked,
    stream_at, walk_of,
};
use super::file_laws::law_read_gives_content;
use super::frame_laws::{law_append_leaves_others, lemma_touched_leaves};
use super::isolation_laws::lemma_file_left;
use super::layout::{lemma_unit_sizes, Disk, ExfatLayout};
use super::listing_laws::{lemma_listed_step, shown};
use super::open::{opened_stream, ExfatStream};
use super::readdir::{fits_volume, lemma_next_entry_bounds, listed, listed_from, placed, DirWalk};
use super::removal_laws::lemma_clusters_taken;
use super::resolve::first_named;
use crate::attrs::unpacked_attributes;
use crate::bytes::le32;
use crate::codec::exfat::boot::ExfatBootRecord;
use crate::codec::time::law_decoded_is_representable;
use crate::entry_times::EntryTimes;
use crate::error::FsError;
use crate::file::{opened_state, FileState};
use crate::name::{law_same_name_equivalence, NamePolicy};
use crate::text::utf16_of;

verus! {

/// `g` is the entry `e` under the name `name`: attributes, first cluster, both
/// lengths, contiguity and all three stamps are the same.
pub open spec fn same_but_for_name(g: EntryFields, e: EntryFields, name: Seq<char>) -> bool {
    &&& g.name == name
    &&& g.attributes == e.attributes
    &&& g.first_cluster == e.first_cluster
    &&& g.valid_data_length == e.valid_data_length
    &&& g.data_length == e.data_length
    &&& g.no_fat_chain == e.no_fat_chain
    &&& g.created == e.created
    &&& g.modified == e.modified
    &&& g.accessed == e.accessed
}

impl ExfatLayout {
    /// What the entry `e` holds, whose data lie in the clusters `cs`: the bytes of
    /// its initialized prefix, then zeros up to its length.
    pub open spec fn entry_content(self, img: Seq<u8>, e: EntryFields, cs: Seq<u32>) -> Seq<u8> {
        Seq::new(
            e.data_length as nat,
            |i: int|
                if i < e.valid_data_length {
                    self.stream_of(img, cs)[i]
                } else {
                    0
                },
        )
    }

    /// The data of `e` lie in the clusters `cs`, which are in use and as many as
    /// its length takes.
    pub open spec fn entry_data_in(self, img: Seq<u8>, e: EntryFields, cs: Seq<u32>) -> bool {
        let cb = self.boot.cluster_bytes();
        &&& self.heap_on(img)
        &&& e.valid_data_length <= e.data_length
        &&& (cs.len() - 1) * cb < e.data_length <= cs.len() * cb
        &&& cs.len() == 0 ==> e.first_cluster < 2 && !e.no_fat_chain
        &&& cs.len() > 0 ==> cs[0] == e.first_cluster && self.holds_stream(img, cs, e.no_fat_chain)
    }
}

/// The state and the map of an entry opened for reading.
spec fn opened_as(l: ExfatLayout, e: EntryFields) -> (FileState, ExfatClusterMap) {
    (
        FileState {
            first_cluster: e.first_cluster,
            len: e.data_length,
            valid_len: e.valid_data_length,
            pos: 0,
            times: EntryTimes { created: e.created, modified: e.modified, accessed: e.accessed },
            attributes: unpacked_attributes(e.attributes),
            writable: false,
            update_times: false,
            fat_size_cap: false,
            dirty: false,
        },
        ExfatClusterMap {
            first: e.first_cluster,
            no_fat_chain: e.no_fat_chain,
            allocated_len: super::open::allocated_bytes(l, e) as u64,
            cluster_size: l.boot.cluster_bytes() as u32,
        },
    )
}

/// Opening an entry gives a sound file over its clusters.
proof fn lemma_opened_sound(
    l: ExfatLayout,
    img: Seq<u8>,
    e: EntryFields,
    cs: Seq<u32>,
    s: FileState,
    m: ExfatClusterMap,
)
    requires
        l.wf(),
        l.entry_data_in(img, e, cs),
        s.first_cluster == e.first_cluster,
        s.len == e.data_length,
        s.valid_len == e.valid_data_length,
        m == opened_as(l, e).1,
    ensures
        l.file_sound(img, s, m, cs),
        l.file_content(img, s, cs) == l.entry_content(img, e, cs),
{
    lemma_unit_sizes(l.boot);
    let (n, cb) = (cs.len() as int, l.boot.cluster_bytes());
    if n == 0 {
        assert(0 * cb == 0);
    } else {
        assert(l.data_cluster(cs[0] as int));
        super::growth::lemma_distinct_fit(l, cs);
        assert(e.data_length > 0) by (nonlinear_arith)
            requires
                (n - 1) * cb < e.data_length,
                n >= 1,
                cb > 0,
        ;
        lemma_clusters_taken(n, e.data_length as int, cb);
        assert(0 <= n * cb <= u64::MAX) by (nonlinear_arith)
            requires
                0 <= n <= u32::MAX,
                0 < cb <= u32::MAX,
        ;
    }
    assert(l.file_content(img, s, cs) =~= l.entry_content(img, e, cs));
}

/// A file opened from an entry starts at its first byte, and what it reads is
/// what the entry holds.
pub proof fn law_opened_file_reads_entry(
    l: ExfatLayout,
    img: Seq<u8>,
    e: EntryFields,
    cs: Seq<u32>,
    s: ExfatStream,
    loc: Option<super::direntry::SetLoc>,
    key: Seq<u16>,
    writable: bool,
    owns_lock: bool,
    update_times: bool,
    n: int,
)
    requires
        l.wf(),
        l.entry_data_in(img, e, cs),
        opened_stream(l, s, e, loc, key, writable, owns_lock, update_times),
        0 <= n,
    ensures
        ({
            let t = opened_state(s.init);
            let k = if n <= e.data_length {
                n
            } else {
                e.data_length as int
            };
            &&& t.pos == 0
            &&& t.len == e.data_length
            &&& l.file_content(img, t, cs) == l.entry_content(img, e, cs)
            &&& l.file_sound(img, t, s.map, cs)
            &&& e.data_length > 0 ==> l.file_read(img, t, s.map, n) == Ok::<Seq<u8>, FsError<()>>(
                l.entry_content(img, e, cs).subrange(0, k),
            )
        }),
{
    let t = opened_state(s.init);
    lemma_opened_sound(l, img, e, cs, t, s.map);
    if e.data_length > 0 {
        law_read_gives_content(l, img, t, s.map, cs, n);
    }
}

/// What an entry set decodes to has stamps that are stored without loss.
proof fn lemma_decoded_stamps(set: Seq<u8>)
    ensures
        decoded_set(set) matches Some(e) ==> {
            &&& e.times_wf()
            &&& stored_datetime(e.created) == e.created
            &&& stored_datetime(e.modified) == e.modified
            &&& stored_date(e.accessed) == e.accessed
        },
{
    reveal(decoded_set);
    if let Some(e) = decoded_set(set) {
        law_decoded_is_representable(le32(set, 8), set[20] as int);
        law_decoded_is_representable(le32(set, 12), set[21] as int);
        law_decoded_is_representable(le32(set, 16), 0);
        law_stored_times_exact(e.created, e.accessed);
        law_stored_times_exact(e.modified, e.accessed);
    }
}

/// What is decoded next comes from an entry set.
proof fn lemma_next_stamps(buf: Seq<u8>, q: int)
    requires
        0 <= q,
    ensures
        next_entry(buf, q) matches Some((e, r)) ==> {
            &&& e.times_wf()
            &&& stored_datetime(e.created) == e.created
            &&& stored_datetime(e.modified) == e.modified
            &&& stored_date(e.accessed) == e.accessed
        },
    decreases buf.len() - q,
{
    if q + 32 <= buf.len() && buf[q] != 0 {
        match decoded_at(buf, q) {
            Some(e) => {
                lemma_decoded_stamps(buf.subrange(q, q + set_len(buf.subrange(q, q + 32))));
            },
            None => {
                lemma_next_stamps(buf, q + 32);
            },
        }
    }
}

/// A listed entry fits the volume, and its stamps are stored without loss.
pub proof fn lemma_listed_exact(boot: ExfatBootRecord, w: DirWalk, buf: Seq<u8>, q: int, i: int)
    requires
        0 <= q,
        0 <= i < listed_from(boot, w, buf, q).len(),
    ensures
        ({
            let e = listed_from(boot, w, buf, q)[i];
            &&& fits_volume(boot, e)
            &&& e.times_wf()
            &&& stored_datetime(e.created) == e.created
            &&& stored_datetime(e.modified) == e.modified
            &&& stored_date(e.accessed) == e.accessed
        }),
    decreases buf.len() - q,
{
    lemma_listed_step(boot, w, buf, q);
    lemma_next_entry_bounds(buf, q);
    lemma_next_stamps(buf, q);
    if let Some((e, r)) = next_entry(buf, q) {
        let one = shown(boot, w, e, r - e.entry_set_len);
        if i >= one.len() {
            lemma_listed_exact(boot, w, buf, r, i - one.len());
        }
    }
}

/// The first of a name is one of the list.
pub proof fn lemma_first_named_in(p: NamePolicy, entries: Seq<EntryFields>, name: Seq<char>) -> (i: int)
    requires
        first_named(p, entries, name) is Some,
    ensures
        0 <= i < entries.len(),
        entries[i] == first_named(p, entries, name)->0,
        p.same_name(entries[i].name, name),
        forall|j: int| 0 <= j < i ==> !p.same_name(#[trigger] entries[j].name, name),
    decreases entries.len(),
{
    if p.same_name(entries.first().name, name) {
        0
    } else {
        let rest = entries.drop_first();
        let k = lemma_first_named_in(p, rest, name);
        assert forall|j: int| 0 <= j < k + 1 implies !p.same_name(#[trigger] entries[j].name, name) by {
            if j > 0 {
                assert(entries[j] == rest[j - 1]);
            }
        }
        k + 1
    }
}

/// A lookup finds the first entry of the listing that goes by the name, and
/// nothing if and only if none does.
pub proof fn law_lookup_finds_first(
    l: ExfatLayout,
    p: NamePolicy,
    img: Seq<u8>,
    ext: DirExtent,
    name: Seq<char>,
)
    requires
        l.listing(img, ext) is Ok,
    ensures
        ({
            let all = l.listing(img, ext)->Ok_0;
            match l.child_in(p, img, ext, name) {
                Ok(e) => exists|i: int|
                    {
                        &&& 0 <= i < all.len()
                        &&& #[trigger] all[i] == e
                        &&& p.same_name(e.name, name)
                        &&& forall|j: int| 0 <= j < i ==> !p.same_name(#[trigger] all[j].name, name)
                    },
                Err(x) => {
                    &&& x == FsError::<()>::NotFound
                    &&& forall|j: int|
                        0 <= j < all.len() ==> !p.same_name(#[trigger] all[j].name, name)
                },
            }
        }),
{
    let all = l.listing(img, ext)->Ok_0;
    match first_named(p, all, name) {
        Some(e) => {
            let i = lemma_first_named_in(p, all, name);
            assert(all[i] == e);
        },
        None => {
            lemma_none_named(p, all, name);
        },
    }
}

pub proof fn lemma_none_named(p: NamePolicy, entries: Seq<EntryFields>, name: Seq<char>)
    requires
        first_named(p, entries, name) is None,
    ensures
        forall|j: int| 0 <= j < entries.len() ==> !p.same_name(#[trigger] entries[j].name, name),
    decreases entries.len(),
{
    if entries.len() > 0 {
        let rest = entries.drop_first();
        lemma_none_named(p, rest, name);
        assert forall|j: int| 0 <= j < entries.len() implies !p.same_name(
            #[trigger] entries[j].name,
            name,
        ) by {
            if j > 0 {
                assert(entries[j] == rest[j - 1]);
            }
        }
    }
}

/// Linking an entry, as some directory `from` lists it, into the directory `to`
/// under a name that is not taken there: a lookup of that name then finds it
/// with the attributes, the first cluster, both lengths, the contiguity and the
/// stamps that it had; the volume and the directory stay sound; and where nothing
/// is left behind the end of the directory, lookups of other names find what they
/// found before.
pub proof fn law_link_then_found(
    l: ExfatLayout,
    p: NamePolicy,
    d: Disk,
    from: DirExtent,
    old_name: Seq<char>,
    to: DirExtent,
    e: EntryFields,
    name: Seq<char>,
    other: Seq<char>,
) -> (g: EntryFields)
    requires
        l.volume_sound(d.img),
        l.dir_sound(d.img, to),
        l.refreshed(d.img, to) == to,
        l.child_in(p, d.img, from, old_name) == Ok::<EntryFields, FsError<()>>(e),
        l.child_in(p, d.img, to, name) == Err::<EntryFields, FsError<()>>(FsError::NotFound),
        1 <= utf16_of(name).len() <= 255,
        l.entry_linked(p, d, to, e, name).out is Ok,
    ensures
        ({
            let a = l.entry_linked(p, d, to, e, name).disk.img;
            let now = l.refreshed(a, to);
            &&& same_but_for_name(g, e, name)
            &&& l.child_in(p, a, now, name) == Ok::<EntryFields, FsError<()>>(g)
            &&& fits_volume(l.boot, g)
            &&& l.volume_sound(a)
            &&& l.dir_sound(a, now)
            &&& l.refreshed(a, now) == now
            &&& clean_end(
                stream_at(l, d.img, to),
                set_bytes(renamed_set(p, e, name)).len() as int,
            ) && !p.same_name(name, other) ==> l.child_in(p, a, now, other) == (match l.child_in(
                p,
                d.img,
                to,
                other,
            ) {
                Ok(x) => Ok::<EntryFields, FsError<()>>(rewalked(x, walk_of(now))),
                Err(x) => Err(x),
            })
        }),
{
    let src = l.listing(d.img, from)->Ok_0;
    let m = lemma_first_named_in(p, src, old_name);
    let src_buf = stream_at(l, d.img, from);
    lemma_listed_exact(l.boot, walk_of(from), src_buf, 0, m);
    let f = renamed_set(p, e, name);
    let set = set_bytes(f);
    law_composed_exists(f);
    law_composed_set_decodes(f, name, set);
    let bare = decoded_set(set)->0;
    lemma_append_listed(l, d, to, set, bare);
    law_append_to_directory(l, d, to, set);
    let a = l.entry_linked(p, d, to, e, name).disk.img;
    let now = l.refreshed(a, to);
    let buf = stream_at(l, d.img, to);
    let end = end_slot(buf, 0);
    let g = placed(bare, walk_of(now), end);
    assert(fits_volume(l.boot, bare));
    let old = listed(l.boot, walk_of(now), buf);
    let new = seq![g];
    assert(shown(l.boot, walk_of(now), bare, end) =~= new);
    let entries = l.listing(a, now)->Ok_0;
    let rest = entries.subrange(old.len() as int + 1, entries.len() as int);
    assert(entries =~= old + (new + rest)) by {
        assert forall|i: int| 0 <= i < entries.len() implies entries[i] == (old + (new + rest))[i] by {
            if i < old.len() {
                assert(entries.subrange(0, old.len() as int)[i] == old[i]);
            } else if i == old.len() {
                assert(entries.subrange(old.len() as int, (old.len() + new.len()) as int)[0]
                    == new[0]);
            }
        }
    }
    lemma_listed_rewalked(l.boot, walk_of(to), walk_of(now), buf, 0);
    lemma_first_named_rewalked(p, listed(l.boot, walk_of(to), buf), walk_of(now), name);
    lemma_first_named_joined(p, old, new + rest, name);
    law_same_name_equivalence(p, name, name, name);
    assert((new + rest).first() == new[0]);
    if clean_end(buf, set.len() as int) && !p.same_name(name, other) {
        lemma_first_named_rewalked(p, listed(l.boot, walk_of(to), buf), walk_of(now), other);
        lemma_first_named_joined(p, old, new, other);
        assert(entries == old + new);
        assert(first_named(p, new, other) is None) by {
            assert(new.first().name == name);
            assert(new.drop_first().len() == 0);
            assert(first_named(p, new.drop_first(), other) is None);
        }
    }
    g
}

/// Renaming or moving an entry, which is linking it under the new name and then
/// removing it under the old one: a lookup of the new name finds it with the
/// attributes, the first cluster, both lengths, the contiguity and the stamps
/// that it had, and what it holds is byte for byte what it held before.
///
/// The directory left is either the one entered, in which case the names must
/// differ by more than case, or one that shares no cluster with it; and the
/// entry's own clusters belong to neither of them.
pub proof fn law_rename_keeps_entry(
    l: ExfatLayout,
    p: NamePolicy,
    d: Disk,
    from: DirExtent,
    old_name: Seq<char>,
    to: DirExtent,
    e: EntryFields,
    name: Seq<char>,
    left: DirExtent,
    cs: Seq<u32>,
) -> (g: EntryFields)
    requires
        l.volume_sound(d.img),
        l.dir_sound(d.img, to),
        l.refreshed(d.img, to) == to,
        l.child_in(p, d.img, from, old_name) == Ok::<EntryFields, FsError<()>>(e),
        l.child_in(p, d.img, to, name) == Err::<EntryFields, FsError<()>>(FsError::NotFound),
        1 <= utf16_of(name).len() <= 255,
        l.entry_linked(p, d, to, e, name).out is Ok,
        ({
            let x = l.entry_linked(p, d, to, e, name).disk;
            let now = l.refreshed(x.img, to);
            &&& left_behind(l, p, x.img, left, now, e.name, name)
            &&& l.set_unlinked(p, x, left, e.name).out is Ok
            &&& members(walked(l, x.img, left)).disjoint(members(cs))
        }),
        l.dir_and_parent(d.img, to).disjoint(members(cs)),
        l.entry_data_in(d.img, e, cs),
    ensures
        ({
            let x = l.entry_linked(p, d, to, e, name).disk;
            let a = l.set_unlinked(p, x, left, e.name).disk.img;
            &&& same_but_for_name(g, e, name)
            &&& l.child_in(p, a, l.refreshed(x.img, to), name) == Ok::<EntryFields, FsError<()>>(g)
            &&& l.entry_data_in(a, g, cs)
            &&& l.entry_content(a, g, cs) == l.entry_content(d.img, e, cs)
        }),
{
    let x = l.entry_linked(p, d, to, e, name).disk;
    let now = l.refreshed(x.img, to);
    let g = law_link_then_found(l, p, d, from, old_name, to, e, name, name);
    let a = l.set_unlinked(p, x, left, e.name).disk.img;
    let own = members(walked(l, x.img, left));
    let none = Set::<int>::empty();
    law_append_leaves_others(l, d, to, set_bytes(renamed_set(p, e, name)));
    let cut = law_unlink_removes_one(l, p, x, left, e.name);
    lemma_touches_more(l, x.img, a, none, none, own, own, own, own);
    lemma_touched_leaves(l, x.img, a, own, own);
    let (s, m) = opened_as(l, e);
    lemma_opened_sound(l, d.img, e, cs, s, m);
    lemma_file_left(l, d.img, x.img, l.dir_and_parent(d.img, to), s, m, cs);
    lemma_file_left(l, x.img, a, own, s, m, cs);
    assert(opened_as(l, g).1 == m);
    assert(l.entry_data_in(a, g, cs));
    lemma_opened_sound(l, a, g, cs, s, m);
    if left == now {
        law_same_name_equivalence(p, name, e.name, name);
        law_unlink_then_gone(l, p, x, left, e.name, name);
    } else {
        let there = walked(l, x.img, now);
        lemma_dir_stream(
            l,
            x.img,
            now.first_cluster,
            now.no_fat_chain,
            now.max_clusters as int,
            there,
        );
        lemma_dir_kept(
            l,
            x.img,
            a,
            now.first_cluster,
            now.no_fat_chain,
            now.max_clusters as int,
            none,
            none,
            own,
        );
    }
    g
}

/// The clusters of the directory `ext`.
pub open spec fn walked(l: ExfatLayout, img: Seq<u8>, ext: DirExtent) -> Seq<u32> {
    l.dir_clusters(img, ext.first_cluster, ext.no_fat_chain, ext.max_clusters as int)->Ok_0
}

/// `left` is a sound directory to remove `old_name` from, once `name` was linked
/// into the directory `entered`: that directory itself, if the names differ, or
/// one that shares no cluster with it.
pub open spec fn left_behind(
    l: ExfatLayout,
    p: NamePolicy,
    img: Seq<u8>,
    left: DirExtent,
    entered: DirExtent,
    old_name: Seq<char>,
    name: Seq<char>,
) -> bool {
    &&& l.dir_sound(img, left)
    &&& l.refreshed(img, left) == left
    &&& if left == entered {
        !p.same_name(old_name, name)
    } else {
        members(walked(l, img, left)).disjoint(members(walked(l, img, entered)))
    }
}

} // verus!
