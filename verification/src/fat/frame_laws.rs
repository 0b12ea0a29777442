//! What inserting an entry leaves alone.

use vstd::prelude::*;

use super::dir_laws::{law_slots_written, lemma_slot_cluster, lemma_slot_units, place_bytes};
use super::dir_slots::FatDir;
use super::effects::{lemma_touches_more, lemma_touches_then, lemma_untouched, members};
use super::entry::{entry_slots, MinFields};
use super::entry_laws::{
    inserted_fields, lemma_dir_cluster_effect, lemma_entry_count, lemma_inserted_storable,
    lemma_new_cluster_apart, lemma_room_found, lemma_slots_sized, name_storable,
};
use super::file_laws::lemma_stream_place;
use super::fs::fat_mounted;
use super::layout::{FatDisk, FatLayout};
use super::mount_laws::lemma_reserved_same;
use super::regions::lemma_cluster_places;
use super::slot_laws::storable;
use super::stream_laws::lemma_file_chain;
use crate::calendar::epoch_datetime;
use crate::codec::fat::fat_entry::FatEntry;
use crate::error::FsError;
use crate::file::FileState;
use crate::vfs::NewEntry;

verus! {

impl FatLayout {
    /// Every cluster in use that is not one of `own` keeps its bytes and its
    /// FAT cell; and before the FAT nothing changes.
    #[verifier::opaque]
    pub open spec fn leaves_alone(self, a: Seq<u8>, b: Seq<u8>, own: Set<int>) -> bool {
        &&& a.len() == b.len()
        &&& forall|c: int| #[trigger]
            self.in_use(a, c) && !own.contains(c) ==> {
                &&& self.fat_read(b, c) == self.fat_read(a, c)
                &&& self.same_bytes(a, b, c)
            }
        &&& forall|i: int|
            0 <= i < self.fat_base(0) && i < a.len() ==> #[trigger] b[i] == a[i]
    }

    /// The byte at `i` belongs to `cluster`.
    pub open spec fn byte_of(self, cluster: int, i: int) -> bool {
        self.cluster_pos(cluster) <= i < self.cluster_pos(cluster) + self.props.cluster_size
    }

    /// `cluster` holds the same bytes in both images.
    pub open spec fn same_bytes(self, a: Seq<u8>, b: Seq<u8>, cluster: int) -> bool {
        forall|i: int| #[trigger] self.byte_of(cluster, i) && i < a.len() ==> b[i] == a[i]
    }
}

/// What holds of one cluster, or of one byte before the FAT, that was left
/// alone.
pub proof fn lemma_left_alone(l: FatLayout, a: Seq<u8>, b: Seq<u8>, own: Set<int>, k: int)
    requires
        l.leaves_alone(a, b, own),
    ensures
        a.len() == b.len(),
        l.in_use(a, k) && !own.contains(k) ==> l.in_use(b, k) && l.fat_read(b, k) == l.fat_read(
            a,
            k,
        ) && l.same_bytes(a, b, k),
        0 <= k < l.fat_base(0) && k < a.len() ==> b[k] == a[k],
{
    reveal(FatLayout::leaves_alone);
}

/// One change after another.
pub proof fn lemma_leaves_then(l: FatLayout, a: Seq<u8>, b: Seq<u8>, c: Seq<u8>, own: Set<int>)
    requires
        l.leaves_alone(a, b, own),
        l.leaves_alone(b, c, own),
    ensures
        l.leaves_alone(a, c, own),
{
    reveal(FatLayout::leaves_alone);
    assert forall|k: int| #[trigger] l.in_use(a, k) && !own.contains(k) implies {
        &&& l.fat_read(c, k) == l.fat_read(a, k)
        &&& l.same_bytes(a, c, k)
    } by {
        assert(l.in_use(b, k));
        assert(l.same_bytes(a, b, k) && l.same_bytes(b, c, k));
    }
    assert forall|i: int| 0 <= i < l.fat_base(0) && i < a.len() implies #[trigger] c[i] == a[i] by {
        assert(b[i] == a[i]);
    }
}

/// What touches only `own` clusters and free ones leaves the others alone.
pub proof fn lemma_touched_leaves(
    l: FatLayout,
    a: Seq<u8>,
    b: Seq<u8>,
    cells: Set<int>,
    bytes: Set<int>,
    own: Set<int>,
)
    requires
        l.sound(),
        l.touches_only(a, b, cells, bytes),
        forall|c: int| #[trigger] cells.contains(c) ==> own.contains(c) || !l.in_use(a, c),
        forall|c: int, i: int|
            bytes.contains(i) && l.is_cluster(c) && #[trigger] l.byte_of(c, i) ==> own.contains(c)
                || !l.in_use(a, c),
    ensures
        l.leaves_alone(a, b, own),
{
    reveal(FatLayout::leaves_alone);
    lemma_untouched(l, a, b, cells, bytes, 0);
    assert forall|c: int| #[trigger] l.in_use(a, c) && !own.contains(c) implies {
        &&& l.fat_read(b, c) == l.fat_read(a, c)
        &&& l.same_bytes(a, b, c)
    } by {
        assert(!cells.contains(c));
        lemma_untouched(l, a, b, cells, bytes, c);
        lemma_cluster_places(l, c, c);
        assert forall|i: int| #[trigger] l.byte_of(c, i) && i < a.len() implies b[i] == a[i] by {
            lemma_untouched(l, a, b, cells, bytes, i);
        }
    }
    assert forall|i: int| 0 <= i < l.fat_base(0) && i < a.len() implies #[trigger] b[i] == a[i] by {
        lemma_untouched(l, a, b, cells, bytes, i);
    }
}

/// A byte of the clusters in a list belongs to no other cluster.
proof fn lemma_byte_owner(l: FatLayout, cs: Seq<u32>, c: int, i: int)
    requires
        l.sound(),
        l.is_cluster(c),
        l.byte_of(c, i),
        l.cluster_bytes(cs).contains(i),
        forall|k: int| 0 <= k < cs.len() ==> l.is_cluster((#[trigger] cs[k]) as int),
    ensures
        members(cs).contains(c),
{
    let k = choose|k: int|
        0 <= k < cs.len() && l.cluster_pos((#[trigger] cs[k]) as int) <= i < l.cluster_pos(
            cs[k] as int,
        ) + l.props.cluster_size;
    lemma_cluster_places(l, c, cs[k] as int);
    assert(c == cs[k]);
}

/// A byte of a directory's slots belongs to one of its clusters, or lies in the
/// fixed root, where no cluster is.
pub proof fn lemma_slot_owner(l: FatLayout, img: Seq<u8>, dir: FatDir, cs: Seq<u32>, from: int, n: int, c: int, i: int)
    requires
        l.dir_sound(img, dir, cs),
        0 <= from,
        from + n <= l.place_count(dir, cs),
        l.is_cluster(c),
        l.byte_of(c, i),
        place_bytes(l, dir, cs, from, n).contains(i),
    ensures
        members(cs).contains(c),
{
    reveal(FatLayout::dir_sound);
    lemma_slot_units(l);
    let k = choose|k: int|
        from <= k < from + n && #[trigger] l.place_offset(dir, cs, k) <= i < l.place_offset(
            dir,
            cs,
            k,
        ) + 32;
    lemma_cluster_places(l, c, c);
    match dir {
        FatDir::FixedRoot => {
            assert(32 * k + 32 <= l.root_bytes());
        },
        FatDir::Clusters(_) => {
            lemma_slot_cluster(l, cs, k);
            let q = k / l.slots_in_cluster();
            assert(l.is_cluster(cs[q] as int));
            lemma_cluster_places(l, c, cs[q] as int);
            assert(c == cs[q]);
        },
    }
}

/// Free clusters of a list are not in use.
proof fn lemma_members_free(l: FatLayout, img: Seq<u8>, free: Seq<u32>)
    requires
        l.all_free(img, free),
    ensures
        forall|c: int| #[trigger] members(free).contains(c) ==> !l.in_use(img, c),
{
    assert forall|c: int| #[trigger] members(free).contains(c) implies !l.in_use(img, c) by {
        let i = choose|i: int| 0 <= i < free.len() && free[i] == c as u32;
        assert(l.fat_read(img, free[i] as int) == Ok::<FatEntry, FsError<()>>(FatEntry::Free));
    }
}

/// Storing an entry in a directory touches that directory and clusters that
/// were free. Everything else is left alone.
pub proof fn law_entry_leaves_others(
    l: FatLayout,
    d: FatDisk,
    p: MinFields,
    dir: FatDir,
    cs: Seq<u32>,
)
    requires
        l.dir_tidy(d.img, dir, cs),
        storable(l.fat_type, p),
        l.entry_inserted(d, p, dir).out is Ok,
    ensures
        l.leaves_alone(d.img, l.entry_inserted(d, p, dir).disk.img, members(cs)),
{
    let e = Set::<int>::empty();
    let n = entry_slots(p).len() as int;
    lemma_entry_count(l.fat_type, p);
    let (more, i) = lemma_room_found(l, d, dir, cs, n);
    let all = cs + more;
    let room = l.slots_reserved(d, dir, n);
    let z = room.disk.img;
    lemma_slots_sized(l.fat_type, p);
    super::dir_laws::lemma_places_walked(l, z, dir, all);
    law_slots_written(l, room.disk, dir, all, i, entry_slots(p));
    let a = l.slots_written(room.disk, l.places(dir, all)[i], entry_slots(p)).disk.img;
    let cells = members(cs).union(members(more));
    let slots = place_bytes(l, dir, all, i, n);
    let bytes = l.cluster_bytes(more).union(slots);
    lemma_touches_more(l, d.img, z, cells, l.cluster_bytes(more), cells, bytes);
    lemma_touches_more(l, z, a, e, slots, cells, bytes);
    lemma_touches_then(l, d.img, z, a, cells, bytes);
    lemma_members_free(l, d.img, more);
    assert(l.sound()) by {
        reveal(FatLayout::dir_sound);
    }
    assert forall|k: int| 0 <= k < more.len() implies l.is_cluster((#[trigger] more[k]) as int) by {
        reveal(FatLayout::dir_sound);
        assert(all[cs.len() + k] == more[k]);
    }
    assert forall|c: int, b: int|
        bytes.contains(b) && l.is_cluster(c) && #[trigger] l.byte_of(c, b) implies members(
        cs,
    ).contains(c) || !l.in_use(d.img, c) by {
        if l.cluster_bytes(more).contains(b) {
            lemma_byte_owner(l, more, c, b);
        } else {
            lemma_slot_owner(l, z, dir, all, i, n, c, b);
            let k = choose|k: int| 0 <= k < all.len() && all[k] == c as u32;
            if k < cs.len() {
                assert(cs[k] == c as u32);
            } else {
                assert(more[k - cs.len()] == c as u32);
                assert(members(more).contains(c));
            }
        }
    }
    lemma_touched_leaves(l, d.img, a, cells, bytes, members(cs));
}

/// Making the cluster of a new directory leaves every cluster in use alone.
proof fn lemma_new_cluster_leaves(
    l: FatLayout,
    d: FatDisk,
    dir: FatDir,
    cs: Seq<u32>,
    entry: NewEntry,
    own: Set<int>,
)
    requires
        l.dir_tidy(d.img, dir, cs),
        entry.times.wf(),
        l.new_cluster(d, dir, entry).out is Ok,
    ensures
        l.leaves_alone(d.img, l.new_cluster(d, dir, entry).disk.img, own),
{
    assert(l.sound() && l.volume_end() <= d.img.len()) by {
        reveal(FatLayout::dir_sound);
    }
    if entry.is_dir && entry.first_cluster == 0 {
        let at = match entry.times.modified {
            Some(t) => t,
            None => epoch_datetime(),
        };
        lemma_dir_cluster_effect(l, d, dir, at);
        let c = l.new_cluster(d, dir, entry);
        let one = seq![c.out->Ok_0];
        assert(one[0] == c.out->Ok_0);
        lemma_members_free(l, d.img, one);
        let area = l.cluster_bytes(one);
        assert forall|k: int, i: int|
            area.contains(i) && l.is_cluster(k) && #[trigger] l.byte_of(k, i) implies own.contains(
            k,
        ) || !l.in_use(d.img, k) by {
            lemma_byte_owner(l, one, k, i);
        }
        lemma_touched_leaves(l, d.img, c.disk.img, members(one), area, own);
    } else {
        reveal(FatLayout::leaves_alone);
    }
}

/// Inserting an entry leaves alone whatever is in use outside its directory.
pub proof fn law_insert_leaves_others(
    l: FatLayout,
    d: FatDisk,
    dir: FatDir,
    cs: Seq<u32>,
    entry: NewEntry,
)
    requires
        l.dir_tidy(d.img, dir, cs),
        name_storable(entry.name@),
        entry.times.wf(),
        l.fat_type is FAT16 ==> entry.first_cluster < 0x1_0000,
        l.inserted(d, dir, entry).out is Ok,
    ensures
        l.leaves_alone(d.img, l.inserted(d, dir, entry).disk.img, members(cs)),
{
    let p = inserted_fields(l, d, dir, entry);
    let c = l.new_cluster(d, dir, entry);
    lemma_new_cluster_apart(l, d, dir, cs, entry);
    lemma_inserted_storable(l, d, dir, cs, entry);
    lemma_new_cluster_leaves(l, d, dir, cs, entry, members(cs));
    law_entry_leaves_others(l, c.disk, p, dir, cs);
    lemma_leaves_then(
        l,
        d.img,
        c.disk.img,
        l.inserted(d, dir, entry).disk.img,
        members(cs),
    );
}

/// A file none of whose clusters is `own` stays sound and keeps its contents.
pub proof fn lemma_file_left(
    l: FatLayout,
    x: Seq<u8>,
    a: Seq<u8>,
    own: Set<int>,
    t: FileState,
    allocated: u64,
    other: Seq<u32>,
)
    requires
        l.file_sound(x, t, allocated, other),
        l.leaves_alone(x, a, own),
        own.disjoint(members(other)),
    ensures
        l.file_sound(a, t, allocated, other),
        l.file_content(a, t, other) == l.file_content(x, t, other),
{
    lemma_left_alone(l, x, a, own, 0);
    if other.len() > 0 {
        lemma_file_chain(l, x, other[0], other);
        assert forall|i: int| 0 <= i < other.len() implies l.fat_read(a, (#[trigger] other[i]) as int)
            == l.fat_read(x, other[i] as int) && l.same_bytes(x, a, other[i] as int) by {
            assert(members(other).contains(other[i] as int));
            if i < other.len() - 1 {
                assert(l.fat_read(x, other[i] as int) == Ok::<FatEntry, FsError<()>>(
                    FatEntry::Next(other[i + 1]),
                ));
            } else {
                assert(other[i] == other.last());
            }
            assert(l.in_use(x, other[i] as int));
            lemma_left_alone(l, x, a, own, other[i] as int);
        }
        assert(other.last() == other[other.len() - 1]);
        assert(l.file_chain(a, other[0], other)) by {
            reveal(FatLayout::dir_sound);
            assert forall|i: int| 0 <= i < other.len() - 1 implies #[trigger] l.fat_read(
                a,
                other[i] as int,
            ) == Ok::<FatEntry, FsError<()>>(FatEntry::Next(other[i + 1])) by {
                assert(l.fat_read(x, other[i] as int) == Ok::<FatEntry, FsError<()>>(
                    FatEntry::Next(other[i + 1]),
                ));
            }
        }
        assert forall|i: int| 0 <= i < t.valid_len implies l.stream_of(a, other)[i] == l.stream_of(
            x,
            other,
        )[i] by {
            lemma_stream_place(l, x, other, i);
            let q = i / (l.props.cluster_size as int);
            assert(l.same_bytes(x, a, other[q] as int));
            assert(l.byte_of(other[q] as int, l.stream_pos(other, i)));
        }
    } else {
        assert(0 * l.props.cluster_size == 0);
    }
    assert(l.file_content(a, t, other) =~= l.file_content(x, t, other));
}

/// Inserting an entry leaves every file as it was.
pub proof fn law_insert_keeps_files(
    l: FatLayout,
    d: FatDisk,
    dir: FatDir,
    cs: Seq<u32>,
    entry: NewEntry,
    t: FileState,
    allocated: u64,
    other: Seq<u32>,
)
    requires
        l.dir_tidy(d.img, dir, cs),
        name_storable(entry.name@),
        entry.times.wf(),
        l.fat_type is FAT16 ==> entry.first_cluster < 0x1_0000,
        l.inserted(d, dir, entry).out is Ok,
        l.file_sound(d.img, t, allocated, other),
        members(cs).disjoint(members(other)),
    ensures
        ({
            let a = l.inserted(d, dir, entry).disk.img;
            &&& l.file_sound(a, t, allocated, other)
            &&& l.file_content(a, t, other) == l.file_content(d.img, t, other)
        }),
{
    law_insert_leaves_others(l, d, dir, cs, entry);
    let a = l.inserted(d, dir, entry).disk.img;
    lemma_file_left(l, d.img, a, members(cs), t, allocated, other);
}

/// A volume into one of whose directories an entry was inserted mounts alike.
pub proof fn law_insert_remounts(
    l: FatLayout,
    d: FatDisk,
    dir: FatDir,
    cs: Seq<u32>,
    entry: NewEntry,
)
    requires
        fat_mounted(d.img) == Ok::<FatLayout, FsError<()>>(l),
        l.reserved_in_order(),
        l.dir_tidy(d.img, dir, cs),
        name_storable(entry.name@),
        entry.times.wf(),
        l.fat_type is FAT16 ==> entry.first_cluster < 0x1_0000,
        l.inserted(d, dir, entry).out is Ok,
    ensures
        fat_mounted(l.inserted(d, dir, entry).disk.img) == Ok::<FatLayout, FsError<()>>(l),
{
    law_insert_leaves_others(l, d, dir, cs, entry);
    let a = l.inserted(d, dir, entry).disk.img;
    lemma_left_alone(l, d.img, a, members(cs), 0);
    assert forall|i: int| 0 <= i < l.fat_base(0) && i < a.len() implies #[trigger] a[i] == d.img[i] by {
        lemma_left_alone(l, d.img, a, members(cs), i);
    }
    lemma_reserved_same(l, d.img, a);
}

} // verus!
