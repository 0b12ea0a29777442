//! What a new entry is found as, and what it holds.

use vstd::prelude::*;

use super::alloc_laws::{law_extent_allocated, lemma_dir_cluster_effect, run_of};
use super::chains::{lemma_walk_kept, members};
use super::compose::{stored_date, stored_datetime};
use super::create::{new_attributes, new_set};
use super::dir_laws::lemma_free_apart;
use super::directory::renamed_set;
use super::direntry::{DirExtent, EntryFields};
use super::entry_laws::{law_insert_then_found, lemma_insert_steps};
use super::frame_laws::{law_append_leaves_others, lemma_left_alone, lemma_selection_kept};
use super::layout::{lemma_unit_sizes, Disk, ExfatLayout};
use super::stream_laws::consecutive;
use crate::attrs::{has_bits, packed_attributes, unpacked_attributes, Attributes, DIRECTORY};
use crate::calendar::PrimitiveDateTime;
use crate::codec::exfat::name_hash_of;
use crate::error::FsError;
use crate::name::NamePolicy;
use crate::num::ceil_div;
use crate::text::utf16_of;
use crate::vfs::NewEntry;

verus! {

/// The attributes of a new entry: as given, with files marked for archiving, and
/// the directory bit as it should be.
proof fn lemma_new_attributes(entry: NewEntry)
    ensures
        has_bits(new_attributes(entry), DIRECTORY) == entry.is_dir,
        unpacked_attributes(new_attributes(entry)) == (if entry.is_dir {
            entry.attrs
        } else {
            Attributes { archive: true, ..entry.attrs }
        }),
{
    let m = packed_attributes(entry.attrs, entry.is_dir);
    crate::attrs::law_attributes_round_trip(entry.attrs, entry.is_dir);
    assert({
        let x = m | 0x0010u16;
        let y = m | 0x0020u16;
        &&& (x & 0x0001u16 == 0x0001u16) == (m & 0x0001u16 == 0x0001u16)
        &&& (x & 0x0002u16 == 0x0002u16) == (m & 0x0002u16 == 0x0002u16)
        &&& (x & 0x0004u16 == 0x0004u16) == (m & 0x0004u16 == 0x0004u16)
        &&& (x & 0x0020u16 == 0x0020u16) == (m & 0x0020u16 == 0x0020u16)
        &&& x & 0x0010u16 == 0x0010u16
        &&& (y & 0x0001u16 == 0x0001u16) == (m & 0x0001u16 == 0x0001u16)
        &&& (y & 0x0002u16 == 0x0002u16) == (m & 0x0002u16 == 0x0002u16)
        &&& (y & 0x0004u16 == 0x0004u16) == (m & 0x0004u16 == 0x0004u16)
        &&& (y & 0x0010u16 == 0x0010u16) == (m & 0x0010u16 == 0x0010u16)
        &&& y & 0x0020u16 == 0x0020u16
    }) by (bit_vector);
}

/// `g` shows the name, the attributes and the stamps that `entry` was given: a
/// file is marked for archiving, and where no stamp is given all three are `now`.
pub open spec fn shows_new_entry(g: EntryFields, entry: NewEntry, now: PrimitiveDateTime) -> bool {
    let t = entry.times;
    let unstamped = t.created is None && t.modified is None && t.accessed is None;
    &&& g.name == entry.name@
    &&& has_bits(g.attributes, DIRECTORY) == entry.is_dir
    &&& unpacked_attributes(g.attributes) == (if entry.is_dir {
        entry.attrs
    } else {
        Attributes { archive: true, ..entry.attrs }
    })
    &&& unstamped ==> {
        &&& g.created == stored_datetime(Some(now))
        &&& g.modified == stored_datetime(Some(now))
        &&& g.accessed == stored_date(Some(now.date))
    }
    &&& !unstamped ==> {
        &&& g.created == stored_datetime(t.created)
        &&& g.modified == stored_datetime(t.modified)
        &&& g.accessed == stored_date(t.accessed)
    }
}

/// `g` shows the allocation that `entry` brings along, or that it owns none.
pub open spec fn shows_given_data(g: EntryFields, entry: NewEntry, cluster_bytes: int) -> bool {
    if entry.first_cluster >= 2 {
        let length = if entry.is_dir && entry.size < cluster_bytes {
            cluster_bytes
        } else {
            entry.size as int
        };
        &&& g.first_cluster == entry.first_cluster
        &&& g.data_length == (match entry.allocated_size {
            Some(n) => n as int,
            None => length,
        })
        &&& g.valid_data_length == (if entry.is_dir {
            g.data_length
        } else {
            entry.size
        })
        &&& g.no_fat_chain == (match entry.no_fat_chain {
            Some(b) => b,
            None => entry.is_dir,
        })
    } else {
        g.first_cluster == 0 && g.data_length == 0 && g.valid_data_length == 0
    }
}

/// `cs` are the clusters made for `g`: free before, in use afterwards, as many as
/// its length takes, the first of them its first, and neighbours or linked one to
/// the next.
pub open spec fn made_for(l: ExfatLayout, x: Seq<u8>, a: Seq<u8>, g: EntryFields, cs: Seq<u32>) -> bool {
    let cb = l.boot.cluster_bytes();
    &&& cs.len() > 0
    &&& cs[0] == g.first_cluster
    &&& (cs.len() - 1) * cb < g.data_length <= cs.len() * cb
    &&& forall|i: int|
        0 <= i < cs.len() ==> l.data_cluster((#[trigger] cs[i]) as int) && !l.allocated(
            x,
            cs[i] as int,
        ) && l.allocated(a, cs[i] as int)
    &&& g.no_fat_chain ==> consecutive(cs)
    &&& !g.no_fat_chain ==> l.dir_clusters(a, g.first_cluster, false, 0) == Ok::<
        Seq<u32>,
        FsError<()>,
    >(cs)
}

/// Creating an entry in a directory of a sound volume. A lookup then finds it
/// with the name, the attributes and the stamps it was given. An entry that
/// brings clusters along shows those, and a file without a size owns none. A file
/// with a size gets as many clusters as that takes, none of them used before, and
/// reads as zeros: nothing of it is initialized. A directory gets one cluster of
/// zeros.
pub proof fn law_created_entry_found(
    l: ExfatLayout,
    p: NamePolicy,
    d: Disk,
    parent: DirExtent,
    entry: NewEntry,
    now: PrimitiveDateTime,
) -> (r: (EntryFields, Seq<u32>))
    requires
        l.volume_sound(d.img),
        l.heap_on(d.img),
        l.dir_sound(d.img, l.refreshed(d.img, parent)),
        entry.times.wf(),
        now.wf(),
        l.inserted(p, d, parent, entry, now).out is Ok,
        entry.first_cluster >= 2 ==> ({
            let (first, valid, length, contiguous) = l.new_allocation(d, entry).out->Ok_0;
            l.boot.geometry_ok(first as int, length as int, valid as int, contiguous)
        }),
        makes_plain_dir(entry),
    ensures
        ({
            let a = l.inserted(p, d, parent, entry, now).disk.img;
            let cb = l.boot.cluster_bytes();
            let (g, cs) = r;
            &&& l.child(p, a, parent, entry.name@) == Ok::<EntryFields, FsError<()>>(g)
            &&& shows_new_entry(g, entry, now)
            &&& entry.first_cluster >= 2 || (!entry.is_dir && entry.size == 0) ==> shows_given_data(
                g,
                entry,
                cb,
            )
            &&& !entry.is_dir && entry.first_cluster < 2 && entry.size > 0 ==> {
                &&& g.data_length == entry.size
                &&& g.valid_data_length == 0
                &&& made_for(l, d.img, a, g, cs)
            }
            &&& entry.is_dir && entry.first_cluster < 2 ==> {
                &&& g.data_length == cb
                &&& g.valid_data_length == cb
                &&& g.no_fat_chain
                &&& cs.len() == 1
                &&& made_for(l, d.img, a, g, cs)
                &&& forall|i: int| 0 <= i < cb ==> #[trigger] l.cluster_data(a, cs[0] as int)[i] == 0
            }
        }),
{
    let ext = l.refreshed(d.img, parent);
    let step = lemma_insert_steps(l, p, d, parent, entry, now);
    law_insert_then_found(l, p, d, parent, entry, now);
    lemma_new_attributes(entry);
    let a = l.inserted(p, d, parent, entry, now).disk.img;
    let g = l.child(p, a, parent, entry.name@)->Ok_0;
    let mid = step.0;
    lemma_unit_sizes(l.boot);
    let cb = l.boot.cluster_bytes();
    if entry.first_cluster >= 2 || (!entry.is_dir && entry.size == 0) {
        (g, seq![])
    } else {
        law_append_leaves_others(l, mid, ext, step.2);
        let own = l.dir_and_parent(mid.img, ext);
        if entry.is_dir {
            lemma_dir_cluster_effect(l, d);
            let c = l.dir_cluster_made(d).out->Ok_0;
            let cs = seq![c];
            assert(cs[0] == c);
            lemma_taken_kept(l, d.img, mid.img, a, cs, ext);
            assert(1 * cb == cb && (1 - 1) * cb == 0);
            assert(l.cluster_data(mid.img, cs[0] as int) == Seq::new(cb as nat, |i: int| 0u8));
            (g, cs)
        } else {
            let n = ceil_div(entry.size as int, cb);
            lemma_count_fits(entry.size as int, cb);
            let cs = law_extent_allocated(l, d, n);
            let (first, contiguous) = l.extent_allocated(d, n).out->Ok_0;
            lemma_taken_kept(l, d.img, mid.img, a, cs, ext);
            if contiguous {
                super::regions::law_search_finds_free(l, d.img, n);
                assert forall|i: int| 0 <= i < cs.len() implies #[trigger] cs[i] == cs[0] + i by {
                    assert(run_of(first as int, first + n)[i] == (first + i) as u32);
                    assert(l.data_cluster(cs[i] as int));
                    lemma_run_number(l, d.img, first as int, n, i);
                }
            } else {
                lemma_walk_kept(l, mid.img, a, Some(first), false, 0, 0);
            }
            (g, cs)
        }
    }
}

/// A new directory that brings no cluster along is not asked to be chained.
pub open spec fn makes_plain_dir(entry: NewEntry) -> bool {
    entry.is_dir && entry.first_cluster < 2 ==> entry.no_fat_chain != Some(false)
}

/// The numbers of a run that was found do not wrap.
proof fn lemma_run_number(l: ExfatLayout, img: Seq<u8>, first: int, n: int, i: int)
    requires
        l.wf(),
        1 <= n,
        l.run_search(img, n) matches Ok(Some(s)) && s == first,
        0 <= i < n,
    ensures
        first + i <= u32::MAX,
{
    super::regions::law_search_finds_free(l, img, n);
}

/// As many clusters as bytes take, and no more.
pub proof fn lemma_count_fits(bytes: int, cb: int)
    requires
        0 < bytes,
        0 < cb,
    ensures
        ({
            let n = ceil_div(bytes, cb);
            &&& n >= 1
            &&& (n - 1) * cb < bytes <= n * cb
        }),
{
    let n = ceil_div(bytes, cb);
    vstd::arithmetic::div_mod::lemma_fundamental_div_mod(bytes + cb - 1, cb);
    vstd::arithmetic::div_mod::lemma_mod_bound(bytes + cb - 1, cb);
    let rest = (bytes + cb - 1) % cb;
    assert((n - 1) * cb < bytes <= n * cb && n >= 1) by (nonlinear_arith)
        requires
            bytes + cb - 1 == cb * n + rest,
            0 <= rest < cb,
            0 < bytes,
    ;
}

/// Clusters taken for an entry stay as they are when its set is stored.
proof fn lemma_taken_kept(
    l: ExfatLayout,
    x: Seq<u8>,
    mid: Seq<u8>,
    a: Seq<u8>,
    cs: Seq<u32>,
    ext: DirExtent,
)
    requires
        l.volume_sound(x),
        l.heap_on(x),
        l.dir_sound(x, ext),
        l.took(x, mid, cs),
        l.leaves_alone(mid, a, l.dir_and_parent(mid, ext)),
    ensures
        forall|i: int|
            0 <= i < cs.len() ==> {
                let c = (#[trigger] cs[i]) as int;
                &&& l.data_cluster(c)
                &&& !l.allocated(x, c)
                &&& l.allocated(a, c)
                &&& l.fat_read(a, c) == l.fat_read(mid, c)
                &&& l.cluster_data(a, c) == l.cluster_data(mid, c)
            },
{
    lemma_selection_kept(l, x, mid, cs, ext);
    let own = l.dir_and_parent(x, ext);
    let dir = l.dir_clusters(x, ext.first_cluster, ext.no_fat_chain, ext.max_clusters as int)->Ok_0;
    lemma_free_apart(l, x, cs, dir);
    if let Some(loc) = ext.parent_entry {
        let pcs = l.dir_clusters(
            x,
            loc.dir_first_cluster,
            loc.dir_no_fat_chain,
            loc.dir_max_clusters as int,
        )->Ok_0;
        lemma_free_apart(l, x, cs, pcs);
    }
    let m = members(cs);
    super::effects::lemma_untouched(l, x, mid, m, m, m, 2);
    assert forall|i: int| 0 <= i < cs.len() implies {
        let c = (#[trigger] cs[i]) as int;
        &&& l.data_cluster(c)
        &&& !l.allocated(x, c)
        &&& l.allocated(a, c)
        &&& l.fat_read(a, c) == l.fat_read(mid, c)
        &&& l.cluster_data(a, c) == l.cluster_data(mid, c)
    } by {
        let c = cs[i] as int;
        assert(l.data_cluster(c));
        assert(l.cluster_on(x, c));
        assert(l.has_bit_on(x, c));
        assert(members(cs).contains(c));
        assert(!own.contains(c));
        assert(l.cluster_kept(mid, c));
        lemma_left_alone(l, mid, a, own, c);
    }
}

/// The hash stored with a name, for a new entry and for one that is linked under
/// a new name, is that of the name's units folded one by one. So names that mean
/// the same entry are stored with the same hash.
pub proof fn law_stored_hash_is_of_folded_name(
    p: NamePolicy,
    entry: NewEntry,
    now: PrimitiveDateTime,
    e: EntryFields,
    units: Seq<u16>,
)
    requires
        units.len() == utf16_of(entry.name@).len(),
        forall|i: int|
            0 <= i < units.len() ==> #[trigger] units[i] == p.folded_unit(utf16_of(entry.name@)[i]),
    ensures
        new_set(p, entry, now, 0, 0, 0, false).name_hash == name_hash_of(units) as u16,
        renamed_set(p, e, entry.name@).name_hash == name_hash_of(units) as u16,
{
    assert(p.folded(entry.name@) =~= units);
}

} // verus!
