//! What a lookup reports of an entry whose metadata were changed, through its
//! directory or through an open file.

use vstd::prelude::*;

use super::chains::{law_stream_read, lemma_walk_distinct};
use super::compose::{stored_date, stored_datetime};
use super::dir_edit::{end_slot, lemma_dir_stream_len};
use super::dir_slot::{law_patched_set_decodes, law_replaced_user_bits, patched_set, USER_BITS};
use super::direntry::{
    decoded_at, lemma_decoded_set_shape, next_entry, set_len, DirExtent, EntryFields, SetLoc,
};
use super::entry_laws::{lemma_first_named_joined, lemma_next_entry_place, stream_at, walk_of};
use super::file::{exfat_file_flushed, ExfatFile};
use super::layout::{lemma_unit_sizes, Disk, ExfatLayout};
use super::listing_laws::{law_replace_changes_one_entry, lemma_listed_step, shown};
use super::move_laws::{lemma_first_named_in, lemma_listed_exact};
use super::readdir::{fits_volume, lemma_next_entry_bounds, listed, listed_from, placed, DirWalk};
use super::resolve::first_named;
use super::set_laws::{lemma_stream_after_write, lemma_walk_after_write};
use super::volume::ExfatVfs;
use crate::attrs::{has_bits, unpacked_attributes, DIRECTORY};
use crate::bytes::spliced;
use crate::codec::exfat::boot::ExfatBootRecord;
use crate::device::Device;
use crate::entry_times::EntryTimes;
use crate::error::{FileError, FsError};
use crate::name::{law_same_name_equivalence, NamePolicy};
use crate::vfs::EntryPatch;

verus! {

/// `g` is `e` with the patch applied and the stamps of `times` stored: what the
/// patch names is changed to what it says, the valid length never exceeds the
/// data length, and everything else is as in `e`.
pub open spec fn shows_patch(g: EntryFields, e: EntryFields, patch: EntryPatch, times: EntryTimes) -> bool {
    &&& g.name == e.name
    &&& g.loc == e.loc
    &&& has_bits(g.attributes, DIRECTORY) == has_bits(e.attributes, DIRECTORY)
    &&& g.attributes & !USER_BITS == e.attributes & !USER_BITS
    &&& patch.attrs is None ==> g.attributes == e.attributes
    &&& patch.attrs matches Some(a) ==> unpacked_attributes(g.attributes) == a
    &&& patch.size is None ==> g.data_length == e.data_length
    &&& patch.size matches Some(n) ==> g.data_length == n
    &&& patch.valid_size matches Some(n) ==> g.valid_data_length == (if n <= g.data_length {
        n
    } else {
        g.data_length
    })
    &&& patch.valid_size is None ==> g.valid_data_length == (if e.valid_data_length
        <= g.data_length {
        e.valid_data_length
    } else {
        g.data_length
    })
    &&& patch.first_cluster is None ==> g.first_cluster == e.first_cluster
    &&& patch.first_cluster matches Some(c) ==> g.first_cluster == c
    &&& patch.no_fat_chain is None ==> g.no_fat_chain == e.no_fat_chain
    &&& patch.no_fat_chain matches Some(b) ==> g.no_fat_chain == b
    &&& times.created is None ==> g.created == e.created
    &&& times.created is Some ==> g.created == stored_datetime(times.created)
    &&& times.modified is None ==> g.modified == e.modified
    &&& times.modified is Some ==> g.modified == stored_datetime(times.modified)
    &&& times.accessed is None ==> g.accessed == e.accessed
    &&& times.accessed is Some ==> g.accessed == stored_date(times.accessed)
}

/// The place of a listed entry: what stands there decodes to it.
proof fn lemma_listed_source(boot: ExfatBootRecord, w: DirWalk, buf: Seq<u8>, q: int, i: int) -> (r: (
    int,
    EntryFields,
))
    requires
        0 <= q <= buf.len(),
        q % 32 == 0,
        buf.len() % 32 == 0,
        buf.len() <= u64::MAX,
        0 <= i < listed_from(boot, w, buf, q).len(),
    ensures
        ({
            let (pos, bare) = r;
            &&& listed_from(boot, w, buf, q)[i] == placed(bare, w, pos)
            &&& decoded_at(buf, pos) == Some(bare)
            &&& fits_volume(boot, bare)
            &&& q <= pos < end_slot(buf, q)
            &&& pos < buf.len()
            &&& pos % 32 == 0
        }),
    decreases buf.len() - q,
{
    lemma_listed_step(boot, w, buf, q);
    lemma_next_entry_bounds(buf, q);
    lemma_next_entry_place(buf, q);
    super::dir_edit::lemma_end_slot_bounds(buf, q);
    let (e, r) = next_entry(buf, q)->0;
    let one = shown(boot, w, e, r - e.entry_set_len);
    if i < one.len() {
        assert(listed_from(boot, w, buf, q)[i] == one[i]);
        (r - e.entry_set_len, e)
    } else {
        assert(listed_from(boot, w, buf, q)[i] == listed_from(boot, w, buf, r)[i - one.len()]);
        lemma_listed_source(boot, w, buf, r, i - one.len())
    }
}

/// Entries are listed in the order of their places.
proof fn lemma_listed_ascending(boot: ExfatBootRecord, w: DirWalk, buf: Seq<u8>, q: int, i: int, j: int)
    requires
        0 <= q <= buf.len(),
        q % 32 == 0,
        buf.len() % 32 == 0,
        buf.len() <= u64::MAX,
        0 <= i < j < listed_from(boot, w, buf, q).len(),
    ensures
        ({
            let all = listed_from(boot, w, buf, q);
            all[i].loc->0.logical < all[j].loc->0.logical
        }),
    decreases buf.len() - q,
{
    lemma_listed_step(boot, w, buf, q);
    lemma_next_entry_bounds(buf, q);
    lemma_next_entry_place(buf, q);
    let all = listed_from(boot, w, buf, q);
    let (e, r) = next_entry(buf, q)->0;
    let one = shown(boot, w, e, r - e.entry_set_len);
    let rest = listed_from(boot, w, buf, r);
    assert(all[j] == rest[j - one.len()]);
    if i < one.len() {
        let (pos, bare) = lemma_listed_source(boot, w, buf, r, j - one.len());
        assert(all[i] == one[i]);
    } else {
        assert(all[i] == rest[i - one.len()]);
        lemma_listed_ascending(boot, w, buf, r, i - one.len(), j - one.len());
    }
}

/// Replacing the set of the entry that a lookup found by one of the same name and
/// length.
proof fn lemma_replaced_then_found(
    boot: ExfatBootRecord,
    p: NamePolicy,
    w: DirWalk,
    buf: Seq<u8>,
    name: Seq<char>,
    pos: int,
    bare: EntryFields,
    set: Seq<u8>,
    f: EntryFields,
    other: Seq<char>,
)
    requires
        buf.len() % 32 == 0,
        buf.len() <= u64::MAX,
        0 <= pos < end_slot(buf, 0),
        pos % 32 == 0,
        pos < buf.len(),
        decoded_at(buf, pos) == Some(bare),
        fits_volume(boot, bare),
        first_named(p, listed(boot, w, buf), name) == Some(placed(bare, w, pos)),
        super::direntry::decoded_set(set) == Some(f),
        set.len() == bare.entry_set_len,
        fits_volume(boot, f),
        f.name == bare.name,
    ensures
        ({
            let new = listed(boot, w, spliced(buf, pos, set));
            &&& first_named(p, new, name) == Some(placed(f, w, pos))
            &&& !p.same_name(name, other) ==> first_named(p, new, other) == first_named(
                p,
                listed(boot, w, buf),
                other,
            )
        }),
{
    law_replace_changes_one_entry(boot, w, buf, pos, bare, set, f);
    let all = listed(boot, w, buf);
    let before = listed(boot, w, buf.subrange(0, pos));
    let behind = listed_from(boot, w, buf, pos + set.len());
    let (x, y) = (seq![placed(bare, w, pos)], seq![placed(f, w, pos)]);
    assert(shown(boot, w, bare, pos) =~= x);
    assert(shown(boot, w, f, pos) =~= y);
    assert(all == before + x + behind);
    let i = lemma_first_named_in(p, all, name);
    let n = before.len() as int;
    assert(all[n] == x[0]);
    if i < n {
        lemma_listed_ascending(boot, w, buf, 0, i, n);
    } else if n < i {
        lemma_listed_ascending(boot, w, buf, 0, n, i);
    }
    assert(first_named(p, before, name) is None) by {
        if first_named(p, before, name) is Some {
            let k = lemma_first_named_in(p, before, name);
            assert(all[k] == before[k]);
            assert(!p.same_name(all[k].name, name));
        }
    }
    lemma_one_replaced(p, before, x, y, behind, name, other);
}

proof fn lemma_one_replaced(
    p: NamePolicy,
    before: Seq<EntryFields>,
    x: Seq<EntryFields>,
    y: Seq<EntryFields>,
    behind: Seq<EntryFields>,
    name: Seq<char>,
    other: Seq<char>,
)
    requires
        x.len() == 1,
        y.len() == 1,
        y[0].name == x[0].name,
        p.same_name(x[0].name, name),
        first_named(p, before, name) is None,
    ensures
        first_named(p, before + y + behind, name) == Some(y[0]),
        !p.same_name(name, other) ==> first_named(p, before + y + behind, other) == first_named(
            p,
            before + x + behind,
            other,
        ),
{
    assert(before + y + behind =~= before + (y + behind));
    assert(before + x + behind =~= before + (x + behind));
    lemma_first_named_joined(p, before, y + behind, name);
    assert((y + behind).first() == y[0]);
    law_same_name_equivalence(p, x[0].name, name, other);
    law_same_name_equivalence(p, name, x[0].name, other);
    if !p.same_name(name, other) {
        lemma_first_named_joined(p, before, y + behind, other);
        lemma_first_named_joined(p, before, x + behind, other);
        lemma_first_named_joined(p, y, behind, other);
        lemma_first_named_joined(p, x, behind, other);
        assert(x.drop_first() =~= seq![] && y.drop_first() =~= seq![]);
        assert(first_named(p, x.drop_first(), other) is None);
        assert(first_named(p, y.drop_first(), other) is None);
        assert(x.first() == x[0] && y.first() == y[0]);
    }
}

/// Patching the entry that a lookup found, in any directory that starts at one of
/// the volume's clusters: the lookup then finds it with the patch applied and all
/// else as before, and lookups of other names find what they found before. The
/// patched entry must fit the volume, or else it is not listed.
pub proof fn law_patch_then_found(
    l: ExfatLayout,
    p: NamePolicy,
    d: Disk,
    ext: DirExtent,
    name: Seq<char>,
    e: EntryFields,
    loc: SetLoc,
    patch: EntryPatch,
    times: EntryTimes,
    other: Seq<char>,
) -> (g: EntryFields)
    requires
        l.wf(),
        l.regions_apart(),
        l.in_heap(ext.first_cluster as int),
        l.child_in(p, d.img, ext, name) == Ok::<EntryFields, FsError<()>>(e),
        e.loc == Some(loc),
        times.wf(),
        l.entry_patched(d, loc, patch, times).out is Ok,
    ensures
        ({
            let a = l.entry_patched(d, loc, patch, times).disk.img;
            &&& shows_patch(g, e, patch, times)
            &&& g.valid_data_length <= g.data_length
            &&& fits_volume(l.boot, g) ==> {
                &&& l.child_in(p, a, ext, name) == Ok::<EntryFields, FsError<()>>(g)
                &&& !p.same_name(name, other) ==> l.child_in(p, a, ext, other) == l.child_in(
                    p,
                    d.img,
                    ext,
                    other,
                )
            }
        }),
{
    let (first, nfc, max) = (ext.first_cluster, ext.no_fat_chain, ext.max_clusters as int);
    let w = walk_of(ext);
    let (cs, buf) = l.dir_read(d.img, first, nfc, max)->Ok_0;
    lemma_unit_sizes(l.boot);
    lemma_dir_stream_len(l, d.img, first, nfc, ext.max_clusters);
    let (n, cb) = (cs.len() as int, l.boot.cluster_bytes());
    let k = cb / 32;
    assert(n * cb == (n * k) * 32) by (nonlinear_arith)
        requires
            cb == 32 * k,
    ;
    vstd::arithmetic::div_mod::lemma_mod_multiples_basic(n * k, 32);
    super::dir_edit::lemma_dir_walk_len(l, d.img, Some(first), nfc, max, 0);
    assert(0 <= n * cb <= 0xFFFF_FFFF * 0x200_0000) by (nonlinear_arith)
        requires
            0 <= n <= 0xFFFF_FFFF,
            0 <= cb <= 0x200_0000,
    ;
    let all = listed(l.boot, w, buf);
    let i = lemma_first_named_in(p, all, name);
    lemma_listed_exact(l.boot, w, buf, 0, i);
    let (pos, bare) = lemma_listed_source(l.boot, w, buf, 0, i);
    let len = bare.entry_set_len as int;
    let set = buf.subrange(pos, pos + set_len(buf.subrange(pos, pos + 32)));
    lemma_decoded_set_shape(set);
    lemma_walk_distinct(l, d.img, Some(first), nfc, max, 0);
    law_stream_read(l, d.img, cs, pos, len);
    assert(l.set_read(d.img, loc) == Ok::<Seq<u8>, FsError<()>>(set));
    law_patched_set_decodes(set, bare, patch, times);
    let new = patched_set(set, patch, times);
    let f = super::dir_slot::patched_fields(bare, patch, times);
    if let Some(a) = patch.attrs {
        law_replaced_user_bits(bare.attributes, a);
    }
    let g = placed(f, w, pos);
    lemma_stream_after_write(l, d, cs, pos, new);
    lemma_walk_after_write(l, d, first, nfc, max, pos, new);
    if fits_volume(l.boot, g) {
        lemma_replaced_then_found(l.boot, p, w, buf, name, pos, bare, new, f, other);
    }
    g
}

/// Changing metadata through a directory: a lookup then finds the entry with the
/// attributes and stamps that were given, the stamps in their stored form, and
/// with everything else as it was. Lookups of other names find what they found
/// before.
pub proof fn law_metadata_change_then_found(
    l: ExfatLayout,
    p: NamePolicy,
    d: Disk,
    ext: DirExtent,
    name: Seq<char>,
    e: EntryFields,
    patch: EntryPatch,
    other: Seq<char>,
) -> (g: EntryFields)
    requires
        l.wf(),
        l.regions_apart(),
        l.in_heap(ext.first_cluster as int),
        l.child_in(p, d.img, ext, name) == Ok::<EntryFields, FsError<()>>(e),
        patch.wf(),
        patch.size is None && patch.valid_size is None && patch.first_cluster is None
            && patch.no_fat_chain is None,
        l.entry_updated(d, e, patch).out is Ok,
    ensures
        ({
            let a = l.entry_updated(d, e, patch).disk.img;
            let given = patch.times;
            &&& l.child_in(p, a, ext, name) == Ok::<EntryFields, FsError<()>>(g)
            &&& !p.same_name(name, other) ==> l.child_in(p, a, ext, other) == l.child_in(
                p,
                d.img,
                ext,
                other,
            )
            &&& g.name == e.name
            &&& g.loc == e.loc
            &&& g.first_cluster == e.first_cluster
            &&& g.data_length == e.data_length
            &&& g.valid_data_length == e.valid_data_length
            &&& g.no_fat_chain == e.no_fat_chain
            &&& has_bits(g.attributes, DIRECTORY) == has_bits(e.attributes, DIRECTORY)
            &&& unpacked_attributes(g.attributes) == (match patch.attrs {
                Some(a) => a,
                None => unpacked_attributes(e.attributes),
            })
            &&& g.created == (if given is Some && given->0.created is Some {
                stored_datetime(given->0.created)
            } else {
                e.created
            })
            &&& g.modified == (if given is Some && given->0.modified is Some {
                stored_datetime(given->0.modified)
            } else {
                e.modified
            })
            &&& g.accessed == (if given is Some && given->0.accessed is Some {
                stored_date(given->0.accessed)
            } else {
                e.accessed
            })
        }),
{
    let (first, nfc, max) = (ext.first_cluster, ext.no_fat_chain, ext.max_clusters as int);
    let buf = stream_at(l, d.img, ext);
    let all = l.listing(d.img, ext)->Ok_0;
    let i = lemma_first_named_in(p, all, name);
    lemma_listed_exact(l.boot, walk_of(ext), buf, 0, i);
    if patch.is_empty() {
        e
    } else {
        lemma_listed_placed(l.boot, walk_of(ext), buf, 0, i);
        let own = EntryTimes { created: e.created, modified: e.modified, accessed: e.accessed };
        let times = super::dir_slot::merged_times(own, patch.times);
        law_patch_then_found(l, p, d, ext, name, e, e.loc->0, patch, times, other)
    }
}

/// A listed entry has a place.
proof fn lemma_listed_placed(boot: ExfatBootRecord, w: DirWalk, buf: Seq<u8>, q: int, i: int)
    requires
        0 <= q,
        0 <= i < listed_from(boot, w, buf, q).len(),
    ensures
        listed_from(boot, w, buf, q)[i].loc is Some,
    decreases buf.len() - q,
{
    lemma_listed_step(boot, w, buf, q);
    lemma_next_entry_bounds(buf, q);
    if let Some((e, r)) = next_entry(buf, q) {
        let one = shown(boot, w, e, r - e.entry_set_len);
        if i >= one.len() {
            lemma_listed_placed(boot, w, buf, r, i - one.len());
        }
    }
}

/// Flushing an open file whose entry is behind: a lookup of the file then reports
/// the length, the initialized length, the first cluster and the contiguity that
/// the open file has, and the stored form of each stamp that it has; name and
/// attributes are as before. Lookups of other names find what they found before.
pub proof fn law_flush_then_found<D: Device>(
    r: Result<(), FileError<D::Error>>,
    before: ExfatFile,
    vol: ExfatVfs<D>,
    after: ExfatFile,
    now: ExfatVfs<D>,
    ext: DirExtent,
    name: Seq<char>,
    e: EntryFields,
    other: Seq<char>,
) -> (g: EntryFields)
    requires
        vol.wf(),
        before.wf(vol.layout),
        exfat_file_flushed(r, before, vol, after, now),
        r is Ok,
        before.state.dirty,
        vol.layout.regions_apart(),
        vol.layout.in_heap(ext.first_cluster as int),
        vol.layout.child_in(vol.name_policy, vol.dev.contents(), ext, name) == Ok::<
            EntryFields,
            FsError<()>,
        >(e),
        e.loc is Some,
        before.writer.loc == e.loc,
        vol.layout.boot.geometry_ok(
            before.state.first_cluster as int,
            before.state.len as int,
            before.state.valid_len as int,
            before.map.no_fat_chain,
        ),
    ensures
        ({
            let (l, p) = (vol.layout, vol.name_policy);
            let (x, a) = (vol.dev.contents(), now.dev.contents());
            let s = before.state;
            &&& l.child_in(p, a, ext, name) == Ok::<EntryFields, FsError<()>>(g)
            &&& !p.same_name(name, other) ==> l.child_in(p, a, ext, other) == l.child_in(
                p,
                x,
                ext,
                other,
            )
            &&& g.name == e.name
            &&& g.loc == e.loc
            &&& g.attributes == e.attributes
            &&& g.data_length == s.len
            &&& g.valid_data_length == s.valid_len
            &&& g.first_cluster == s.first_cluster
            &&& g.no_fat_chain == before.map.no_fat_chain
            &&& s.times.created is Some ==> g.created == stored_datetime(s.times.created)
            &&& s.times.modified is Some ==> g.modified == stored_datetime(s.times.modified)
            &&& s.times.accessed is Some ==> g.accessed == stored_date(s.times.accessed)
        }),
{
    let patch = before.state.bookkeeping(Some(before.map.no_fat_chain));
    let times = super::dir_slot::merged_times(before.writer.times, patch.times);
    law_patch_then_found(
        vol.layout,
        vol.name_policy,
        vol.disk(),
        ext,
        name,
        e,
        e.loc->0,
        patch,
        times,
        other,
    )
}

} // verus!
