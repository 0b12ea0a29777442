//! What a lookup reports of an entry that was updated.

use vstd::prelude::*;

use super::dir_laws::lemma_places_walked;
use super::dir_slots::{FatDir, SlotChain};
use super::directory::fat_first_named;
use super::entry::{FatFields, MinFields};
use super::entry_io::patched_fields;
use super::entry_laws::{law_rewrite_changes_one, lemma_first_named_joined, lemma_first_named_one};
use super::file::{fat_file_flushed, FatFile};
use super::fs::FatVfs;
use super::layout::{FatDisk, FatLayout};
use super::name_laws::{fields_fit, stored_fields};
use super::open::writer_fields;
use super::slot_iter::{entry_of, fat_listing, raw_of};
use super::slot_laws::{
    idle, law_listing_reads_slots, lemma_found_slot, lemma_raw_exists, scan_state, within_cap,
};
use crate::attrs::{packed_attributes, unpacked_attributes};
use crate::bytes::le16;
use crate::codec::FixedCodec;
use crate::codec::fat::dir_entry::RAW_VOLUME_ID;
use crate::codec::fat::entry_time::{
    law_accessed_stable, law_creation_stable, law_modification_stable,
};
use crate::codec::fat::types::FatType;
use crate::codec::stamp_laws::{law_stamp_keeps, to_even_second, to_hundredths, year_fits};
use crate::codec::time::{
    law_date_word_round_trip, law_datetime_round_trip, law_decoded_is_representable,
};
use crate::device::Device;
use crate::entry_times::EntryTimes;
use crate::error::{FileError, FsError};
use crate::name::NamePolicy;
use crate::vfs::EntryPatch;

verus! {

/// The fields read from a record are stored as they were read.
proof fn lemma_read_fields_stored(t: FatType, slot: Seq<u8>, name: Seq<char>, chain: SlotChain)
    requires
        slot.len() == 32,
    ensures
        ({
            let f = entry_of(t, raw_of(slot), name, chain);
            &&& f.min().wf()
            &&& fields_fit(t, f.min())
            &&& stored_fields(f.min()) == f.min()
            &&& f.min().at(chain) == f
        }),
{
    lemma_raw_exists(slot);
    let (ct, cd) = (le16(slot, 14), le16(slot, 16));
    let (mt, md) = (le16(slot, 22), le16(slot, 24));
    law_creation_stable(slot[13] as int, ct, cd);
    law_decoded_is_representable(cd * 0x1_0000 + ct, slot[13] as int);
    law_modification_stable(mt, md);
    law_decoded_is_representable(md * 0x1_0000 + mt, 0);
    law_accessed_stable(le16(slot, 18));
    let epoch = crate::calendar::epoch_datetime();
    law_datetime_round_trip(epoch);
}

/// The first entry that goes by a name, and its place in the list.
proof fn lemma_named_place(p: NamePolicy, all: Seq<FatFields>, name: Seq<char>) -> (m: int)
    requires
        fat_first_named(p, all, name) is Some,
    ensures
        0 <= m < all.len(),
        all[m] == fat_first_named(p, all, name)->0,
        p.same_name(all[m].name, name),
        fat_first_named(p, all.subrange(0, m), name) is None,
    decreases all.len(),
{
    if p.same_name(all.first().name, name) {
        assert(all.subrange(0, 0) =~= Seq::<FatFields>::empty());
        0
    } else {
        let rest = all.drop_first();
        let k = lemma_named_place(p, rest, name);
        let part = all.subrange(0, k + 1);
        assert(part.first() == all.first());
        assert(part.drop_first() =~= rest.subrange(0, k));
        k + 1
    }
}

/// Lookups in a list of which one entry was replaced by one of the same name.
proof fn lemma_named_after(
    p: NamePolicy,
    all: Seq<FatFields>,
    m: int,
    g: FatFields,
    name: Seq<char>,
    other: Seq<char>,
)
    requires
        0 <= m < all.len(),
        g.name == all[m].name,
        p.same_name(all[m].name, name),
        fat_first_named(p, all.subrange(0, m), name) is None,
    ensures
        fat_first_named(p, all.update(m, g), name) == Some(g),
        !p.same_name(all[m].name, other) ==> fat_first_named(p, all.update(m, g), other)
            == fat_first_named(p, all, other),
{
    let (before, behind) = (all.subrange(0, m), all.subrange(m + 1, all.len() as int));
    let f = all[m];
    let new = all.update(m, g);
    assert(all =~= before + seq![f] + behind);
    assert(new =~= before + seq![g] + behind);
    lemma_first_named_joined(p, before + seq![g], behind, name);
    lemma_first_named_joined(p, before, seq![g], name);
    lemma_first_named_one(p, g, name);
    lemma_first_named_joined(p, before + seq![g], behind, other);
    lemma_first_named_joined(p, before, seq![g], other);
    lemma_first_named_one(p, g, other);
    lemma_first_named_joined(p, before + seq![f], behind, other);
    lemma_first_named_joined(p, before, seq![f], other);
    lemma_first_named_one(p, f, other);
}

/// Updating the entry that a lookup found: the lookup then reports the entry
/// with the patch applied, as its stored form holds it; the listing changes in
/// that entry only; and lookups of other names find what they found before.
pub proof fn law_update_then_found(
    l: FatLayout,
    d: FatDisk,
    dir: FatDir,
    cs: Seq<u32>,
    name: Seq<char>,
    f: FatFields,
    patch: EntryPatch,
    other: Seq<char>,
) -> (m: int)
    requires
        l.dir_sound(d.img, dir, cs),
        l.child(d.img, dir, name) == Ok::<Option<FatFields>, FsError<()>>(Some(f)),
        patch.wf(),
        fields_fit(l.fat_type, patched_fields(f.min(), f.is_dir, patch)),
        patched_fields(f.min(), f.is_dir, patch).attributes & RAW_VOLUME_ID != RAW_VOLUME_ID,
    ensures
        ({
            let q = patched_fields(f.min(), f.is_dir, patch);
            let r = l.record_rewritten(d, f.chain, q);
            let a = r.disk.img;
            let all = fat_listing(l, d.img, dir).0;
            let g = (MinFields { name: f.name, ..stored_fields(q) }).at(f.chain);
            &&& r.out is Ok
            &&& l.dir_sound(a, dir, cs)
            &&& 0 <= m < all.len()
            &&& all[m] == f
            &&& fat_listing(l, a, dir) == (all.update(m, g), None::<FsError<()>>)
            &&& l.child(a, dir, name) == Ok::<Option<FatFields>, FsError<()>>(Some(g))
            &&& !NamePolicy::Ascii.same_name(f.name, other) ==> l.child(a, dir, other) == l.child(
                d.img,
                dir,
                other,
            )
        }),
{
    let ascii = NamePolicy::Ascii;
    let ps = l.places(dir, cs);
    let ss = within_cap(l.dir_content(d.img, dir, cs));
    lemma_places_walked(l, d.img, dir, cs);
    law_listing_reads_slots(l, d.img, dir, ps);
    let all = fat_listing(l, d.img, dir).0;
    let m = lemma_named_place(ascii, all, name);
    lemma_listed_stored(l, d, dir, cs, m);
    let q = patched_fields(f.min(), f.is_dir, patch);
    law_rewrite_changes_one(l, d, dir, cs, m, q);
    let g = (MinFields { name: f.name, ..stored_fields(q) }).at(f.chain);
    lemma_named_after(ascii, all, m, g, name, other);
    m
}

/// A listed entry is stored as it was read.
pub proof fn lemma_listed_stored(l: FatLayout, d: FatDisk, dir: FatDir, cs: Seq<u32>, m: int)
    requires
        l.dir_sound(d.img, dir, cs),
        0 <= m < fat_listing(l, d.img, dir).0.len(),
    ensures
        ({
            let f = fat_listing(l, d.img, dir).0[m];
            &&& f.min().wf()
            &&& fields_fit(l.fat_type, f.min())
            &&& stored_fields(f.min()) == f.min()
            &&& f.min().at(f.chain) == f
            &&& f.attributes & RAW_VOLUME_ID != RAW_VOLUME_ID
        }),
{
    let t = l.fat_type;
    let ps = l.places(dir, cs);
    let ss = within_cap(l.dir_content(d.img, dir, cs));
    lemma_places_walked(l, d.img, dir, cs);
    law_listing_reads_slots(l, d.img, dir, ps);
    let f = fat_listing(l, d.img, dir).0[m];
    let k = lemma_found_slot(t, ps, ss, 0, idle(), m);
    assert(l.slot_read(d.img, ps[k]) is Ok);
    lemma_raw_exists(ss[k]);
    let st = scan_state(t, ps, ss, 0, k, idle());
    lemma_read_fields_stored(t, ss[k], f.name, f.chain);
}

/// Updating the size of the entry that a lookup found: the lookup then reports
/// the new size and all else as before, and the listing is the same but for
/// that.
pub proof fn law_size_update_then_found(
    l: FatLayout,
    d: FatDisk,
    dir: FatDir,
    cs: Seq<u32>,
    name: Seq<char>,
    f: FatFields,
    n: u32,
)
    requires
        l.dir_sound(d.img, dir, cs),
        l.child(d.img, dir, name) == Ok::<Option<FatFields>, FsError<()>>(Some(f)),
    ensures
        ({
            let patch = EntryPatch {
                size: Some(n as u64),
                valid_size: None,
                first_cluster: None,
                no_fat_chain: None,
                times: None,
                attrs: None,
            };
            let r = l.record_rewritten(d, f.chain, patched_fields(f.min(), f.is_dir, patch));
            let a = r.disk.img;
            let all = fat_listing(l, d.img, dir).0;
            let g = FatFields { file_size: n, ..f };
            &&& r.out is Ok
            &&& l.child(a, dir, name) == Ok::<Option<FatFields>, FsError<()>>(Some(g))
            &&& exists|m: int|
                0 <= m < all.len() && #[trigger] all[m] == f && fat_listing(l, a, dir) == (
                    all.update(m, g),
                    None::<FsError<()>>,
                )
        }),
{
    let patch = EntryPatch {
        size: Some(n as u64),
        valid_size: None,
        first_cluster: None,
        no_fat_chain: None,
        times: None,
        attrs: None,
    };
    let all = fat_listing(l, d.img, dir).0;
    lemma_places_walked(l, d.img, dir, cs);
    law_listing_reads_slots(l, d.img, dir, l.places(dir, cs));
    let k = lemma_named_place(NamePolicy::Ascii, all, name);
    lemma_listed_stored(l, d, dir, cs, k);
    let m = law_update_then_found(l, d, dir, cs, name, f, patch, name);
    let q = patched_fields(f.min(), f.is_dir, patch);
    assert(stored_fields(q) == (MinFields { file_size: n, ..stored_fields(f.min()) }));
    assert((MinFields { name: f.name, ..stored_fields(q) }).at(f.chain) == (FatFields {
        file_size: n,
        ..f
    }));
    assert(all[m] == f);
}

/// What a record keeps of the stamps it is given, for years that stamps can hold:
/// the creation to a hundredth of a second, the modification to an even second,
/// the access date whole, and that there is none. Everything else is kept.
pub proof fn law_stored_fields_keep(p: MinFields)
    requires
        p.wf(),
        p.created matches Some(t) ==> year_fits(t.date.year as int),
        year_fits(p.modified.date.year as int),
        p.accessed matches Some(d) ==> year_fits(d.year as int),
    ensures
        stored_fields(p) == (MinFields {
            created: match p.created {
                Some(t) => Some(to_hundredths(t)),
                None => None,
            },
            modified: to_even_second(p.modified),
            accessed: p.accessed,
            ..p
        }),
{
    law_stamp_keeps(p.modified);
    if let Some(t) = p.created {
        law_stamp_keeps(t);
        law_date_word_round_trip(t.date);
    }
    if let Some(d) = p.accessed {
        law_date_word_round_trip(d);
    }
}

/// Rewriting the record of the entry that a lookup found, with other fields but
/// the same short name: the lookup then finds those fields, as their stored form
/// holds them, under the name it was found by, and lookups of other names find
/// what they found before.
proof fn lemma_rewrite_then_found(
    l: FatLayout,
    d: FatDisk,
    dir: FatDir,
    cs: Seq<u32>,
    name: Seq<char>,
    f: FatFields,
    q: MinFields,
    other: Seq<char>,
)
    requires
        l.dir_sound(d.img, dir, cs),
        l.child(d.img, dir, name) == Ok::<Option<FatFields>, FsError<()>>(Some(f)),
        q.wf(),
        q.sfn == f.sfn,
        fields_fit(l.fat_type, q),
        q.attributes & RAW_VOLUME_ID != RAW_VOLUME_ID,
    ensures
        ({
            let r = l.record_rewritten(d, f.chain, q);
            let g = (MinFields { name: f.name, ..stored_fields(q) }).at(f.chain);
            &&& r.out is Ok
            &&& l.dir_sound(r.disk.img, dir, cs)
            &&& l.child(r.disk.img, dir, name) == Ok::<Option<FatFields>, FsError<()>>(Some(g))
            &&& !NamePolicy::Ascii.same_name(f.name, other) ==> l.child(r.disk.img, dir, other)
                == l.child(d.img, dir, other)
        }),
{
    let ascii = NamePolicy::Ascii;
    lemma_places_walked(l, d.img, dir, cs);
    law_listing_reads_slots(l, d.img, dir, l.places(dir, cs));
    let all = fat_listing(l, d.img, dir).0;
    let m = lemma_named_place(ascii, all, name);
    law_rewrite_changes_one(l, d, dir, cs, m, q);
    let g = (MinFields { name: f.name, ..stored_fields(q) }).at(f.chain);
    lemma_named_after(ascii, all, m, g, name, other);
}

/// Flushing an open file whose entry is behind: a lookup of the file then reports
/// the length and the first cluster that the open file has, and each stamp that
/// it has, the creation to a hundredth of a second, the modification to an even
/// second and the access date whole; name, short name and attributes stay.
/// Lookups of other names find what they found before.
pub proof fn law_flush_then_found<D: Device>(
    r: Result<(), FileError<D::Error>>,
    before: FatFile,
    fs: FatVfs<D>,
    after: FatFile,
    now: FatVfs<D>,
    dir: FatDir,
    cs: Seq<u32>,
    name: Seq<char>,
    f: FatFields,
    other: Seq<char>,
) -> (g: FatFields)
    requires
        before.wf(),
        fat_file_flushed(r, before, fs, after, now),
        r is Ok,
        before.state.dirty,
        fs.layout.dir_sound(fs.dev.contents(), dir, cs),
        fs.layout.child(fs.dev.contents(), dir, name) == Ok::<Option<FatFields>, FsError<()>>(
            Some(f),
        ),
        before.writer.chain == f.chain,
        before.writer.props@.sfn == f.sfn,
        before.writer.props@.ea_handle == f.ea_handle,
        before.writer.props@.attributes == writer_fields(f).attributes,
        !f.is_dir,
        before.state.len <= u32::MAX,
        fs.layout.fat_type is FAT16 ==> before.state.first_cluster < 0x1_0000,
    ensures
        ({
            let l = fs.layout;
            let (x, a) = (fs.dev.contents(), now.dev.contents());
            let s = before.state;
            &&& l.child(a, dir, name) == Ok::<Option<FatFields>, FsError<()>>(Some(g))
            &&& !NamePolicy::Ascii.same_name(f.name, other) ==> l.child(a, dir, other) == l.child(
                x,
                dir,
                other,
            )
            &&& l.dir_sound(a, dir, cs)
            &&& g.name == f.name
            &&& g.sfn == f.sfn
            &&& g.chain == f.chain
            &&& !g.is_dir
            &&& unpacked_attributes(g.attributes as u16) == unpacked_attributes(f.attributes as u16)
            &&& g.file_size == s.len
            &&& g.data_cluster == s.first_cluster
            &&& s.times.created matches Some(t) ==> year_fits(t.date.year as int) ==> g.created == Some(
                to_hundredths(t),
            )
            &&& s.times.created is None && before.writer.props@.created == f.created ==> g.created == f.created
            &&& s.times.modified matches Some(t) ==> year_fits(t.date.year as int) ==> g.modified
                == to_even_second(t)
            &&& s.times.modified is None && before.writer.props@.modified == f.modified ==> g.modified == f.modified
            &&& s.times.accessed matches Some(t) ==> year_fits(t.year as int) ==> g.accessed == Some(t)
            &&& s.times.accessed is None && before.writer.props@.accessed == f.accessed ==> g.accessed == f.accessed
        }),
{
    let (l, d) = (fs.layout, fs.disk());
    let all = fat_listing(l, d.img, dir).0;
    lemma_places_walked(l, d.img, dir, cs);
    law_listing_reads_slots(l, d.img, dir, l.places(dir, cs));
    let m = lemma_named_place(NamePolicy::Ascii, all, name);
    lemma_listed_stored(l, d, dir, cs, m);
    let q = patched_fields(
        before.writer.props@,
        before.writer.is_dir,
        before.state.bookkeeping(None),
    );
    let kept = unpacked_attributes(f.attributes as u16);
    super::move_laws::lemma_packed_attributes(kept, false);
    let bits = packed_attributes(kept, false);
    assert(q.attributes == bits as u8);
    crate::attrs::law_attributes_round_trip(kept, false);
    assert(bits & 0x0008u16 != 0x0008u16 && bits <= 0x3F ==> (bits as u8) & 0x08u8 != 0x08u8)
        by (bit_vector);
    lemma_rewrite_then_found(l, d, dir, cs, name, f, q, other);
    lemma_stamps_stored(q, f, before.state.times);
    (MinFields { name: f.name, ..stored_fields(q) }).at(f.chain)
}

/// Each stamp of a record is stored on its own.
proof fn lemma_stamps_stored(q: MinFields, f: FatFields, t: EntryTimes)
    requires
        q.wf(),
        stored_fields(f.min()) == f.min(),
        t.created matches Some(c) ==> q.created == Some(c),
        t.modified matches Some(c) ==> q.modified == c,
        t.accessed matches Some(c) ==> q.accessed == Some(c),
    ensures
        ({
            let s = stored_fields(q);
            &&& t.created matches Some(c) ==> year_fits(c.date.year as int) ==> s.created == Some(
                to_hundredths(c),
            )
            &&& q.created == f.created ==> s.created == f.created
            &&& t.modified matches Some(c) ==> year_fits(c.date.year as int) ==> s.modified
                == to_even_second(c)
            &&& q.modified == f.modified ==> s.modified == f.modified
            &&& t.accessed matches Some(c) ==> year_fits(c.year as int) ==> s.accessed == Some(c)
            &&& q.accessed == f.accessed ==> s.accessed == f.accessed
        }),
{
    assert(stored_fields(f.min()).created == f.created);
    assert(stored_fields(f.min()).modified == f.modified);
    assert(stored_fields(f.min()).accessed == f.accessed);
    if let Some(c) = t.created {
        if year_fits(c.date.year as int) {
            law_stamp_keeps(c);
            law_date_word_round_trip(c.date);
        }
    }
    if let Some(c) = t.modified {
        if year_fits(c.date.year as int) {
            law_stamp_keeps(c);
        }
    }
    if let Some(c) = t.accessed {
        if year_fits(c.year as int) {
            law_date_word_round_trip(c);
        }
    }
}

/// Changing metadata of the entry that a lookup found: the lookup then finds it
/// with what was given, the creation to a hundredth of a second, the modification
/// to an even second and the access date whole, and with everything else as it
/// was; a directory stays one. Lookups of other names find what they found
/// before.
pub proof fn law_metadata_change_then_found(
    l: FatLayout,
    d: FatDisk,
    dir: FatDir,
    cs: Seq<u32>,
    name: Seq<char>,
    f: FatFields,
    patch: EntryPatch,
    other: Seq<char>,
) -> (g: FatFields)
    requires
        l.dir_sound(d.img, dir, cs),
        l.child(d.img, dir, name) == Ok::<Option<FatFields>, FsError<()>>(Some(f)),
        patch.wf(),
        l.fat_type is FAT16 ==> (patch.first_cluster matches Some(c) ==> c < 0x1_0000),
    ensures
        ({
            let r = l.entry_updated(d, f, patch);
            let a = r.disk.img;
            &&& r.out is Ok
            &&& l.child(a, dir, name) == Ok::<Option<FatFields>, FsError<()>>(Some(g))
            &&& !NamePolicy::Ascii.same_name(f.name, other) ==> l.child(a, dir, other) == l.child(
                d.img,
                dir,
                other,
            )
            &&& g.name == f.name
            &&& g.sfn == f.sfn
            &&& g.chain == f.chain
            &&& g.is_dir == f.is_dir
            &&& g.nt_res == f.nt_res
            &&& g.ea_handle == f.ea_handle
            &&& g.data_cluster == (match patch.first_cluster {
                Some(c) => c,
                None => f.data_cluster,
            })
            &&& patch.size is None ==> g.file_size == f.file_size
            &&& patch.size matches Some(n) ==> g.file_size == (if n <= 0xFFFF_FFFF {
                n as int
            } else {
                0xFFFF_FFFF
            })
            &&& patch.attrs is None ==> g.attributes == f.attributes
            &&& patch.attrs matches Some(x) ==> unpacked_attributes(g.attributes as u16) == x
            &&& patch.times is None ==> g.created == f.created && g.modified == f.modified
                && g.accessed == f.accessed
            &&& patch.times matches Some(t) ==> shows_stamps(g, f, t)
        }),
{
    let all = fat_listing(l, d.img, dir).0;
    lemma_places_walked(l, d.img, dir, cs);
    law_listing_reads_slots(l, d.img, dir, l.places(dir, cs));
    let m = lemma_named_place(NamePolicy::Ascii, all, name);
    lemma_listed_stored(l, d, dir, cs, m);
    let q = patched_fields(f.min(), f.is_dir, patch);
    if let Some(x) = patch.attrs {
        super::move_laws::lemma_packed_attributes(x, f.is_dir);
        crate::attrs::law_attributes_round_trip(x, f.is_dir);
        let bits = packed_attributes(x, f.is_dir);
        assert(bits & 0x0008u16 != 0x0008u16 && bits <= 0x3F ==> (bits as u8) & 0x08u8 != 0x08u8)
            by (bit_vector);
    }
    lemma_rewrite_then_found(l, d, dir, cs, name, f, q, other);
    let t = match patch.times {
        Some(t) => t,
        None => EntryTimes { created: None, modified: None, accessed: None },
    };
    lemma_stamps_stored(q, f, t);
    (MinFields { name: f.name, ..stored_fields(q) }).at(f.chain)
}

/// `g` has the stamps of `t`, as far as its record keeps them, and those of `f`
/// where `t` has none.
pub open spec fn shows_stamps(g: FatFields, f: FatFields, t: EntryTimes) -> bool {
    &&& t.created is None ==> g.created == f.created
    &&& t.created matches Some(c) ==> year_fits(c.date.year as int) ==> g.created == Some(
        to_hundredths(c),
    )
    &&& t.modified is None ==> g.modified == f.modified
    &&& t.modified matches Some(c) ==> year_fits(c.date.year as int) ==> g.modified
        == to_even_second(c)
    &&& t.accessed is None ==> g.accessed == f.accessed
    &&& t.accessed matches Some(c) ==> year_fits(c.year as int) ==> g.accessed == Some(c)
}

} // verus!
