//! Where the slots of an entry hold what, and how they are read.

use vstd::prelude::*;

use super::dir_slots::{FatDir, SlotChain, SlotPos};
use super::entry::{
    entry_slots, lfn_group, lfn_order, lfn_padded_unit, lfn_slot_bytes, lfn_unit_pos, needs_lfn,
    record_image, sfn_record, FatFields, MinFields,
};
use super::layout::{FatDisk, FatLayout};
use super::name_laws::{
    lemma_lfn_order, lemma_lfn_slot_exists, lemma_record_exists, lemma_trimmed_padding,
    lfn_storable,
};
use super::sfn::blank_padded;
use super::slot_iter::{
    entry_of, joined, lfn_folded, name_for, no_lfn, raw_of, slot_seen, slot_unit, slot_units,
    units_before_nul, LfnState, LfnStep, SlotState,
};
use super::slot_laws::lemma_raw_exists;
use crate::calendar::{epoch_datetime, Date, PrimitiveDateTime, Time};
use crate::codec::FixedCodec;
use crate::codec::fat::dir_entry::RawDirEntry;
use crate::codec::fat::fat_entry::FatEntry;
use crate::codec::fat::sfn_layout::{sfn_checksum_of, unescaped, Sfn};
use crate::codec::fat::types::FatType;
use crate::codec::stamp_laws::{law_stamp_layout, year_fits};
use crate::codec::time::datetime_of_stamp;
use crate::error::FsError;
use crate::text::{decoded_utf16, utf16_of};

verus! {

/// The two bytes at `at`, the lower first.
pub open spec fn half(b: Seq<u8>, at: int) -> int {
    b[at] + 0x100 * b[at + 1]
}

/// The offset of the units of a long-name slot, one by one.
pub open spec fn unit_offsets() -> Seq<int> {
    seq![1, 3, 5, 7, 9, 14, 16, 18, 20, 22, 24, 28, 30]
}

proof fn lemma_unit_offset(k: int)
    requires
        0 <= k < 13,
    ensures
        unit_offsets()[k] == lfn_unit_pos(k),
{
}

/// An entry's long-name slots count down to one, the first of them marked; each
/// holds thirteen units of the name, the highest part first, with a zero behind
/// the name's end and all bits set from there on. Each has the attributes of no
/// file and the checksum of the short name. The short-name record comes last.
pub proof fn law_long_name_slots(p: MinFields, i: int, j: int)
    requires
        lfn_storable(p.name),
        0 <= i < entry_slots(p).len() - 1,
        0 <= j < 13,
    ensures
        ({
            let units = utf16_of(p.name);
            let n = entry_slots(p).len() - 1;
            let b = entry_slots(p)[i];
            let k = 13 * (n - 1 - i) + j;
            &&& needs_lfn(p)
            &&& 13 * (n - 1) < units.len() <= 13 * n
            &&& b.len() == 32
            &&& b[0] == n - i + (if i == 0 {
                0x40int
            } else {
                0
            })
            &&& b[11] == 0x0F && b[12] == 0 && b[26] == 0 && b[27] == 0
            &&& b[13] == sfn_checksum_of(p.sfn.raw())
            &&& half(b, unit_offsets()[j]) == (if k < units.len() {
                units[k] as int
            } else if k == units.len() {
                0
            } else {
                0xFFFF
            })
        }),
{
    let units = utf16_of(p.name);
    let n = entry_slots(p).len() - 1;
    let g = n - 1 - i;
    let group = lfn_group(units, g);
    let sum = sfn_checksum_of(p.sfn.raw()) as u8;
    lemma_lfn_slot_exists(group, lfn_order(g, n), sum);
    lemma_lfn_order(g, n);
    lemma_unit_offset(j);
    let b = entry_slots(p)[i];
    assert(b == lfn_slot_bytes(group, lfn_order(g, n), sum));
    assert(half(b, lfn_unit_pos(j)) == lfn_padded_unit(group, j));
    lemma_checksum_range(p.sfn.raw());
}

proof fn lemma_checksum_range(b: Seq<u8>)
    ensures
        0 <= sfn_checksum_of(b) < 0x100,
{
}

/// The two words of a stamp are those of an instant: from the highest bit down,
/// the years since 1980, the month and the day; the hour, the minute and half the
/// second.
pub open spec fn words_of(date: int, time: int, dt: PrimitiveDateTime) -> bool {
    &&& date == (dt.date.year - 1980) * 0x200 + dt.date.month * 0x20 + dt.date.day
    &&& time == dt.time.hour * 0x800 + dt.time.minute * 0x20 + dt.time.second as int / 2
}

/// Where the short-name record of an entry holds its fields.
pub proof fn law_short_name_record(p: MinFields)
    requires
        p.wf(),
        p.created matches Some(t) ==> year_fits(t.date.year as int),
        year_fits(p.modified.date.year as int),
        p.accessed matches Some(d) ==> year_fits(d.year as int),
    ensures
        ({
            let b = entry_slots(p).last();
            &&& b.len() == 32
            &&& b.subrange(0, 11) == p.sfn.name@ + p.sfn.ext@
            &&& b[11] == p.attributes
            &&& b[12] == p.nt_res
            &&& match p.created {
                None => b[13] == 0 && half(b, 14) == 0 && half(b, 16) == 0,
                Some(t) => {
                    &&& b[13] == 100 * (t.time.second as int % 2) + t.time.nanosecond as int
                        / 10_000_000
                    &&& words_of(half(b, 16), half(b, 14), t)
                },
            }
            &&& match p.accessed {
                None => half(b, 18) == 0,
                Some(d) => half(b, 18) == (d.year - 1980) * 0x200 + d.month * 0x20 + d.day,
            }
            &&& words_of(half(b, 24), half(b, 22), p.modified)
            &&& half(b, 20) == (match p.ea_handle {
                Some(h) => h as int,
                None => p.data_cluster as int / 0x1_0000,
            })
            &&& half(b, 26) == p.data_cluster as int % 0x1_0000
            &&& half(b, 28) + 0x1_0000 * half(b, 30) == p.file_size
        }),
{
    let rec = sfn_record(p);
    lemma_record_exists(rec);
    let b = entry_slots(p).last();
    assert(b == record_image(rec));
    assert(b.subrange(0, 11) =~= b.subrange(0, 8) + b.subrange(8, 11));
    if let Some(t) = p.created {
        law_stamp_layout(t);
    }
    law_stamp_layout(p.modified);
}

/// A short-name record is read by the same places. On FAT32 the two halves of the
/// first cluster stand apart; on FAT16 the upper one is no part of it. A record
/// without a readable time of change is taken to be of the first instant there is.
pub proof fn law_short_name_record_read(
    t: FatType,
    b: Seq<u8>,
    name: Seq<char>,
    chain: SlotChain,
)
    requires
        b.len() == 32,
    ensures
        ({
            let f = entry_of(t, raw_of(b), name, chain);
            &&& f.name == name && f.chain == chain
            &&& f.sfn.name@ == b.subrange(0, 8) && f.sfn.ext@ == b.subrange(8, 11)
            &&& f.attributes == b[11]
            &&& f.is_dir <==> b[11] & 0x10 == 0x10
            &&& f.nt_res == b[12]
            &&& f.file_size == half(b, 28) + 0x1_0000 * half(b, 30)
            &&& t == FatType::FAT32 ==> {
                &&& f.data_cluster == half(b, 26) + 0x1_0000 * half(b, 20)
                &&& f.ea_handle is None
            }
            &&& t == FatType::FAT16 ==> {
                &&& f.data_cluster == half(b, 26)
                &&& f.ea_handle == Some(half(b, 20) as u16)
            }
            &&& f.modified == (match datetime_of_stamp(half(b, 24) * 0x1_0000 + half(b, 22), 0) {
                Some(at) => at,
                None => PrimitiveDateTime {
                    date: Date { year: 1980, month: 1, day: 1 },
                    time: Time { hour: 0, minute: 0, second: 0, nanosecond: 0 },
                },
            })
            &&& half(b, 16) == 0 ==> f.created is None
            &&& half(b, 16) != 0 ==> f.created == datetime_of_stamp(
                half(b, 16) * 0x1_0000 + half(b, 14),
                b[13] as int,
            )
        }),
{
    lemma_raw_exists(b);
    assert(epoch_datetime().date.year == 1980);
}

/// The slot is of a long name, and its spare bytes are clear.
pub open spec fn proper(b: Seq<u8>) -> bool {
    b.len() == 32 && b[11] == 0x0F && b[12] == 0 && b[26] == 0 && b[27] == 0
}

/// The state in which the slots leave a reader that sees them one by one.
pub open spec fn state_behind(st: LfnState, slots: Seq<Seq<u8>>) -> LfnState
    decreases slots.len(),
{
    if slots.len() == 0 {
        st
    } else {
        lfn_folded(state_behind(st, slots.drop_last()), slots.last()).0
    }
}

/// The units that a long-name slot holds: those before the first zero.
pub open spec fn holds_units(b: Seq<u8>, units: Seq<u16>) -> bool {
    &&& units.len() <= 13
    &&& forall|k: int|
        0 <= k < units.len() ==> #[trigger] units[k] != 0 && units[k] == half(b, unit_offsets()[k])
    &&& units.len() < 13 ==> half(b, unit_offsets()[units.len() as int]) == 0
}

proof fn lemma_held_units(b: Seq<u8>, units: Seq<u16>, k: int)
    requires
        holds_units(b, units),
        0 <= k <= units.len(),
    ensures
        units_before_nul(b, k) == units.len(),
        k == 0 ==> slot_units(b) == units,
    decreases units.len() - k,
{
    if k < units.len() {
        lemma_unit_offset(k);
        assert(units[k] != 0);
        assert(slot_unit(b, k) == units[k]);
        lemma_held_units(b, units, k + 1);
    } else if k < 13 {
        lemma_unit_offset(k);
        assert(slot_unit(b, k) == 0);
    }
    if k == 0 {
        assert forall|i: int| 0 <= i < units.len() implies slot_units(b)[i] == units[i] by {
            lemma_unit_offset(i);
            assert(units[i] != 0);
        }
        assert(slot_units(b) =~= units);
    }
}

/// `slots` are the long-name slots of `n` parts that hold the parts in `parts`,
/// numbered down from `n`, the first of them marked, all with the checksum `sum`.
pub open spec fn spells(slots: Seq<Seq<u8>>, n: int, parts: Seq<Seq<u16>>, sum: u8) -> bool {
    &&& slots.len() == parts.len() <= n
    &&& 1 <= n <= 20
    &&& forall|i: int|
        0 <= i < slots.len() ==> {
            let b = #[trigger] slots[i];
            &&& proper(b)
            &&& b[0] == n - i + (if i == 0 {
                0x40int
            } else {
                0
            })
            &&& b[13] == sum
            &&& holds_units(b, parts[i])
        }
}

proof fn lemma_spelled(st: LfnState, slots: Seq<Seq<u8>>, n: int, parts: Seq<Seq<u16>>, sum: u8)
    requires
        spells(slots, n, parts, sum),
        slots.len() > 0,
    ensures
        state_behind(st, slots) == (LfnState {
            pieces: parts,
            checksum: Some(sum),
            next_ord: (n - slots.len() + 1) as u8,
        }),
    decreases slots.len(),
{
    let k = slots.len() - 1;
    let b = slots[k];
    assert(proper(b));
    lemma_held_units(b, parts[k], 0);
    let rest = slots.drop_last();
    let before = parts.drop_last();
    assert(spells(rest, n, before, sum)) by {
        assert forall|i: int| 0 <= i < rest.len() implies {
            let b = #[trigger] rest[i];
            &&& proper(b)
            &&& b[0] == n - i + (if i == 0 {
                0x40int
            } else {
                0
            })
            &&& b[13] == sum
            &&& holds_units(b, before[i])
        } by {
            assert(slots[i] == rest[i]);
        }
    }
    if k == 0 {
        assert(state_behind(st, rest) == st);
        assert(seq![parts[0]] =~= parts);
    } else {
        lemma_spelled(st, rest, n, before, sum);
        assert(before.push(parts[k]) =~= parts);
    }
}

/// Long-name slots that count down from their number to one, with the checksum of
/// the short name behind them, give the entry the name that they spell, from the
/// last slot to the first; whatever came before them does not matter.
pub proof fn law_long_name_read(
    st: LfnState,
    slots: Seq<Seq<u8>>,
    parts: Seq<Seq<u16>>,
    e: RawDirEntry,
)
    requires
        slots.len() > 0,
        spells(slots, slots.len() as int, parts, sfn_checksum_of(e.sfn.raw()) as u8),
        decoded_utf16(joined(parts)) is Some,
    ensures
        name_for(state_behind(st, slots), e) == decoded_utf16(joined(parts))->0,
{
    lemma_spelled(
        st,
        slots,
        slots.len() as int,
        parts,
        sfn_checksum_of(e.sfn.raw()) as u8,
    );
}

/// The entry goes by its short name where its long-name slots are of another short
/// name, are not complete, or where there are none.
pub proof fn law_short_name_read(
    st: LfnState,
    slots: Seq<Seq<u8>>,
    n: int,
    parts: Seq<Seq<u16>>,
    sum: u8,
    e: RawDirEntry,
)
    requires
        slots.len() > 0,
        spells(slots, n, parts, sum),
        sum != sfn_checksum_of(e.sfn.raw()) || slots.len() < n,
    ensures
        name_for(state_behind(st, slots), e) == e.sfn.text(),
        name_for(no_lfn(), e) == e.sfn.text(),
{
    lemma_spelled(st, slots, n, parts, sum);
    lemma_checksum_range(e.sfn.raw());
}

/// A slot that is not proper, one marked as the first that is not numbered from 1
/// to 20, and one that does not carry on from the slot before it, with the number
/// below and the same checksum, drops the long name gathered so far.
pub proof fn law_stray_slot_drops_name(st: LfnState, b: Seq<u8>)
    requires
        b.len() == 32,
    ensures
        ({
            let n = b[0] & 0xBF;
            let first = b[0] & 0x40 == 0x40;
            let stray = {
                ||| b[12] != 0 || b[26] != 0 || b[27] != 0
                ||| first && (n == 0 || n > 20)
                ||| !first && (st.next_ord < 2 || n != st.next_ord - 1 || st.checksum != Some(
                    b[13],
                ))
            };
            &&& stray <==> lfn_folded(st, b).1 == LfnStep::Orphan
            &&& stray ==> lfn_folded(st, b).0 == no_lfn()
            &&& !stray ==> {
                let next = lfn_folded(st, b).0;
                &&& next.next_ord == n
                &&& next.checksum == Some(b[13])
                &&& first ==> next.pieces.len() == 1
                &&& !first ==> next.pieces.drop_last() == st.pieces
            }
        }),
{
    let o = b[0];
    assert((o & 0x40 == 0x40u8) == ((o / 0x40) % 2 == 1) && (o & 0x40 == 0x40u8 ==> o & 0xBF == o
        - 0x40) && (o & 0x40 != 0x40u8 ==> o & 0xBF == o)) by (bit_vector);
    if lfn_folded(st, b).1 == LfnStep::Continued {
        assert(st.pieces.push(slot_units(b)).drop_last() =~= st.pieces);
    }
}

/// What a slot means to a listing. One that begins with zero ends it. A deleted
/// one, a long-name slot and a volume label show no entry. Any other slot shows
/// one, which spans the slots since its long name began.
pub proof fn law_slot_kinds(l: FatLayout, img: Seq<u8>, st: SlotState, pos: SlotPos, b: Seq<u8>)
    requires
        b.len() == 32,
    ensures
        ({
            let (shown, next) = slot_seen(l, img, st, pos, b);
            let start = match st.set_start {
                Some(at) => at,
                None => pos,
            };
            &&& b[0] == 0x00 ==> shown == Ok::<Option<FatFields>, FsError<()>>(None)
                && next.cursor is None
            &&& b[0] != 0x00 ==> match l.slot_after(img, pos) {
                Err(x) => shown == Err::<Option<FatFields>, FsError<()>>(x),
                Ok(after) => {
                    &&& next.cursor == after
                    &&& b[0] == 0xE5 || b[11] & 0x08 == 0x08 ==> shown == Ok::<
                        Option<FatFields>,
                        FsError<()>,
                    >(None)
                    &&& b[0] != 0xE5 && b[11] & 0x08 != 0x08 ==> shown == Ok::<
                        Option<FatFields>,
                        FsError<()>,
                    >(
                        Some(
                            entry_of(
                                l.fat_type,
                                raw_of(b),
                                name_for(st.lfn, raw_of(b)),
                                SlotChain { first: start, len: (st.set_len + 1) as u16 },
                            ),
                        ),
                    )
                    &&& b[0] == 0xE5 || b[11] != 0x0F ==> next.lfn == no_lfn() && next.set_len == 0
                        && next.set_start is None
                    &&& b[0] != 0xE5 && b[11] == 0x0F ==> {
                        let (lfn, step) = lfn_folded(st.lfn, b);
                        &&& next.lfn == lfn
                        &&& step == LfnStep::StartedNew ==> next.set_start == Some(pos)
                            && next.set_len == 1
                        &&& step == LfnStep::Continued ==> next.set_start == Some(start)
                            && next.set_len == st.set_len + 1
                        &&& step == LfnStep::Orphan ==> next.set_start is None && next.set_len == 0
                    }
                },
            }
        }),
{
    assert(0x0Fu8 & 0x08 == 0x08) by (bit_vector);
    law_stray_slot_drops_name(st.lfn, b);
}

/// How a short name is shown: its base, and behind a dot its extension if it has
/// one, both without the blanks behind them. A byte that is not ASCII is shown as
/// the replacement character; so is a first byte 5, which stands for 0xE5.
pub proof fn law_short_name_shown(sfn: Sfn, base: Seq<u8>, ext: Seq<u8>)
    requires
        0 < base.len() <= 8,
        ext.len() <= 3,
        forall|i: int| 0 <= i < base.len() ==> #[trigger] base[i] > 0x20 || base[i] == 0x05,
        base.last() > 0x20,
        forall|i: int| 0 <= i < ext.len() ==> #[trigger] ext[i] > 0x20,
        forall|i: int|
            0 <= i < 8 ==> #[trigger] sfn.name@[i] == (if i < base.len() {
                base[i]
            } else {
                0x20u8
            }),
        forall|i: int|
            0 <= i < 3 ==> #[trigger] sfn.ext@[i] == (if i < ext.len() {
                ext[i]
            } else {
                0x20u8
            }),
    ensures
        ({
            let n = base.len() as int;
            &&& sfn.text().len() == (if ext.len() == 0 {
                n
            } else {
                n + 1 + ext.len()
            })
            &&& forall|i: int|
                0 <= i < n ==> #[trigger] sfn.text()[i] == (if base[i] < 0x80 && !(i == 0
                    && base[0] == 0x05) {
                    base[i] as char
                } else {
                    '\u{FFFD}'
                })
            &&& ext.len() > 0 ==> sfn.text()[n] == '.'
            &&& forall|i: int|
                0 <= i < ext.len() ==> sfn.text()[n + 1 + i] == (if #[trigger] ext[i] < 0x80 {
                    ext[i] as char
                } else {
                    '\u{FFFD}'
                })
        }),
{
    let shown = if base[0] == 0x05 {
        base.update(0, 0xE5)
    } else {
        base
    };
    assert(shown.last() > 0x20);
    assert(unescaped(sfn.name@) =~= blank_padded(shown, 8));
    assert(sfn.ext@ =~= blank_padded(ext, 3));
    lemma_trimmed_padding(shown, 8);
    if ext.len() > 0 {
        assert(ext.last() == ext[ext.len() - 1]);
    }
    lemma_trimmed_padding(ext, 3);
}

/// The slots of a directory follow one another, 32 bytes apart: in the fixed root
/// up to its end, in a cluster up to the cluster's end and then from the start of
/// the next cluster of the chain.
pub proof fn law_slots_follow(l: FatLayout, img: Seq<u8>, c: u32, i: int)
    requires
        0 <= i,
        l.cluster_pos(c as int) + l.props.cluster_size <= 0xFFFF_FFFF_FFFF,
        32 * (i + 1) <= l.props.cluster_size,
        l.props.cluster_size % 32 == 0,
    ensures
        ({
            let at = l.cluster_pos(c as int);
            let pos = SlotPos { offset: (at + 32 * i) as u64, cluster: Some(c) };
            &&& l.first_slot(FatDir::Clusters(c)) == (SlotPos {
                offset: at as u64,
                cluster: Some(c),
            })
            &&& 32 * (i + 1) < l.props.cluster_size ==> l.slot_after(img, pos) == Ok::<
                Option<SlotPos>,
                FsError<()>,
            >(Some(SlotPos { offset: (at + 32 * (i + 1)) as u64, cluster: Some(c) }))
            &&& 32 * (i + 1) == l.props.cluster_size ==> match l.fat_read(img, c as int) {
                Err(e) => l.slot_after(img, pos) == Err::<Option<SlotPos>, FsError<()>>(e),
                Ok(FatEntry::Next(n)) => l.slot_after(img, pos) == Ok::<
                    Option<SlotPos>,
                    FsError<()>,
                >(Some(l.first_slot(FatDir::Clusters(n)))),
                Ok(_) => l.slot_after(img, pos) == Ok::<Option<SlotPos>, FsError<()>>(None),
            }
        }),
{
}

/// The fixed root directory has as many slots as fit its sectors, from its first
/// sector on.
pub proof fn law_root_slots_follow(l: FatLayout, img: Seq<u8>, i: int)
    requires
        0 <= i,
        ({
            let n = l.boot.root_sectors() * l.props.sector_size;
            &&& 32 * (i + 1) <= n
            &&& n % 32 == 0
            &&& l.props.first_root_dir_sector * l.props.sector_size + n <= 0xFFFF_FFFF_FFFF
        }),
    ensures
        ({
            let n = l.boot.root_sectors() * l.props.sector_size;
            let at = l.props.first_root_dir_sector * l.props.sector_size;
            let pos = SlotPos { offset: (at + 32 * i) as u64, cluster: None };
            &&& l.first_slot(FatDir::FixedRoot) == (SlotPos { offset: at as u64, cluster: None })
            &&& l.slot_after(img, pos) == Ok::<Option<SlotPos>, FsError<()>>(
                if 32 * (i + 1) < n {
                    Some(SlotPos { offset: (at + 32 * (i + 1)) as u64, cluster: None })
                } else {
                    None
                },
            )
        }),
{
    let (a, b) = (l.props.first_root_dir_sector as int, l.props.sector_size as int);
    assert(0 <= a * b) by (nonlinear_arith)
        requires
            0 <= a,
            0 <= b,
    ;
}

/// The slot at `ps[i]` begins with a byte that marks it free.
pub open spec fn is_free(l: FatLayout, img: Seq<u8>, ps: Seq<SlotPos>, i: int) -> bool {
    l.slot_read(img, ps[i]) matches Ok(b) && (b[0] == 0x00 || b[0] == 0xE5)
}

/// All of the `n` slots from `ps[i]` on are free.
pub open spec fn room_at(l: FatLayout, img: Seq<u8>, ps: Seq<SlotPos>, i: int, n: int) -> bool {
    forall|k: int| i <= k < i + n ==> #[trigger] is_free(l, img, ps, k)
}

proof fn lemma_first_room(
    l: FatLayout,
    img: Seq<u8>,
    ps: Seq<SlotPos>,
    i: int,
    n: int,
    j: int,
    len: int,
)
    requires
        1 <= n,
        0 <= i,
        i + n <= ps.len() <= 65535,
        room_at(l, img, ps, i, n),
        forall|k: int| 0 <= k < i ==> !#[trigger] room_at(l, img, ps, k, n),
        forall|k: int| 0 <= k < ps.len() ==> l.slot_read(img, #[trigger] ps[k]) is Ok,
        forall|k: int|
            0 <= k < ps.len() - 1 ==> l.slot_after(img, #[trigger] ps[k]) == Ok::<
                Option<SlotPos>,
                FsError<()>,
            >(Some(ps[k + 1])),
        0 <= len < n,
        0 <= j - len <= i,
        j < i + n,
        room_at(l, img, ps, j - len, len),
    ensures
        ({
            let start = if len == 0 {
                None
            } else {
                Some(ps[j - len])
            };
            l.slots_searched(img, ps[j], start, len, j, n) matches Ok(run) && run.found == Some(ps[i])
        }),
    decreases i + n - j,
{
    let r = j - len;
    assert(l.slot_read(img, ps[j]) is Ok);
    if is_free(l, img, ps, j) {
        if len + 1 >= n {
            assert(room_at(l, img, ps, r, n));
            assert(r == i);
        } else {
            assert(room_at(l, img, ps, r, len + 1));
            assert(l.slot_after(img, ps[j]) == Ok::<Option<SlotPos>, FsError<()>>(Some(ps[j + 1])));
            lemma_first_room(l, img, ps, i, n, j + 1, len + 1);
        }
    } else {
        assert(j < i);
        assert(l.slot_after(img, ps[j]) == Ok::<Option<SlotPos>, FsError<()>>(Some(ps[j + 1])));
        lemma_first_room(l, img, ps, i, n, j + 1, 0);
    }
}

/// A new entry goes into the first run of free slots of its directory that is long
/// enough: the directory does not grow while there is one.
pub proof fn law_first_room_is_taken(
    l: FatLayout,
    d: FatDisk,
    dir: FatDir,
    ps: Seq<SlotPos>,
    i: int,
    n: int,
)
    requires
        1 <= n,
        0 <= i,
        i + n <= ps.len() <= 65535,
        ps[0] == l.first_slot(dir),
        room_at(l, d.img, ps, i, n),
        forall|k: int| 0 <= k < i ==> !#[trigger] room_at(l, d.img, ps, k, n),
        forall|k: int| 0 <= k < ps.len() ==> l.slot_read(d.img, #[trigger] ps[k]) is Ok,
        forall|k: int|
            0 <= k < ps.len() - 1 ==> l.slot_after(d.img, #[trigger] ps[k]) == Ok::<
                Option<SlotPos>,
                FsError<()>,
            >(Some(ps[k + 1])),
    ensures
        l.slots_reserved(d, dir, n).out == Ok::<SlotPos, FsError<()>>(ps[i]),
        l.slots_reserved(d, dir, n).disk == d,
{
    lemma_first_room(l, d.img, ps, i, n, 0, 0);
}

} // verus!
