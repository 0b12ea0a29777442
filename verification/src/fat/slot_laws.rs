//! How a directory's listing follows its slots: writing an entry into free
//! slots adds that entry, deleting an entry's slots takes it out, and the
//! others stay, in their order.

use vstd::prelude::*;

use super::dir_slots::{FatDir, SlotChain, SlotPos, SLOT_DELETED, SLOT_END};
use super::entry::{
    entry_slots, lfn_group, lfn_groups, lfn_order, lfn_slot_bytes, needs_lfn, record_image,
    sfn_record, FatFields, MinFields,
};
use super::layout::FatLayout;
use super::name_laws::{
    fields_fit, law_exact_sfn_displayed, law_record_reads_back, lemma_lfn_name_complete,
    lemma_lfn_slot_seen, lfn_seen, lfn_storable, stored_fields,
};
use super::slot_iter::{
    entry_of, fat_listing, lfn_folded, listed_from, listing_start, name_for, no_lfn, raw_of,
    stepped, LfnState, LfnStep, SlotState, MAX_DIR_SLOTS,
};
use crate::bytes::{le16, le32};
use crate::codec::FixedCodec;
use crate::codec::fat::dir_entry::{RawAttributes, RawDirEntry, RAW_LFN, RAW_VOLUME_ID};
use crate::codec::fat::entry_time::{
    accessed_of, creation_of, EntryCreationTime, EntryLastAccessedTime, EntryModificationTime,
};
use crate::codec::fat::sfn_layout::{sfn_checksum_of, Sfn};
use crate::codec::fat::types::FatType;
use crate::codec::time::datetime_of_stamp;
use crate::error::FsError;
use crate::text::utf16_of;

verus! {

/// What a reader of slots remembers: the long name in progress, and where the
/// set it belongs to started.
pub struct Scan {
    pub lfn: LfnState,
    pub set_start: Option<SlotPos>,
    pub set_len: int,
}

/// Nothing in progress.
pub open spec fn idle() -> Scan {
    Scan { lfn: no_lfn(), set_start: None, set_len: 0 }
}

/// Looking at one slot that does not end the directory: the entry that it
/// completes, if any, and what is remembered then.
pub open spec fn looked_at(t: FatType, st: Scan, pos: SlotPos, slot: Seq<u8>) -> (
    Option<FatFields>,
    Scan,
) {
    let start = match st.set_start {
        Some(s) => s,
        None => pos,
    };
    if slot[0] == SLOT_DELETED {
        (None, idle())
    } else if slot[11] == RAW_LFN {
        let (lfn, step) = lfn_folded(st.lfn, slot);
        match step {
            LfnStep::Continued => (
                None,
                Scan { lfn, set_start: Some(start), set_len: st.set_len + 1 },
            ),
            LfnStep::StartedNew => (None, Scan { lfn, set_start: Some(pos), set_len: 1 }),
            LfnStep::Orphan => (None, idle()),
        }
    } else if slot[11] & RAW_VOLUME_ID == RAW_VOLUME_ID {
        (None, idle())
    } else {
        let e = raw_of(slot);
        let chain = SlotChain { first: start, len: (st.set_len + 1) as u16 };
        (Some(entry_of(t, e, name_for(st.lfn, e), chain)), idle())
    }
}

/// An optional entry as a list.
pub open spec fn as_list(f: Option<FatFields>) -> Seq<FatFields> {
    match f {
        Some(f) => seq![f],
        None => seq![],
    }
}

/// The entries found in the slots `ss`, which lie at `ps`, from slot `i` on.
pub open spec fn scanned(t: FatType, ps: Seq<SlotPos>, ss: Seq<Seq<u8>>, i: int, st: Scan) -> Seq<
    FatFields,
>
    decreases ss.len() - i,
{
    if i < 0 || i >= ss.len() || ss[i][0] == SLOT_END {
        seq![]
    } else {
        let (f, next) = looked_at(t, st, ps[i], ss[i]);
        as_list(f) + scanned(t, ps, ss, i + 1, next)
    }
}

/// What is remembered after the slots `i..k`, none of which ends the
/// directory.
pub open spec fn scan_state(
    t: FatType,
    ps: Seq<SlotPos>,
    ss: Seq<Seq<u8>>,
    i: int,
    k: int,
    st: Scan,
) -> Scan
    decreases k - i,
{
    if i >= k {
        st
    } else {
        scan_state(t, ps, ss, i + 1, k, looked_at(t, st, ps[i], ss[i]).1)
    }
}

/// The entries completed in the slots `i..k`, none of which ends the
/// directory.
pub open spec fn scan_found(
    t: FatType,
    ps: Seq<SlotPos>,
    ss: Seq<Seq<u8>>,
    i: int,
    k: int,
    st: Scan,
) -> Seq<FatFields>
    decreases k - i,
{
    if i >= k {
        seq![]
    } else {
        let (f, next) = looked_at(t, st, ps[i], ss[i]);
        as_list(f) + scan_found(t, ps, ss, i + 1, k, next)
    }
}

/// No slot in `i..k` ends the directory.
pub open spec fn goes_on(ss: Seq<Seq<u8>>, i: int, k: int) -> bool {
    forall|j: int| i <= j < k ==> (#[trigger] ss[j])[0] != SLOT_END
}

/// Reading in two goes: up to slot `k`, then from there on.
pub proof fn lemma_scan_split(
    t: FatType,
    ps: Seq<SlotPos>,
    ss: Seq<Seq<u8>>,
    i: int,
    k: int,
    st: Scan,
)
    requires
        0 <= i <= k <= ss.len(),
        goes_on(ss, i, k),
    ensures
        scanned(t, ps, ss, i, st) == scan_found(t, ps, ss, i, k, st) + scanned(
            t,
            ps,
            ss,
            k,
            scan_state(t, ps, ss, i, k, st),
        ),
    decreases k - i,
{
    if i < k {
        assert(ss[i][0] != SLOT_END);
        let (f, next) = looked_at(t, st, ps[i], ss[i]);
        lemma_scan_split(t, ps, ss, i + 1, k, next);
        assert(scanned(t, ps, ss, i, st) =~= scan_found(t, ps, ss, i, k, st) + scanned(
            t,
            ps,
            ss,
            k,
            scan_state(t, ps, ss, i, k, st),
        ));
    } else {
        assert(scanned(t, ps, ss, i, st) =~= Seq::<FatFields>::empty() + scanned(t, ps, ss, i, st));
    }
}

/// Reading up to slot `k` does not look further.
pub proof fn lemma_scan_prefix(
    t: FatType,
    ps: Seq<SlotPos>,
    a: Seq<Seq<u8>>,
    b: Seq<Seq<u8>>,
    i: int,
    k: int,
    st: Scan,
)
    requires
        0 <= i,
        k <= a.len(),
        k <= b.len(),
        forall|j: int| i <= j < k ==> a[j] == b[j],
    ensures
        scan_found(t, ps, a, i, k, st) == scan_found(t, ps, b, i, k, st),
        scan_state(t, ps, a, i, k, st) == scan_state(t, ps, b, i, k, st),
    decreases k - i,
{
    if i < k {
        lemma_scan_prefix(t, ps, a, b, i + 1, k, looked_at(t, st, ps[i], a[i]).1);
    }
}

/// Reading from slot `i` on does not look back.
pub proof fn lemma_scan_suffix(
    t: FatType,
    ps: Seq<SlotPos>,
    a: Seq<Seq<u8>>,
    b: Seq<Seq<u8>>,
    i: int,
    st: Scan,
)
    requires
        0 <= i,
        a.len() == b.len(),
        forall|j: int| i <= j < a.len() ==> a[j] == b[j],
    ensures
        scanned(t, ps, a, i, st) == scanned(t, ps, b, i, st),
    decreases a.len() - i,
{
    if i < a.len() && a[i][0] != SLOT_END {
        lemma_scan_suffix(t, ps, a, b, i + 1, looked_at(t, st, ps[i], a[i]).1);
    }
}

/// Deleted slots hold nothing and end whatever is in progress.
pub proof fn lemma_scan_deleted(
    t: FatType,
    ps: Seq<SlotPos>,
    ss: Seq<Seq<u8>>,
    i: int,
    k: int,
    st: Scan,
)
    requires
        0 <= i < k <= ss.len(),
        forall|j: int| i <= j < k ==> (#[trigger] ss[j])[0] == SLOT_DELETED,
    ensures
        scanned(t, ps, ss, i, st) == scanned(t, ps, ss, k, idle()),
    decreases k - i,
{
    assert(ss[i][0] == SLOT_DELETED);
    assert(scanned(t, ps, ss, i, st) =~= scanned(t, ps, ss, i + 1, idle()));
    if i + 1 < k {
        lemma_scan_deleted(t, ps, ss, i + 1, k, idle());
    }
}

/// The entry can be stored so that it reads back: its name fits long-name
/// slots or is what its short name displays, its stamps are real, and its
/// short name starts no free slot.
pub open spec fn storable(t: FatType, p: MinFields) -> bool {
    &&& p.wf()
    &&& fields_fit(t, p)
    &&& p.attributes & RAW_VOLUME_ID != RAW_VOLUME_ID
    &&& p.sfn.raw()[0] != SLOT_END
    &&& p.sfn.raw()[0] != SLOT_DELETED
    &&& if needs_lfn(p) {
        lfn_storable(p.name)
    } else {
        p.name.last() != '.' || p.name == seq!['.'] || p.name == seq!['.', '.']
    }
}

/// The slots of an entry stand at slot `i`.
pub open spec fn entry_at(ss: Seq<Seq<u8>>, i: int, p: MinFields) -> bool {
    &&& 0 <= i
    &&& i + entry_slots(p).len() <= ss.len()
    &&& ss.subrange(i, i + entry_slots(p).len()) == entry_slots(p)
}

/// Where the long-name slots of an entry leave the reader, group by group.
pub proof fn lemma_scan_lfn(
    t: FatType,
    ps: Seq<SlotPos>,
    ss: Seq<Seq<u8>>,
    i: int,
    p: MinFields,
    st: Scan,
    k: int,
)
    requires
        storable(t, p),
        needs_lfn(p),
        entry_at(ss, i, p),
        0 < k <= lfn_groups(utf16_of(p.name).len() as int),
    ensures
        goes_on(ss, i, i + k),
        scan_found(t, ps, ss, i, i + k, st) == Seq::<FatFields>::empty(),
        scan_state(t, ps, ss, i, i + k, st) == (Scan {
            lfn: lfn_seen(
                p.name,
                sfn_checksum_of(p.sfn.raw()) as u8,
                lfn_groups(utf16_of(p.name).len() as int) - k,
            ),
            set_start: Some(ps[i]),
            set_len: k,
        }),
    decreases k,
{
    let units = utf16_of(p.name);
    let n = lfn_groups(units.len() as int);
    let sum = sfn_checksum_of(p.sfn.raw()) as u8;
    let all = entry_slots(p);
    let g = n - k;
    let slot = lfn_slot_bytes(lfn_group(units, g), lfn_order(g, n), sum);
    assert(ss[i + k - 1] == all[k - 1]) by {
        assert(ss.subrange(i, i + all.len())[k - 1] == ss[i + k - 1]);
    }
    assert(all[k - 1] == slot);
    if k == 1 {
        lemma_lfn_slot_seen(p.name, sum, g, st.lfn);
        lemma_scan_last(t, ps, ss, i, i + 1, st);
        assert(scan_state(t, ps, ss, i, i, st) == st);
    } else {
        lemma_scan_lfn(t, ps, ss, i, p, st, k - 1);
        let before = scan_state(t, ps, ss, i, i + k - 1, st);
        lemma_lfn_slot_seen(p.name, sum, g, before.lfn);
        lemma_scan_last(t, ps, ss, i, i + k, st);
    }
}

/// The last step of a reading.
pub proof fn lemma_scan_last(t: FatType, ps: Seq<SlotPos>, ss: Seq<Seq<u8>>, i: int, k: int, st: Scan)
    requires
        0 <= i < k <= ss.len(),
    ensures
        ({
            let before = scan_state(t, ps, ss, i, k - 1, st);
            let (f, after) = looked_at(t, before, ps[k - 1], ss[k - 1]);
            &&& scan_state(t, ps, ss, i, k, st) == after
            &&& scan_found(t, ps, ss, i, k, st) == scan_found(t, ps, ss, i, k - 1, st) + as_list(f)
        }),
    decreases k - i,
{
    let (f, next) = looked_at(t, st, ps[i], ss[i]);
    if i + 1 < k {
        lemma_scan_last(t, ps, ss, i + 1, k, next);
        let before = scan_state(t, ps, ss, i, k - 1, st);
        let (g, after) = looked_at(t, before, ps[k - 1], ss[k - 1]);
        assert(scan_found(t, ps, ss, i, k, st) =~= scan_found(t, ps, ss, i, k - 1, st) + as_list(g));
    } else {
        assert(scan_state(t, ps, ss, i + 1, k, next) == next);
        assert(scan_found(t, ps, ss, i + 1, k, next) =~= Seq::<FatFields>::empty());
        assert(scan_found(t, ps, ss, i, k, st) =~= scan_found(t, ps, ss, i, k - 1, st) + as_list(f));
    }
}

/// The slots of an entry read back as that entry, whole, at its place. An
/// entry without a long name must not follow a long name left in progress.
pub proof fn law_entry_slots_read_back(
    t: FatType,
    ps: Seq<SlotPos>,
    ss: Seq<Seq<u8>>,
    i: int,
    p: MinFields,
    st: Scan,
)
    requires
        storable(t, p),
        entry_at(ss, i, p),
        needs_lfn(p) || st == idle(),
    ensures
        ({
            let n = entry_slots(p).len() as int;
            let chain = SlotChain { first: ps[i], len: n as u16 };
            &&& scan_found(t, ps, ss, i, i + n, st) == seq![stored_fields(p).at(chain)]
            &&& scan_state(t, ps, ss, i, i + n, st) == idle()
            &&& goes_on(ss, i, i + n)
            &&& 1 <= n <= 21
        }),
{
    let all = entry_slots(p);
    let n = all.len() as int;
    let last = ss[i + n - 1];
    assert(last == all[n - 1]) by {
        assert(ss.subrange(i, i + n)[n - 1] == ss[i + n - 1]);
    }
    assert(last == record_image(sfn_record(p)));
    let chain = SlotChain { first: ps[i], len: n as u16 };
    law_record_reads_back(t, p, p.name, chain);
    let e = raw_of(last);
    let a = p.attributes;
    assert(a & 0x08u8 != 0x08u8 ==> a != 0x0Fu8) by (bit_vector);
    lemma_scan_last(t, ps, ss, i, i + n, st);
    let before = scan_state(t, ps, ss, i, i + n - 1, st);
    if needs_lfn(p) {
        lemma_scan_lfn(t, ps, ss, i, p, st, n - 1);
        lemma_lfn_name_complete(p.name, e);
    } else {
        assert(n == 1);
        law_exact_sfn_displayed(p.name, p.sfn);
        assert(before == idle());
        assert(name_for(no_lfn(), e) == e.sfn.text());
        assert(scan_found(t, ps, ss, i, i, st) =~= Seq::<FatFields>::empty());
    }
    assert(scan_found(t, ps, ss, i, i + n, st) =~= seq![stored_fields(p).at(chain)]);
}

/// From the first slot that ends the directory on, every slot does: nothing
/// is left behind the end.
pub open spec fn clean_end(ss: Seq<Seq<u8>>) -> bool {
    forall|j: int, k: int|
        0 <= j <= k < ss.len() && (#[trigger] ss[j])[0] == SLOT_END ==> (#[trigger] ss[k])[0]
            == SLOT_END
}

/// The slot is free to be written.
pub open spec fn is_free(slot: Seq<u8>) -> bool {
    slot[0] == SLOT_END || slot[0] == SLOT_DELETED
}

/// The slots `ss` with those from `i` on replaced by `new`.
pub open spec fn replaced(ss: Seq<Seq<u8>>, i: int, new: Seq<Seq<u8>>) -> Seq<Seq<u8>> {
    Seq::new(
        ss.len(),
        |k: int|
            if i <= k < i + new.len() {
                new[k - i]
            } else {
                ss[k]
            },
    )
}

/// Free slots hold no entries.
proof fn lemma_scan_free(t: FatType, ps: Seq<SlotPos>, ss: Seq<Seq<u8>>, i: int, k: int, st: Scan)
    requires
        0 <= i < k <= ss.len(),
        clean_end(ss),
        forall|j: int| i <= j < k ==> is_free(#[trigger] ss[j]),
    ensures
        scanned(t, ps, ss, i, st) == scanned(t, ps, ss, k, idle()),
    decreases k - i,
{
    assert(is_free(ss[i]));
    if ss[i][0] == SLOT_END {
        if k < ss.len() {
            assert(ss[k][0] == SLOT_END);
        }
    } else {
        assert(scanned(t, ps, ss, i, st) =~= scanned(t, ps, ss, i + 1, idle()));
        if i + 1 < k {
            lemma_scan_free(t, ps, ss, i + 1, k, idle());
        }
    }
}

/// Writing an entry into free slots adds it to the listing at that place; the
/// entries before and behind it stay. The directory must have a clean end, the
/// slots must not lie behind it, and no long name may be left in progress in
/// front of them.
pub proof fn law_slots_insert(
    t: FatType,
    ps: Seq<SlotPos>,
    ss: Seq<Seq<u8>>,
    i: int,
    p: MinFields,
)
    requires
        storable(t, p),
        0 <= i,
        i + entry_slots(p).len() <= ss.len(),
        clean_end(ss),
        goes_on(ss, 0, i),
        forall|j: int| i <= j < i + entry_slots(p).len() ==> is_free(#[trigger] ss[j]),
        needs_lfn(p) || scan_state(t, ps, ss, 0, i, idle()) == idle(),
    ensures
        ({
            let n = entry_slots(p).len() as int;
            let chain = SlotChain { first: ps[i], len: n as u16 };
            let before = scan_found(t, ps, ss, 0, i, idle());
            let behind = scanned(t, ps, ss, i + n, idle());
            let new = replaced(ss, i, entry_slots(p));
            &&& scanned(t, ps, ss, 0, idle()) == before + behind
            &&& scanned(t, ps, new, 0, idle()) == before + seq![stored_fields(p).at(chain)] + behind
        }),
{
    let n = entry_slots(p).len() as int;
    let new = replaced(ss, i, entry_slots(p));
    let st = scan_state(t, ps, ss, 0, i, idle());
    lemma_scan_split(t, ps, ss, 0, i, idle());
    assert(goes_on(new, 0, i)) by {
        assert forall|j: int| 0 <= j < i implies (#[trigger] new[j])[0] != SLOT_END by {
            assert(new[j] == ss[j]);
        }
    }
    lemma_scan_split(t, ps, new, 0, i, idle());
    lemma_scan_prefix(t, ps, ss, new, 0, i, idle());
    assert(new.subrange(i, i + n) =~= entry_slots(p));
    law_entry_slots_read_back(t, ps, new, i, p, st);
    lemma_scan_split(t, ps, new, i, i + n, st);
    lemma_scan_suffix(t, ps, ss, new, i + n, idle());
    lemma_scan_free(t, ps, ss, i, i + n, st);
    let chain = SlotChain { first: ps[i], len: n as u16 };
    let before = scan_found(t, ps, ss, 0, i, idle());
    let behind = scanned(t, ps, ss, i + n, idle());
    assert(scanned(t, ps, new, 0, idle()) =~= before + seq![stored_fields(p).at(chain)] + behind);
}

/// What is remembered at slot `k` of the set in progress: it started
/// `set_len` slots before, all of them long-name slots.
proof fn lemma_scan_place(t: FatType, ps: Seq<SlotPos>, ss: Seq<Seq<u8>>, k: int)
    requires
        0 <= k <= ss.len(),
        goes_on(ss, 0, k),
    ensures
        ({
            let st = scan_state(t, ps, ss, 0, k, idle());
            &&& 0 <= st.set_len <= k
            &&& st.set_len + st.lfn.next_ord <= 21
            &&& st.set_len == 0 ==> st.set_start is None
            &&& st.set_len > 0 ==> st.set_start == Some(ps[k - st.set_len])
            &&& forall|j: int|
                k - st.set_len <= j < k ==> (#[trigger] ss[j])[0] != SLOT_DELETED && ss[j][11]
                    == RAW_LFN
            &&& scan_found(t, ps, ss, 0, k, idle()) == scan_found(
                t,
                ps,
                ss,
                0,
                k - st.set_len,
                idle(),
            )
        }),
    decreases k,
{
    if k > 0 {
        assert(goes_on(ss, 0, k - 1));
        lemma_scan_place(t, ps, ss, k - 1);
        lemma_scan_last(t, ps, ss, 0, k, idle());
        let before = scan_state(t, ps, ss, 0, k - 1, idle());
        let (f, after) = looked_at(t, before, ps[k - 1], ss[k - 1]);
        let found = scan_found(t, ps, ss, 0, k - 1, idle());
        assert(ss[k - 1][0] != SLOT_END);
        if after.set_len > 0 {
            assert(f is None);
            assert(found + as_list(f) =~= found);
        } else {
            assert(k - after.set_len == k);
        }
    }
}

/// The slots `i..i + n` with their first bytes marked as deleted.
pub open spec fn with_deleted(ss: Seq<Seq<u8>>, i: int, n: int) -> Seq<Seq<u8>> {
    Seq::new(
        ss.len(),
        |k: int|
            if i <= k < i + n {
                ss[k].update(0, SLOT_DELETED)
            } else {
                ss[k]
            },
    )
}

/// The entry number `m` of a listing: the slot that completes it, so that the
/// entries before it were completed in the slots before.
pub proof fn lemma_found_slot(
    t: FatType,
    ps: Seq<SlotPos>,
    ss: Seq<Seq<u8>>,
    i: int,
    st: Scan,
    m: int,
) -> (k: int)
    requires
        0 <= i,
        0 <= m < scanned(t, ps, ss, i, st).len(),
    ensures
        i <= k < ss.len(),
        goes_on(ss, i, k + 1),
        scan_found(t, ps, ss, i, k, st) == scanned(t, ps, ss, i, st).subrange(0, m),
        looked_at(t, scan_state(t, ps, ss, i, k, st), ps[k], ss[k]).0 == Some(
            scanned(t, ps, ss, i, st)[m],
        ),
    decreases ss.len() - i,
{
    let (f, next) = looked_at(t, st, ps[i], ss[i]);
    let rest = scanned(t, ps, ss, i + 1, next);
    let all = scanned(t, ps, ss, i, st);
    assert(all == as_list(f) + rest);
    if f is Some && m == 0 {
        assert(all.subrange(0, 0) =~= Seq::<FatFields>::empty());
        assert(all[0] == f->0);
        i
    } else {
        let d = if f is Some {
            1int
        } else {
            0
        };
        let k = lemma_found_slot(t, ps, ss, i + 1, next, m - d);
        assert(goes_on(ss, i, k + 1)) by {
            assert forall|j: int| i <= j < k + 1 implies (#[trigger] ss[j])[0] != SLOT_END by {
                if j > i {
                    assert(goes_on(ss, i + 1, k + 1));
                }
            }
        }
        assert(all.subrange(0, m) =~= as_list(f) + rest.subrange(0, m - d));
        k
    }
}

/// The slots `i..i + n` are the set of one entry: at the last of them the set
/// in progress started at `i`, and that slot completes it.
pub open spec fn completes(t: FatType, ps: Seq<SlotPos>, ss: Seq<Seq<u8>>, i: int, n: int) -> bool {
    let st = scan_state(t, ps, ss, 0, i + n - 1, idle());
    &&& st.set_len == n - 1
    &&& looked_at(t, st, ps[i + n - 1], ss[i + n - 1]).0 is Some
}

/// Deleting the slots of an entry takes it out of the listing; the entries
/// before and behind it stay. The slots are those that the entry's chain
/// names.
pub proof fn law_slots_delete(t: FatType, ps: Seq<SlotPos>, ss: Seq<Seq<u8>>, m: int) -> (i: int)
    requires
        0 <= m < scanned(t, ps, ss, 0, idle()).len(),
        forall|j: int| 0 <= j < ss.len() ==> (#[trigger] ss[j]).len() == 32,
    ensures
        ({
            let all = scanned(t, ps, ss, 0, idle());
            let n = all[m].chain.len as int;
            &&& 0 <= i
            &&& 1 <= n
            &&& i + n <= ss.len()
            &&& goes_on(ss, 0, i + n)
            &&& completes(t, ps, ss, i, n)
            &&& all[m].chain.first == ps[i]
            &&& scanned(t, ps, with_deleted(ss, i, n), 0, idle()) == all.subrange(0, m)
                + all.subrange(m + 1, all.len() as int)
        }),
{
    let all = scanned(t, ps, ss, 0, idle());
    let k = lemma_found_slot(t, ps, ss, 0, idle(), m);
    let st = scan_state(t, ps, ss, 0, k, idle());
    assert(goes_on(ss, 0, k));
    lemma_scan_place(t, ps, ss, k);
    let n = st.set_len + 1;
    let i = k - st.set_len;
    assert(all[m].chain == (SlotChain { first: ps[i], len: n as u16 }));
    let new = with_deleted(ss, i, n);
    // Before the entry's slots nothing changes.
    assert(goes_on(new, 0, i)) by {
        assert forall|j: int| 0 <= j < i implies (#[trigger] new[j])[0] != SLOT_END by {
            assert(new[j] == ss[j]);
        }
    }
    lemma_scan_prefix(t, ps, ss, new, 0, i, idle());
    lemma_scan_split(t, ps, new, 0, i, idle());
    lemma_scan_deleted(t, ps, new, i, k + 1, scan_state(t, ps, new, 0, i, idle()));
    // Behind them nothing changes either.
    lemma_scan_suffix(t, ps, ss, new, k + 1, idle());
    lemma_scan_split(t, ps, ss, 0, k + 1, idle());
    lemma_scan_last(t, ps, ss, 0, k + 1, idle());
    let behind = scanned(t, ps, ss, k + 1, idle());
    assert(looked_at(t, st, ps[k], ss[k]).1 == idle());
    assert(all == all.subrange(0, m) + seq![all[m]] + behind);
    assert(all.subrange(m + 1, all.len() as int) =~= behind) by {
        let whole = all.subrange(0, m) + seq![all[m]] + behind;
        assert(whole.len() == m + 1 + behind.len());
        assert forall|j: int| 0 <= j < behind.len() implies all[m + 1 + j] == behind[j] by {
            assert(whole[m + 1 + j] == behind[j]);
        }
    }
    i
}

/// Any slot decodes as a short-name record.
pub proof fn lemma_raw_exists(slot: Seq<u8>)
    requires
        slot.len() == 32,
    ensures
        raw_of(slot).decoded_from(slot),
{
    let e = RawDirEntry {
        sfn: Sfn {
            name: [slot[0], slot[1], slot[2], slot[3], slot[4], slot[5], slot[6], slot[7]],
            ext: [slot[8], slot[9], slot[10]],
        },
        attributes: RawAttributes(slot[11]),
        _reserved: slot[12],
        created: EntryCreationTime(creation_of(slot[13] as int, le16(slot, 14), le16(slot, 16))),
        accessed: EntryLastAccessedTime(accessed_of(le16(slot, 18))),
        cluster_high: le16(slot, 20) as u16,
        modified: EntryModificationTime(
            datetime_of_stamp(le16(slot, 24) * 0x1_0000 + le16(slot, 22), 0),
        ),
        cluster_low: le16(slot, 26) as u16,
        file_size: le32(slot, 28) as u32,
    };
    assert(e.sfn.name@ =~= slot.subrange(0, 8));
    assert(e.sfn.ext@ =~= slot.subrange(8, 11));
    assert(e.decoded_from(slot));
}

/// Rewriting the record of an entry, under the same short name, changes that
/// one entry of the listing: it keeps its name and its place and says what the
/// new record holds.
pub proof fn law_record_patch(t: FatType, ps: Seq<SlotPos>, ss: Seq<Seq<u8>>, m: int, q: MinFields) -> (k:
    int)
    requires
        0 <= m < scanned(t, ps, ss, 0, idle()).len(),
        forall|j: int| 0 <= j < ss.len() ==> (#[trigger] ss[j]).len() == 32,
        q.wf(),
        fields_fit(t, q),
        q.attributes & RAW_VOLUME_ID != RAW_VOLUME_ID,
        q.sfn == scanned(t, ps, ss, 0, idle())[m].sfn,
    ensures
        ({
            let all = scanned(t, ps, ss, 0, idle());
            let (name, chain) = (all[m].name, all[m].chain);
            &&& 1 <= chain.len <= k + 1
            &&& k < ss.len()
            &&& chain.first == ps[k + 1 - chain.len]
            &&& scanned(t, ps, ss.update(k, record_image(sfn_record(q))), 0, idle()) == all.update(
                m,
                (MinFields { name, ..stored_fields(q) }).at(chain),
            )
        }),
{
    let all = scanned(t, ps, ss, 0, idle());
    let k = lemma_found_slot(t, ps, ss, 0, idle(), m);
    let st = scan_state(t, ps, ss, 0, k, idle());
    assert(goes_on(ss, 0, k));
    lemma_scan_place(t, ps, ss, k);
    let (name, chain) = (all[m].name, all[m].chain);
    let slot = ss[k];
    let e = raw_of(slot);
    lemma_raw_exists(slot);
    assert(e.sfn.name@[0] == slot.subrange(0, 8)[0]);
    assert(all[m] == entry_of(t, e, name_for(st.lfn, e), chain));
    let rec = record_image(sfn_record(q));
    law_record_reads_back(t, q, name, chain);
    let a = q.attributes;
    assert(a & 0x08u8 != 0x08u8 ==> a != 0x0Fu8) by (bit_vector);
    assert(rec[0] == slot[0]);
    assert(slot[0] != SLOT_END && slot[0] != SLOT_DELETED);
    assert(name_for(st.lfn, raw_of(rec)) == name);
    let f = (MinFields { name, ..stored_fields(q) }).at(chain);
    assert(looked_at(t, st, ps[k], rec) == (Some(f), idle()));
    let new = ss.update(k, rec);
    lemma_scan_prefix(t, ps, ss, new, 0, k, idle());
    assert(goes_on(new, 0, k + 1)) by {
        assert forall|j: int| 0 <= j < k + 1 implies (#[trigger] new[j])[0] != SLOT_END by {
            if j < k {
                assert(new[j] == ss[j]);
            }
        }
    }
    lemma_scan_split(t, ps, ss, 0, k + 1, idle());
    lemma_scan_last(t, ps, ss, 0, k + 1, idle());
    lemma_scan_split(t, ps, new, 0, k + 1, idle());
    lemma_scan_last(t, ps, new, 0, k + 1, idle());
    lemma_scan_suffix(t, ps, ss, new, k + 1, idle());
    let behind = scanned(t, ps, ss, k + 1, idle());
    assert(all == all.subrange(0, m) + seq![all[m]] + behind);
    let patched = all.subrange(0, m) + seq![f] + behind;
    assert(scanned(t, ps, new, 0, idle()) == patched);
    assert(patched =~= all.update(m, f)) by {
        let whole = all.subrange(0, m) + seq![all[m]] + behind;
        assert(whole.len() == patched.len());
        assert forall|j: int| 0 <= j < all.len() implies patched[j] == all.update(m, f)[j] by {
            assert(whole[j] == all[j]);
        }
    }
    k
}

// ── Slots on the volume ─────────────────────────────────────────────────

impl FatLayout {
    /// `ps` are the places of the directory's slots, first to last, all
    /// readable.
    pub open spec fn slots_at(self, img: Seq<u8>, dir: FatDir, ps: Seq<SlotPos>) -> bool {
        &&& 1 <= ps.len()
        &&& ps[0] == self.first_slot(dir)
        &&& forall|i: int|
            0 <= i < ps.len() - 1 ==> #[trigger] self.slot_after(img, ps[i]) == Ok::<
                Option<SlotPos>,
                FsError<()>,
            >(Some(ps[i + 1]))
        &&& self.slot_after(img, ps.last()) == Ok::<Option<SlotPos>, FsError<()>>(None)
        &&& forall|i: int| 0 <= i < ps.len() ==> self.slot_read(img, #[trigger] ps[i]) is Ok
    }

    /// The bytes of the slots at `ps`.
    pub open spec fn slots_of(self, img: Seq<u8>, ps: Seq<SlotPos>) -> Seq<Seq<u8>> {
        Seq::new(ps.len(), |i: int| self.slot_read(img, ps[i])->Ok_0)
    }
}

/// The slots that a listing looks at, of the slots of a directory.
pub open spec fn within_cap(ss: Seq<Seq<u8>>) -> Seq<Seq<u8>> {
    if ss.len() <= MAX_DIR_SLOTS {
        ss
    } else {
        ss.subrange(0, MAX_DIR_SLOTS as int)
    }
}

/// The listing of a directory is the reading of its slots.
proof fn lemma_listing_from(
    l: FatLayout,
    img: Seq<u8>,
    dir: FatDir,
    ps: Seq<SlotPos>,
    i: int,
    st: SlotState,
)
    requires
        l.slots_at(img, dir, ps),
        0 <= i <= within_cap(l.slots_of(img, ps)).len(),
        st.cursor == (if i < ps.len() {
            Some(ps[i])
        } else {
            None
        }),
        st.seen == i,
    ensures
        listed_from(l, img, st) == (
            scanned(
                l.fat_type,
                ps,
                within_cap(l.slots_of(img, ps)),
                i,
                (Scan { lfn: st.lfn, set_start: st.set_start, set_len: st.set_len }),
            ),
            None::<FsError<()>>,
        ),
    decreases ps.len() - i,
{
    let ss = within_cap(l.slots_of(img, ps));
    let scan = Scan { lfn: st.lfn, set_start: st.set_start, set_len: st.set_len };
    if i < ss.len() {
        assert(l.slot_read(img, ps[i]) is Ok);
        let slot = ss[i];
        let (r, next) = stepped(l, img, st);
        assert(i < ps.len() - 1 ==> l.slot_after(img, ps[i]) == Ok::<Option<SlotPos>, FsError<()>>(
            Some(ps[i + 1]),
        ));
        assert(i == ps.len() - 1 ==> ps[i] == ps.last());
        if slot[0] == SLOT_END {
            assert(listed_from(l, img, next) == (Seq::<FatFields>::empty(), None::<FsError<()>>));
        } else {
            lemma_listing_from(l, img, dir, ps, i + 1, next);
            let (f, after) = looked_at(l.fat_type, scan, ps[i], slot);
            let rest = scanned(l.fat_type, ps, ss, i + 1, after);
            assert(as_list(None) + rest =~= rest);
        }
    }
}

/// The listing of a directory is the reading of its slots, as far as a listing
/// looks at them, with no error.
pub proof fn law_listing_reads_slots(l: FatLayout, img: Seq<u8>, dir: FatDir, ps: Seq<SlotPos>)
    requires
        l.slots_at(img, dir, ps),
    ensures
        fat_listing(l, img, dir) == (
            scanned(l.fat_type, ps, within_cap(l.slots_of(img, ps)), 0, idle()),
            None::<FsError<()>>,
        ),
{
    lemma_listing_from(l, img, dir, ps, 0, listing_start(l, dir));
}

} // verus!
