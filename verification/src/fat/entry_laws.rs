//! What lookups see of changes: an entry that was inserted is found under its
//! name, one whose slots were deleted is not, and all others are found as
//! before.

use vstd::prelude::*;

use super::alloc_laws::{law_allocated, link_cell};
use super::dir_laws::{
    law_slots_deleted, law_slots_written, lemma_dir_kept, lemma_places_walked, lemma_slot_cluster,
    lemma_slot_units, lemma_slot_written, lemma_slots_kept, place_bytes,
};
use super::dir_slots::{FatDir, SlotChain, SlotPos, SLOT_DELETED, SLOT_END};
use super::directory::{fat_first_named, has_sfn, sfn_with};
use super::effects::{
    lemma_touches_more, lemma_touches_nothing, lemma_touches_then, lemma_untouched,
    lemma_zeroed_effect, members, span,
};
use super::entry::{entry_slots, needs_lfn, record_image, sfn_record, FatFields, MinFields};
use super::entry_io::{dot_sfn, dotdot_sfn};
use super::insert_laws::{
    law_dir_grown, lemma_dir_in_use, lemma_free_apart, lemma_slots_searched, run_before, zero_slot,
};
use super::layout::{FatDisk, FatLayout};
use super::name_laws::{
    fields_fit, law_record_reads_back, lemma_record_exists, lfn_storable, stored_fields,
};
use super::regions::lemma_cluster_places;
use super::sfn::{alias_ext, alias_of, alias_stem, exact_sfn, hex_tail, number_tail, short_name_of};
use super::slot_iter::{fat_listing, lfn_folded, MAX_DIR_SLOTS};
use super::slot_laws::{
    clean_end, completes, entry_at, goes_on, idle, is_free, law_entry_slots_read_back,
    law_listing_reads_slots, law_record_patch, law_slots_delete, law_slots_insert, lemma_scan_last,
    lemma_scan_lfn, lemma_scan_prefix, looked_at, replaced, scan_found, scan_state, scanned,
    storable, with_deleted, within_cap, Scan,
};
use crate::attrs::{packed_attributes, Attributes};
use crate::calendar::{epoch_datetime, PrimitiveDateTime};
use crate::codec::fat::dir_entry::{RAW_LFN, RAW_VOLUME_ID};
use crate::codec::fat::sfn_layout::{current_dir_raw, parent_dir_raw, Sfn};
use crate::codec::fat::types::FatType;
use crate::error::FsError;
use crate::name::NamePolicy;
use crate::num::ceil_div;
use crate::vfs::NewEntry;

verus! {

/// The slot carries the long name in progress on, or completes its entry.
pub open spec fn carries_on(st: Scan, slot: Seq<u8>) -> bool {
    &&& !is_free(slot)
    &&& if slot[11] == RAW_LFN {
        lfn_folded(st.lfn, slot).1 is Continued
    } else {
        slot[11] & RAW_VOLUME_ID != RAW_VOLUME_ID
    }
}

/// No long name is left without its entry: whatever is in progress at a slot
/// is carried on there.
pub open spec fn no_loose_names(t: FatType, ps: Seq<SlotPos>, ss: Seq<Seq<u8>>) -> bool {
    forall|i: int|
        0 <= i <= ss.len() && goes_on(ss, 0, i) && #[trigger] scan_state(t, ps, ss, 0, i, idle())
            != idle() ==> i < ss.len() && carries_on(
            scan_state(t, ps, ss, 0, i, idle()),
            ss[i],
        )
}

impl FatLayout {
    /// The slots of a directory.
    pub open spec fn dir_content(self, img: Seq<u8>, dir: FatDir, cs: Seq<u32>) -> Seq<Seq<u8>> {
        self.slots_of(img, self.places(dir, cs))
    }

    /// The directory is sound and tidy: nothing is left behind its end, no
    /// long name is left without its entry, and it is no longer than a
    /// listing looks at.
    pub open spec fn dir_tidy(self, img: Seq<u8>, dir: FatDir, cs: Seq<u32>) -> bool {
        &&& self.dir_sound(img, dir, cs)
        &&& clean_end(self.dir_content(img, dir, cs))
        &&& no_loose_names(self.fat_type, self.places(dir, cs), self.dir_content(img, dir, cs))
        &&& self.place_count(dir, cs) <= MAX_DIR_SLOTS
    }
}

/// Appending slots of zeros keeps a directory tidy.
proof fn lemma_longer_tidy(
    t: FatType,
    ps: Seq<SlotPos>,
    qs: Seq<SlotPos>,
    ss: Seq<Seq<u8>>,
    n: nat,
)
    requires
        ps.len() == ss.len(),
        clean_end(ss),
        no_loose_names(t, ps, ss),
        qs.len() == ps.len() + n,
        qs.subrange(0, ps.len() as int) == ps,
    ensures
        ({
            let long = ss + Seq::new(n, |i: int| zero_slot());
            &&& clean_end(long)
            &&& no_loose_names(t, qs, long)
            &&& forall|k: int|
                0 <= k <= ss.len() ==> #[trigger] scan_found(t, qs, long, 0, k, idle())
                    == scan_found(t, ps, ss, 0, k, idle())
        }),
{
    let long = ss + Seq::new(n, |i: int| zero_slot());
    assert forall|j: int, k: int|
        0 <= j <= k < long.len() && (#[trigger] long[j])[0] == SLOT_END implies (#[trigger] long[k])[0]
        == SLOT_END by {
        if k < ss.len() {
            assert(long[j] == ss[j] && long[k] == ss[k]);
        } else {
            assert(long[k] == zero_slot());
        }
    }
    assert forall|k: int| 0 <= k <= ss.len() implies #[trigger] scan_found(
        t,
        qs,
        long,
        0,
        k,
        idle(),
    ) == scan_found(t, ps, ss, 0, k, idle()) by {
        lemma_scan_places(t, ps, qs, ss, long, 0, k, idle());
    }
    assert forall|i: int|
        0 <= i <= long.len() && goes_on(long, 0, i) && #[trigger] scan_state(
            t,
            qs,
            long,
            0,
            i,
            idle(),
        ) != idle() implies i < long.len() && carries_on(
        scan_state(t, qs, long, 0, i, idle()),
        long[i],
    ) by {
        if i > ss.len() {
            assert(long[i - 1] == zero_slot());
        } else {
            lemma_scan_places(t, ps, qs, ss, long, 0, i, idle());
            assert(goes_on(ss, 0, i)) by {
                assert forall|j: int| 0 <= j < i implies (#[trigger] ss[j])[0] != SLOT_END by {
                    assert(long[j] == ss[j]);
                }
            }
            assert(scan_state(t, ps, ss, 0, i, idle()) != idle());
            assert(long[i] == ss[i]);
        }
    }
}

/// Reading the same slots at the same places.
proof fn lemma_scan_places(
    t: FatType,
    ps: Seq<SlotPos>,
    qs: Seq<SlotPos>,
    a: Seq<Seq<u8>>,
    b: Seq<Seq<u8>>,
    i: int,
    k: int,
    st: Scan,
)
    requires
        0 <= i,
        k <= ps.len(),
        k <= a.len(),
        ps.len() <= qs.len(),
        a.len() <= b.len(),
        qs.subrange(0, ps.len() as int) == ps,
        forall|j: int| 0 <= j < a.len() ==> a[j] == b[j],
    ensures
        scan_state(t, ps, a, i, k, st) == scan_state(t, qs, b, i, k, st),
        scan_found(t, ps, a, i, k, st) == scan_found(t, qs, b, i, k, st),
    decreases k - i,
{
    if i < k {
        assert(qs.subrange(0, ps.len() as int)[i] == qs[i]);
        assert(a[i] == b[i]);
        lemma_scan_places(t, ps, qs, a, b, i + 1, k, looked_at(t, st, ps[i], a[i]).1);
    }
}

/// Room for an entry of `needed` slots: the place that was found, in a
/// directory that may have grown.
pub proof fn lemma_room_found(
    l: FatLayout,
    d: FatDisk,
    dir: FatDir,
    cs: Seq<u32>,
    needed: int,
) -> (r: (Seq<u32>, int))
    requires
        l.dir_tidy(d.img, dir, cs),
        1 <= needed <= 65535,
        l.slots_reserved(d, dir, needed).out is Ok,
    ensures
        ({
            let (more, i) = r;
            let all = cs + more;
            let z = l.slots_reserved(d, dir, needed).disk.img;
            let (ps, qs) = (l.places(dir, cs), l.places(dir, all));
            let ss = l.dir_content(d.img, dir, cs);
            let long = l.dir_content(z, dir, all);
            &&& l.slots_reserved(d, dir, needed).out == Ok::<SlotPos, FsError<()>>(qs[i])
            &&& l.dir_tidy(z, dir, all)
            &&& l.all_free(d.img, more)
            &&& l.touches_only(
                d.img,
                z,
                members(cs).union(members(more)),
                l.cluster_bytes(more),
            )
            &&& 0 <= i
            &&& i + needed <= long.len()
            &&& goes_on(long, 0, i)
            &&& forall|j: int| i <= j < i + needed ==> is_free(#[trigger] long[j])
            &&& qs.subrange(0, ps.len() as int) == ps
            &&& ps.len() <= qs.len()
            &&& ss.len() <= long.len()
            &&& long == ss + Seq::new((long.len() - ss.len()) as nat, |i: int| zero_slot())
        }),
{
    let ps = l.places(dir, cs);
    let ss = l.dir_content(d.img, dir, cs);
    lemma_places_walked(l, d.img, dir, cs);
    assert(ps[0] == l.first_slot(dir));
    assert(run_before(ps, ss, 0, None, 0)) by {
        reveal(run_before);
    }
    let run = l.slots_searched(d.img, l.first_slot(dir), None, 0, 0, needed)->Ok_0;
    let i = lemma_slots_searched(l, d.img, dir, ps, 0, None, 0, needed);
    match run.found {
        Some(pos) => {
            let more = Seq::<u32>::empty();
            lemma_touches_nothing(
                l,
                d.img,
                members(cs).union(members(more)),
                l.cluster_bytes(more),
            );
            assert(cs + more =~= cs);
            assert(ps.subrange(0, ps.len() as int) =~= ps);
            assert(ss =~= ss + Seq::new(0, |i: int| zero_slot()));
            (more, i)
        },
        None => {
            let r = lemma_room_made(l, d, dir, cs, needed, i);
            (r, i)
        },
    }
}

/// Room made by growing the directory.
proof fn lemma_room_made(
    l: FatLayout,
    d: FatDisk,
    dir: FatDir,
    cs: Seq<u32>,
    needed: int,
    i: int,
) -> (more: Seq<u32>)
    requires
        l.dir_tidy(d.img, dir, cs),
        1 <= needed <= 65535,
        l.slots_reserved(d, dir, needed).out is Ok,
        ({
            let ps = l.places(dir, cs);
            let ss = l.dir_content(d.img, dir, cs);
            let run = l.slots_searched(d.img, l.first_slot(dir), None, 0, 0, needed);
            &&& run is Ok
            &&& run->Ok_0.found is None
            &&& 0 <= i <= ss.len()
            &&& goes_on(ss, 0, i)
            &&& ps.len() <= 65535
            &&& run->Ok_0.last == ps.last()
            &&& run->Ok_0.len == ss.len() - i
            &&& run->Ok_0.len < needed
            &&& run->Ok_0.start == (if i == ss.len() {
                None
            } else {
                Some(ps[i])
            })
            &&& forall|j: int| i <= j < ss.len() ==> is_free(#[trigger] ss[j])
        }),
    ensures
        ({
            let all = cs + more;
            let z = l.slots_reserved(d, dir, needed).disk.img;
            let (ps, qs) = (l.places(dir, cs), l.places(dir, all));
            let ss = l.dir_content(d.img, dir, cs);
            let long = l.dir_content(z, dir, all);
            &&& l.slots_reserved(d, dir, needed).out == Ok::<SlotPos, FsError<()>>(qs[i])
            &&& l.dir_tidy(z, dir, all)
            &&& l.all_free(d.img, more)
            &&& l.touches_only(
                d.img,
                z,
                members(cs).union(members(more)),
                l.cluster_bytes(more),
            )
            &&& i + needed <= long.len()
            &&& goes_on(long, 0, i)
            &&& forall|j: int| i <= j < i + needed ==> is_free(#[trigger] long[j])
            &&& qs.subrange(0, ps.len() as int) == ps
            &&& ps.len() <= qs.len()
            &&& ss.len() <= long.len()
            &&& long == ss + Seq::new((long.len() - ss.len()) as nat, |i: int| zero_slot())
        }),
{
    let ps = l.places(dir, cs);
    let ss = l.dir_content(d.img, dir, cs);
    let first = match dir {
        FatDir::Clusters(c) => c,
        FatDir::FixedRoot => 0,
    };
    assert(dir == FatDir::Clusters(first));
    lemma_places_walked(l, d.img, dir, cs);
    assert(cs.len() > 0) by {
        reveal(FatLayout::dir_sound);
    }
    lemma_dir_in_use(l, d.img, dir, cs, cs.len() - 1);
    lemma_slot_units(l);
    let n = l.slots_in_cluster();
    let tail = lemma_last_place(l, d.img, first, cs);
    let missing = needed - (ss.len() - i);
    let count = ceil_div(missing, n);
    assert(count > 0 && missing <= count * n && count * n < missing + n) by (nonlinear_arith)
        requires
            count == (missing + n - 1) / n,
            missing > 0,
            n > 0,
    ;
    let a = l.allocated(d, count, Some(cs.last()));
    let new = a.out->Ok_0;
    law_dir_grown(l, d, first, cs, count);
    let z = l.all_zeroed(a.disk, new).disk.img;
    let all = cs + new;
    let qs = l.places(dir, all);
    let long = l.dir_content(z, dir, all);
    lemma_places_walked(l, z, dir, all);
    lemma_longer_tidy(l.fat_type, ps, qs, ss, (count * n) as nat);
    assert(long.len() == ss.len() + count * n);
    assert(qs[i] == (if i == ss.len() {
        l.cluster_slot(new[0])
    } else {
        ps[i]
    })) by {
        if i < ss.len() {
            assert(qs.subrange(0, ps.len() as int)[i] == qs[i]);
        } else {
            lemma_first_new_place(l, z, first, cs, new);
        }
    }
    assert forall|j: int| 0 <= j < i implies (#[trigger] long[j])[0] != SLOT_END by {
        assert(long[j] == ss[j]);
    }
    assert forall|j: int| i <= j < i + needed implies is_free(#[trigger] long[j]) by {
        if j < ss.len() {
            assert(long[j] == ss[j]);
        } else {
            assert(long[j] == zero_slot());
        }
    }
    assert(n <= 255 * 4096 / 32) by {
        super::layout::lemma_cluster_size(l);
    }
    let cells = members(new).union(link_cell(Some(cs.last())));
    assert(cells.subset_of(members(cs).union(members(new)))) by {
        assert(cs[cs.len() - 1] == cs.last());
        assert(members(cs).contains(cs.last() as int));
    }
    lemma_touches_more(
        l,
        d.img,
        z,
        cells,
        l.cluster_bytes(new),
        members(cs).union(members(new)),
        l.cluster_bytes(new),
    );
    new
}

/// The last slot of a directory lies in its last cluster.
proof fn lemma_last_place(l: FatLayout, img: Seq<u8>, first: u32, cs: Seq<u32>) -> (tail: u32)
    requires
        l.dir_sound(img, FatDir::Clusters(first), cs),
        cs.len() > 0,
    ensures
        tail == cs.last(),
        l.places(FatDir::Clusters(first), cs).last().cluster == Some(tail),
{
    let dir = FatDir::Clusters(first);
    lemma_places_walked(l, img, dir, cs);
    lemma_dir_in_use(l, img, dir, cs, 0);
    lemma_slot_units(l);
    let (m, n) = (cs.len() as int, l.slots_in_cluster());
    let k = m * n - 1;
    assert(k == n * (m - 1) + (n - 1) && k >= 0) by (nonlinear_arith)
        requires
            k == m * n - 1,
            m >= 1,
            n >= 1,
    ;
    vstd::arithmetic::div_mod::lemma_fundamental_div_mod_converse(k, n, m - 1, n - 1);
    cs.last()
}

/// The first slot behind the old ones is the first of the first new cluster.
proof fn lemma_first_new_place(l: FatLayout, z: Seq<u8>, first: u32, cs: Seq<u32>, new: Seq<u32>)
    requires
        l.dir_sound(z, FatDir::Clusters(first), cs + new),
        cs.len() > 0,
        new.len() > 0,
    ensures
        ({
            let dir = FatDir::Clusters(first);
            l.places(dir, cs + new)[cs.len() * l.slots_in_cluster()] == l.cluster_slot(new[0])
        }),
{
    let dir = FatDir::Clusters(first);
    let all = cs + new;
    lemma_places_walked(l, z, dir, all);
    assert(all[0] == cs[0]);
    lemma_dir_in_use(l, z, dir, all, 0);
    lemma_slot_units(l);
    let (k, m, n) = (cs.len() as int, new.len() as int, l.slots_in_cluster());
    assert(k * n == n * k + 0 && k * n < (k + m) * n && 0 <= k * n) by (nonlinear_arith)
        requires
            n > 0,
            m > 0,
            k >= 0,
    ;
    vstd::arithmetic::div_mod::lemma_fundamental_div_mod_converse(k * n, n, k, 0);
    assert(all[k] == new[0]);
    super::dir_laws::lemma_place_apart(l, z, dir, all, k * n, k * n);
}

/// Slots of zeros behind a directory add nothing to its listing.
proof fn lemma_scanned_longer(
    t: FatType,
    ps: Seq<SlotPos>,
    qs: Seq<SlotPos>,
    ss: Seq<Seq<u8>>,
    n: nat,
    i: int,
    st: Scan,
)
    requires
        0 <= i <= ss.len(),
        ps.len() == ss.len(),
        qs.len() == ps.len() + n,
        qs.subrange(0, ps.len() as int) == ps,
    ensures
        scanned(t, qs, ss + Seq::new(n, |i: int| zero_slot()), i, st) == scanned(t, ps, ss, i, st),
    decreases ss.len() - i,
{
    let long = ss + Seq::new(n, |i: int| zero_slot());
    if i < ss.len() {
        assert(long[i] == ss[i]);
        assert(qs.subrange(0, ps.len() as int)[i] == qs[i]);
        if ss[i][0] != SLOT_END {
            lemma_scanned_longer(t, ps, qs, ss, n, i + 1, looked_at(t, st, ps[i], ss[i]).1);
        }
    } else if i < long.len() {
        assert(long[i] == zero_slot());
    }
}

/// What is remembered, in two goes.
proof fn lemma_state_split(
    t: FatType,
    ps: Seq<SlotPos>,
    ss: Seq<Seq<u8>>,
    i: int,
    m: int,
    k: int,
    st: Scan,
)
    requires
        i <= m <= k,
    ensures
        scan_state(t, ps, ss, i, k, st) == scan_state(
            t,
            ps,
            ss,
            m,
            k,
            scan_state(t, ps, ss, i, m, st),
        ),
    decreases m - i,
{
    if i < m {
        lemma_state_split(t, ps, ss, i + 1, m, k, looked_at(t, st, ps[i], ss[i]).1);
    }
}

/// Writing an entry into free slots keeps a directory tidy.
proof fn lemma_insert_tidy(t: FatType, ps: Seq<SlotPos>, ss: Seq<Seq<u8>>, i: int, p: MinFields)
    requires
        storable(t, p),
        0 <= i,
        i + entry_slots(p).len() <= ss.len(),
        clean_end(ss),
        no_loose_names(t, ps, ss),
        goes_on(ss, 0, i),
        forall|j: int| i <= j < i + entry_slots(p).len() ==> is_free(#[trigger] ss[j]),
    ensures
        clean_end(replaced(ss, i, entry_slots(p))),
        no_loose_names(t, ps, replaced(ss, i, entry_slots(p))),
{
    let n = entry_slots(p).len() as int;
    let new = replaced(ss, i, entry_slots(p));
    let st = scan_state(t, ps, ss, 0, i, idle());
    assert(new.subrange(i, i + n) =~= entry_slots(p));
    assert(n >= 1);
    assert(is_free(ss[i]));
    assert(st == idle());
    law_entry_slots_read_back(t, ps, new, i, p, st);
    lemma_scan_prefix(t, ps, ss, new, 0, i, idle());
    assert forall|j: int| 0 <= j < i + n implies (#[trigger] new[j])[0] != SLOT_END by {
        if j < i {
            assert(new[j] == ss[j]);
        }
    }
    assert forall|j: int, k: int|
        0 <= j <= k < new.len() && (#[trigger] new[j])[0] == SLOT_END implies (#[trigger] new[k])[0]
        == SLOT_END by {
        assert(j >= i + n);
        assert(new[j] == ss[j] && new[k] == ss[k]);
    }
    assert forall|k: int|
        0 <= k <= new.len() && goes_on(new, 0, k) && #[trigger] scan_state(
            t,
            ps,
            new,
            0,
            k,
            idle(),
        ) != idle() implies k < new.len() && carries_on(
        scan_state(t, ps, new, 0, k, idle()),
        new[k],
    ) by {
        if k <= i {
            lemma_scan_prefix(t, ps, ss, new, 0, k, idle());
            assert(goes_on(ss, 0, k));
            assert(scan_state(t, ps, ss, 0, k, idle()) != idle());
            assert(k < i);
            assert(new[k] == ss[k]);
        } else if k < i + n {
            lemma_state_split(t, ps, new, 0, i, k, idle());
            lemma_entry_carries_on(t, ps, new, i, p, k - i);
        } else {
            lemma_state_split(t, ps, new, 0, i, i + n, idle());
            lemma_state_split(t, ps, new, 0, i + n, k, idle());
            if k > i + n {
                // Nothing before ended the directory, so the slots that were
                // replaced were deleted ones.
                assert forall|j: int| i <= j < i + n implies (#[trigger] ss[j])[0] != SLOT_END by {
                    if ss[j][0] == SLOT_END {
                        assert(ss[i + n][0] == SLOT_END);
                        assert(new[i + n] == ss[i + n]);
                    }
                }
                assert(is_free(ss[i + n - 1]));
                lemma_state_split(t, ps, ss, 0, i + n - 1, i + n, idle());
                lemma_state_split(t, ps, ss, 0, i + n, k, idle());
                lemma_state_deleted(t, ps, ss, i + n - 1, scan_state(t, ps, ss, 0, i + n - 1, idle()));
                lemma_scan_prefix(t, ps, ss, new, i + n, k, idle());
                assert(goes_on(ss, 0, k)) by {
                    assert forall|j: int| 0 <= j < k implies (#[trigger] ss[j])[0] != SLOT_END by {
                        if j >= i + n {
                            assert(new[j] == ss[j]);
                        }
                    }
                }
                assert(scan_state(t, ps, ss, 0, k, idle()) != idle());
                assert(new[k] == ss[k]);
            } else {
                assert(scan_state(t, ps, new, i + n, k, idle()) == idle());
            }
        }
    }
}

/// Inside the slots of an entry each slot carries on what is in progress.
proof fn lemma_entry_carries_on(
    t: FatType,
    ps: Seq<SlotPos>,
    ss: Seq<Seq<u8>>,
    i: int,
    p: MinFields,
    k: int,
)
    requires
        storable(t, p),
        entry_at(ss, i, p),
        0 < k < entry_slots(p).len(),
    ensures
        carries_on(scan_state(t, ps, ss, i, i + k, idle()), ss[i + k]),
{
    let n = entry_slots(p).len() - 1;
    assert(ss.subrange(i, i + entry_slots(p).len())[k] == ss[i + k]);
    assert(needs_lfn(p));
    lemma_scan_lfn(t, ps, ss, i, p, idle(), k);
    lemma_entry_slot_taken(t, p, k);
    if k == n {
        super::name_laws::law_record_reads_back(
            t,
            p,
            p.name,
            (SlotChain { first: SlotPos { offset: 0, cluster: None }, len: 0 }),
        );
        let a = p.attributes;
        assert(a & 0x08u8 != 0x08u8 ==> a != 0x0Fu8) by (bit_vector);
    } else {
        let g = n - 1 - k;
        let sum = crate::codec::fat::sfn_layout::sfn_checksum_of(p.sfn.raw()) as u8;
        super::name_laws::lemma_lfn_slot_seen(
            p.name,
            sum,
            g,
            super::name_laws::lfn_seen(p.name, sum, g + 1),
        );
    }
}

/// A set in progress has slots.
proof fn lemma_set_or_idle(t: FatType, ps: Seq<SlotPos>, ss: Seq<Seq<u8>>, k: int)
    requires
        0 <= k <= ss.len(),
    ensures
        ({
            let st = scan_state(t, ps, ss, 0, k, idle());
            &&& 0 <= st.set_len
            &&& st.set_len == 0 ==> st == idle()
        }),
    decreases k,
{
    if k > 0 {
        lemma_set_or_idle(t, ps, ss, k - 1);
        lemma_scan_last(t, ps, ss, 0, k, idle());
    }
}

/// Where a set starts nothing else is in progress.
proof fn lemma_set_begin(t: FatType, ps: Seq<SlotPos>, ss: Seq<Seq<u8>>, k: int)
    requires
        0 <= k <= ss.len(),
        goes_on(ss, 0, k),
        no_loose_names(t, ps, ss),
    ensures
        ({
            let n = scan_state(t, ps, ss, 0, k, idle()).set_len;
            &&& 0 <= n <= k
            &&& scan_state(t, ps, ss, 0, k - n, idle()) == idle()
        }),
    decreases k,
{
    lemma_set_or_idle(t, ps, ss, k);
    if k > 0 {
        assert(goes_on(ss, 0, k - 1));
        lemma_set_begin(t, ps, ss, k - 1);
        lemma_set_or_idle(t, ps, ss, k - 1);
        lemma_scan_last(t, ps, ss, 0, k, idle());
        let before = scan_state(t, ps, ss, 0, k - 1, idle());
        let after = scan_state(t, ps, ss, 0, k, idle());
        if after.set_len > 0 {
            let step = lfn_folded(before.lfn, ss[k - 1]).1;
            if step is StartedNew {
                if before != idle() {
                    assert(carries_on(before, ss[k - 1]));
                }
            }
        }
    }
}

/// Before and behind the set of an entry nothing is in progress.
proof fn lemma_set_idle(t: FatType, ps: Seq<SlotPos>, ss: Seq<Seq<u8>>, i: int, n: int)
    requires
        0 <= i,
        0 < n,
        i + n <= ss.len(),
        goes_on(ss, 0, i + n),
        no_loose_names(t, ps, ss),
        completes(t, ps, ss, i, n),
    ensures
        scan_state(t, ps, ss, 0, i, idle()) == idle(),
        scan_state(t, ps, ss, 0, i + n, idle()) == idle(),
{
    assert(goes_on(ss, 0, i + n - 1));
    lemma_set_begin(t, ps, ss, i + n - 1);
    lemma_scan_last(t, ps, ss, 0, i + n, idle());
}

/// Deleting the slots of an entry keeps a directory tidy.
proof fn lemma_delete_tidy(t: FatType, ps: Seq<SlotPos>, ss: Seq<Seq<u8>>, i: int, n: int)
    requires
        0 <= i,
        0 < n,
        i + n <= ss.len(),
        clean_end(ss),
        no_loose_names(t, ps, ss),
        goes_on(ss, 0, i + n),
        scan_state(t, ps, ss, 0, i, idle()) == idle(),
        scan_state(t, ps, ss, 0, i + n, idle()) == idle(),
        forall|j: int| 0 <= j < ss.len() ==> (#[trigger] ss[j]).len() == 32,
    ensures
        clean_end(with_deleted(ss, i, n)),
        no_loose_names(t, ps, with_deleted(ss, i, n)),
{
    let new = with_deleted(ss, i, n);
    assert forall|j: int| i <= j < i + n implies (#[trigger] new[j])[0] == SLOT_DELETED by {
        assert(ss[j].len() == 32);
    }
    assert forall|j: int, k: int|
        0 <= j <= k < new.len() && (#[trigger] new[j])[0] == SLOT_END implies (#[trigger] new[k])[0]
        == SLOT_END by {
        if j < i {
            assert(new[j] == ss[j]);
        }
        assert(j >= i + n);
        assert(new[j] == ss[j] && new[k] == ss[k]);
    }
    lemma_scan_prefix(t, ps, ss, new, 0, i, idle());
    assert forall|k: int|
        0 <= k <= new.len() && goes_on(new, 0, k) && #[trigger] scan_state(
            t,
            ps,
            new,
            0,
            k,
            idle(),
        ) != idle() implies k < new.len() && carries_on(
        scan_state(t, ps, new, 0, k, idle()),
        new[k],
    ) by {
        if k <= i {
            lemma_scan_prefix(t, ps, ss, new, 0, k, idle());
            assert(scan_state(t, ps, ss, 0, k, idle()) != idle());
            assert(new[k] == ss[k]);
        } else if k <= i + n {
            lemma_state_split(t, ps, new, 0, k - 1, k, idle());
            lemma_state_deleted(t, ps, new, k - 1, scan_state(t, ps, new, 0, k - 1, idle()));
        } else {
            lemma_state_split(t, ps, new, 0, i + n - 1, i + n, idle());
            lemma_state_deleted(t, ps, new, i + n - 1, scan_state(t, ps, new, 0, i + n - 1, idle()));
            lemma_state_split(t, ps, new, 0, i + n, k, idle());
            lemma_state_split(t, ps, ss, 0, i + n, k, idle());
            lemma_scan_prefix(t, ps, ss, new, i + n, k, idle());
            assert(goes_on(ss, 0, k)) by {
                assert forall|j: int| 0 <= j < k implies (#[trigger] ss[j])[0] != SLOT_END by {
                    if j >= i + n {
                        assert(new[j] == ss[j]);
                    }
                }
            }
            assert(scan_state(t, ps, ss, 0, k, idle()) != idle());
            assert(new[k] == ss[k]);
        }
    }
}

/// After a deleted slot nothing is in progress.
proof fn lemma_state_deleted(t: FatType, ps: Seq<SlotPos>, ss: Seq<Seq<u8>>, k: int, st: Scan)
    requires
        ss[k][0] == SLOT_DELETED,
    ensures
        scan_state(t, ps, ss, k, k + 1, st) == idle(),
{
    assert(scan_state(t, ps, ss, k + 1, k + 1, idle()) == idle());
}

/// The slots of an entry are not free.
proof fn lemma_entry_slot_taken(t: FatType, p: MinFields, k: int)
    requires
        storable(t, p),
        0 <= k < entry_slots(p).len(),
    ensures
        !is_free(entry_slots(p)[k]),
{
    let units = crate::text::utf16_of(p.name);
    let n = entry_slots(p).len() - 1;
    if k == n {
        super::name_laws::law_record_reads_back(
            t,
            p,
            p.name,
            (SlotChain { first: SlotPos { offset: 0, cluster: None }, len: 0 }),
        );
    } else {
        let g = n - 1 - k;
        let sum = crate::codec::fat::sfn_layout::sfn_checksum_of(p.sfn.raw()) as u8;
        super::name_laws::lemma_lfn_slot_seen(
            p.name,
            sum,
            g,
            super::name_laws::lfn_seen(p.name, sum, g + 1),
        );
    }
}

/// Inserting an entry into a tidy directory: the listing shows it at its
/// place, as the stored form holds it, and all other entries as before, in
/// their order; the directory stays tidy. Nothing is touched but free
/// clusters and the directory itself.
pub proof fn law_entry_inserted(l: FatLayout, d: FatDisk, p: MinFields, dir: FatDir, cs: Seq<u32>) -> (r:
    (Seq<u32>, Seq<FatFields>, Seq<FatFields>))
    requires
        l.dir_tidy(d.img, dir, cs),
        storable(l.fat_type, p),
        l.entry_inserted(d, p, dir).out is Ok,
    ensures
        ({
            let (more, before, behind) = r;
            let a = l.entry_inserted(d, p, dir).disk.img;
            let chain = l.entry_inserted(d, p, dir).out->Ok_0;
            &&& l.dir_tidy(a, dir, cs + more)
            &&& l.all_free(d.img, more)
            &&& fat_listing(l, d.img, dir) == (before + behind, None::<FsError<()>>)
            &&& fat_listing(l, a, dir) == (
                before + seq![stored_fields(p).at(chain)] + behind,
                None::<FsError<()>>,
            )
        }),
{
    let t = l.fat_type;
    let n = entry_slots(p).len() as int;
    lemma_entry_count(t, p);
    let (more, i) = lemma_room_found(l, d, dir, cs, n);
    let all = cs + more;
    let room = l.slots_reserved(d, dir, n);
    let z = room.disk.img;
    let (ps, qs) = (l.places(dir, cs), l.places(dir, all));
    let ss = l.dir_content(d.img, dir, cs);
    let long = l.dir_content(z, dir, all);
    lemma_places_walked(l, d.img, dir, cs);
    lemma_places_walked(l, z, dir, all);
    lemma_slots_sized(t, p);
    law_slots_written(l, room.disk, dir, all, i, entry_slots(p));
    let a = l.slots_written(room.disk, qs[i], entry_slots(p)).disk.img;
    lemma_places_walked(l, a, dir, all);
    lemma_insert_tidy(t, qs, long, i, p);
    assert(scan_state(t, qs, long, 0, i, idle()) == idle()) by {
        assert(is_free(long[i]));
    }
    law_slots_insert(t, qs, long, i, p);
    let zeros = (long.len() - ss.len()) as nat;
    lemma_scanned_longer(t, ps, qs, ss, zeros, 0, idle());
    law_listing_reads_slots(l, d.img, dir, ps);
    law_listing_reads_slots(l, a, dir, qs);
    let before = scan_found(t, qs, long, 0, i, idle());
    let behind = scanned(t, qs, long, i + n, idle());
    (more, before, behind)
}

/// An entry that reads back has at most 21 slots.
pub proof fn lemma_entry_count(t: FatType, p: MinFields)
    requires
        storable(t, p),
    ensures
        1 <= entry_slots(p).len() <= 21,
{
}

/// Every slot of an entry has 32 bytes.
pub proof fn lemma_slots_sized(t: FatType, p: MinFields)
    requires
        storable(t, p),
    ensures
        forall|k: int| 0 <= k < entry_slots(p).len() ==> (#[trigger] entry_slots(p)[k]).len() == 32,
{
    let n = entry_slots(p).len() - 1;
    assert forall|k: int| 0 <= k < entry_slots(p).len() implies (#[trigger] entry_slots(p)[k]).len()
        == 32 by {
        if k == n {
            super::name_laws::law_record_reads_back(
                t,
                p,
                p.name,
                (SlotChain { first: SlotPos { offset: 0, cluster: None }, len: 0 }),
            );
        } else {
            let g = n - 1 - k;
            let sum = crate::codec::fat::sfn_layout::sfn_checksum_of(p.sfn.raw()) as u8;
            super::name_laws::lemma_lfn_slot_seen(
                p.name,
                sum,
                g,
                super::name_laws::lfn_seen(p.name, sum, g + 1),
            );
        }
    }
}

/// Eleven bytes make a short name.
pub proof fn lemma_sfn_exists(raw: Seq<u8>)
    requires
        raw.len() == 11,
    ensures
        sfn_with(raw).raw() == raw,
{
    let s = Sfn {
        name: [raw[0], raw[1], raw[2], raw[3], raw[4], raw[5], raw[6], raw[7]],
        ext: [raw[8], raw[9], raw[10]],
    };
    assert(s.raw() =~= raw);
}

/// The bytes of generated names are legal short-name characters.
proof fn lemma_alias_bytes(s: Seq<char>)
    ensures
        forall|i: int| 0 <= i < alias_of(s).len() ==> 0x21 <= #[trigger] alias_of(s)[i] < 0x80,
    decreases s.len(),
{
    if s.len() > 0 {
        lemma_alias_bytes(s.drop_last());
        let c = s.last();
        crate::text::lemma_char_is_scalar(c);
        let up = super::sfn::upper_char(c);
        assert(super::sfn::sfn_legal(up) ==> 0x21 <= up as int && (up as int) < 0x80);
        let rest = alias_of(s.drop_last());
        assert forall|i: int| 0 <= i < alias_of(s).len() implies 0x21 <= #[trigger] alias_of(s)[i]
            < 0x80 by {
            if i < rest.len() {
                assert(alias_of(s)[i] == rest[i]);
            }
        }
    }
}

/// A generated short name has eleven bytes and starts no free slot.
proof fn lemma_alias_sound(name: Seq<char>, tail: Seq<u8>)
    requires
        1 <= tail.len() <= 5,
        tail[0] == 0x7E,
    ensures
        (short_name_of(alias_stem(name), tail) + alias_ext(name)).len() == 11,
        0x21 <= (short_name_of(alias_stem(name), tail) + alias_ext(name))[0] < 0x80,
{
    match super::sfn::last_dot(name, name.len() as int) {
        Some(d) => lemma_alias_bytes(name.subrange(0, d)),
        None => lemma_alias_bytes(name),
    }
    let stem = alias_stem(name);
    let raw = short_name_of(stem, tail) + alias_ext(name);
    if stem.len() == 0 {
        assert(raw[0] == tail[0]);
    } else {
        assert(raw[0] == stem[0]);
    }
}

/// The name found unused among the numbered ones.
proof fn lemma_numbered_free(l: FatLayout, img: Seq<u8>, dir: FatDir, name: Seq<char>, n: int)
    requires
        1 <= n,
    ensures
        l.numbered_free(img, dir, name, n) matches Ok(Some(raw)) ==> l.sfn_used(img, dir, raw) == Ok::<
            bool,
            FsError<()>,
        >(false) && raw.len() == 11 && 0x21 <= raw[0] < 0x80,
    decreases 5 - n,
{
    if n <= 4 {
        lemma_alias_sound(name, number_tail(n));
        lemma_numbered_free(l, img, dir, name, n + 1);
    }
}

/// The name found unused among the tagged ones.
proof fn lemma_tagged_free(
    l: FatLayout,
    img: Seq<u8>,
    dir: FatDir,
    name: Seq<char>,
    tag: int,
    k: int,
)
    ensures
        l.tagged_free(img, dir, name, tag, k) matches Ok(raw) ==> l.sfn_used(img, dir, raw) == Ok::<
            bool,
            FsError<()>,
        >(false) && raw.len() == 11 && 0x21 <= raw[0] < 0x80,
    decreases 0x1_0000 - k,
{
    if k < 0x1_0000 {
        lemma_alias_sound(name, hex_tail(tag));
        lemma_tagged_free(l, img, dir, name, (tag + 1) % 0x1_0000, k + 1);
    }
}

/// The short name chosen for a new entry is carried by no entry of the
/// directory, has eleven bytes and starts no free slot.
pub proof fn law_chosen_sfn_unused(l: FatLayout, img: Seq<u8>, dir: FatDir, name: Seq<char>)
    ensures
        l.sfn_chosen(img, dir, name) matches Ok(raw) ==> {
            &&& !has_sfn(fat_listing(l, img, dir).0, raw)
            &&& raw.len() == 11
            &&& 0x21 <= raw[0] < 0x80
        },
{
    lemma_numbered_free(l, img, dir, name, 1);
    lemma_tagged_free(
        l,
        img,
        dir,
        name,
        super::sfn::name_digest(vstd::utf8::encode_utf8(name)),
        0,
    );
    if let Some(raw) = exact_sfn(name) {
        let base = super::sfn::base_part(name);
        if name == seq!['.'] || name == seq!['.', '.'] {
            assert(raw[0] == 0x2E);
        } else {
            assert(super::sfn::sfn_legal(base[0]));
            assert(raw[0] == base[0] as u8);
        }
    }
}

/// The first two slots of a new directory at `c`.
pub open spec fn dot_slots(l: FatLayout, c: u32, parent: FatDir, at: PrimitiveDateTime) -> Seq<Seq<u8>> {
    seq![
        record_image(sfn_record(l.dot_fields(dot_sfn(), c, at))),
        record_image(sfn_record(l.dot_fields(dotdot_sfn(), l.parent_link(parent), at))),
    ]
}

/// A new directory's cluster was free; nothing but its cell and its bytes is
/// touched.
pub proof fn lemma_dir_cluster_effect(
    l: FatLayout,
    d: FatDisk,
    parent: FatDir,
    at: PrimitiveDateTime,
)
    requires
        l.sound(),
        l.volume_end() <= d.img.len(),
        at.wf(),
        l.dir_cluster_made(d, parent, at, dot_sfn(), dotdot_sfn()).out is Ok,
    ensures
        ({
            let a = l.dir_cluster_made(d, parent, at, dot_sfn(), dotdot_sfn());
            let c = a.out->Ok_0;
            &&& l.is_cluster(c as int)
            &&& l.all_free(d.img, seq![c])
            &&& l.touches_only(d.img, a.disk.img, members(seq![c]), l.cluster_bytes(seq![c]))
            &&& l.dir_sound(a.disk.img, FatDir::Clusters(c), seq![c])
            &&& l.dir_content(a.disk.img, FatDir::Clusters(c), seq![c]) == replaced(
                Seq::new(l.slots_in_cluster() as nat, |i: int| zero_slot()),
                0,
                dot_slots(l, c, parent, at),
            )
        }),
{
    let e = Set::<int>::empty();
    let m = l.allocated(d, 1, None);
    let new = m.out->Ok_0;
    law_allocated(l, d, 1, None);
    let c = new[0];
    let one = seq![c];
    assert(new =~= one);
    let z = l.zeroed(m.disk, c, 0);
    assert(l.is_cluster(new[0] as int));
    lemma_zeroed_effect(l, m.disk, c);
    let p = l.cluster_pos(c as int);
    let here = span(p, l.props.cluster_size as int);
    let area = l.cluster_bytes(one);
    assert(here.subset_of(area)) by {
        assert forall|b: int| here.contains(b) implies area.contains(b) by {
            assert(l.cluster_pos(one[0] as int) <= b);
        }
    }
    lemma_touches_more(l, d.img, m.disk.img, members(new).union(link_cell(None)), e, members(one), area);
    lemma_touches_more(l, m.disk.img, z.disk.img, e, here, members(one), area);
    lemma_touches_then(l, d.img, m.disk.img, z.disk.img, members(one), area);
    lemma_untouched(l, m.disk.img, z.disk.img, e, here, c as int);
    lemma_untouched(l, d.img, z.disk.img, members(one), area, 0);
    let dir = FatDir::Clusters(c);
    assert(l.dir_sound(z.disk.img, dir, one)) by {
        reveal(FatLayout::dir_sound);
        assert(one.last() == new.last());
    }
    let dots = dot_slots(l, c, parent, at);
    lemma_record_exists(sfn_record(l.dot_fields(dot_sfn(), c, at)));
    lemma_record_exists(sfn_record(l.dot_fields(dotdot_sfn(), l.parent_link(parent), at)));
    lemma_slot_units(l);
    let n = l.slots_in_cluster();
    assert(one.len() * n == n) by (nonlinear_arith)
        requires
            one.len() == 1,
    ;
    law_slots_written(l, z.disk, dir, one, 0, dots);
    lemma_places_walked(l, z.disk.img, dir, one);
    assert(l.dir_content(z.disk.img, dir, one) =~= Seq::new(n as nat, |i: int| zero_slot())) by {
        assert forall|k: int| 0 <= k < n implies #[trigger] l.dir_content(z.disk.img, dir, one)[k]
            == zero_slot() by {
            lemma_slot_cluster(l, one, k);
            super::dir_laws::lemma_place_apart(l, z.disk.img, dir, one, k, k);
            let off = l.place_offset(dir, one, k);
            assert(l.places(dir, one)[k].offset == off);
            assert(one[k / n] == c);
            assert(z.disk.img.subrange(off, off + 32) =~= zero_slot());
        }
    }
    let a = l.slots_written(z.disk, l.cluster_slot(c), dots).disk.img;
    let written = place_bytes(l, dir, one, 0, 2);
    assert(written.subset_of(area)) by {
        assert forall|b: int| written.contains(b) implies area.contains(b) by {
            let k = choose|k: int|
                0 <= k < 2 && #[trigger] l.place_offset(dir, one, k) <= b < l.place_offset(
                    dir,
                    one,
                    k,
                ) + 32;
            lemma_slot_cluster(l, one, k);
            assert(l.cluster_pos(one[0] as int) <= b);
        }
    }
    lemma_touches_more(l, z.disk.img, a, e, written, members(one), area);
    lemma_touches_then(l, d.img, z.disk.img, a, members(one), area);
}

/// A tidy directory is left alone by what takes free clusters only.
pub proof fn lemma_dir_apart(
    l: FatLayout,
    a: Seq<u8>,
    b: Seq<u8>,
    dir: FatDir,
    cs: Seq<u32>,
    taken: Seq<u32>,
)
    requires
        l.dir_tidy(a, dir, cs),
        l.all_free(a, taken),
        l.touches_only(a, b, members(taken), l.cluster_bytes(taken)),
        forall|i: int| 0 <= i < taken.len() ==> l.is_cluster((#[trigger] taken[i]) as int),
    ensures
        l.dir_tidy(b, dir, cs),
        l.dir_content(b, dir, cs) == l.dir_content(a, dir, cs),
{
    lemma_free_apart(l, a, dir, cs, taken);
    lemma_dir_kept(l, a, b, members(taken), l.cluster_bytes(taken), dir, cs);
    assert forall|k: int| 0 <= k < l.place_count(dir, cs) implies l.cluster_bytes(taken).disjoint(
        span(#[trigger] l.place_offset(dir, cs, k), 32),
    ) by {
        lemma_place_outside(l, a, dir, cs, taken, k);
    }
    lemma_slots_kept(l, a, b, members(taken), l.cluster_bytes(taken), dir, cs);
}

/// The slots of a directory lie in no cluster that is not its own.
pub proof fn lemma_place_outside(
    l: FatLayout,
    img: Seq<u8>,
    dir: FatDir,
    cs: Seq<u32>,
    taken: Seq<u32>,
    k: int,
)
    requires
        l.dir_sound(img, dir, cs),
        members(cs).disjoint(members(taken)),
        forall|i: int| 0 <= i < taken.len() ==> l.is_cluster((#[trigger] taken[i]) as int),
        0 <= k < l.place_count(dir, cs),
    ensures
        l.cluster_bytes(taken).disjoint(span(l.place_offset(dir, cs, k), 32)),
{
    reveal(FatLayout::dir_sound);
    lemma_slot_units(l);
    let off = l.place_offset(dir, cs, k);
    assert forall|b: int| !(l.cluster_bytes(taken).contains(b) && span(off, 32).contains(b)) by {
        if l.cluster_bytes(taken).contains(b) && span(off, 32).contains(b) {
            let j = choose|j: int|
                0 <= j < taken.len() && l.cluster_pos((#[trigger] taken[j]) as int) <= b
                    < l.cluster_pos(taken[j] as int) + l.props.cluster_size;
            let c = taken[j] as int;
            assert(l.is_cluster(c));
            match dir {
                FatDir::FixedRoot => {
                    lemma_cluster_places(l, c, c);
                },
                FatDir::Clusters(_) => {
                    lemma_slot_cluster(l, cs, k);
                    let own = cs[k / l.slots_in_cluster()];
                    assert(members(cs).contains(own as int));
                    assert(members(taken).contains(c));
                    assert(l.is_cluster(own as int));
                    lemma_cluster_places(l, own as int, c);
                },
            }
        }
    }
}

/// The first entry of that name in a list followed by another.
pub proof fn lemma_first_named_joined(
    p: NamePolicy,
    a: Seq<FatFields>,
    b: Seq<FatFields>,
    name: Seq<char>,
)
    ensures
        fat_first_named(p, a + b, name) == (match fat_first_named(p, a, name) {
            Some(e) => Some(e),
            None => fat_first_named(p, b, name),
        }),
    decreases a.len(),
{
    if a.len() == 0 {
        assert(a + b =~= b);
    } else {
        assert((a + b).first() == a.first());
        assert((a + b).drop_first() =~= a.drop_first() + b);
        lemma_first_named_joined(p, a.drop_first(), b, name);
    }
}

/// A list of one.
pub proof fn lemma_first_named_one(p: NamePolicy, f: FatFields, name: Seq<char>)
    ensures
        fat_first_named(p, seq![f], name) == (if p.same_name(f.name, name) {
            Some(f)
        } else {
            None
        }),
{
    assert(seq![f].first() == f);
    assert(seq![f].drop_first().len() == 0);
    assert(fat_first_named(p, seq![f].drop_first(), name) is None);
}

/// The fields of a new entry in `dir`, once its short name is chosen and its
/// cluster is made.
pub open spec fn inserted_fields(l: FatLayout, d: FatDisk, dir: FatDir, entry: NewEntry) -> MinFields {
    l.new_fields(
        entry,
        sfn_with(l.sfn_chosen(d.img, dir, entry.name@)->Ok_0),
        l.new_cluster(d, dir, entry).out->Ok_0,
    )
}

/// The name of a new entry can be stored so that it reads back: it fits
/// long-name slots, and it does not end with a dot if a short name would
/// store it.
pub open spec fn name_storable(name: Seq<char>) -> bool {
    &&& lfn_storable(name)
    &&& exact_sfn(name) is Some ==> name.last() != '.' || name == seq!['.'] || name == seq![
        '.',
        '.',
    ]
}

/// The cluster made for a new entry leaves its directory alone.
pub proof fn lemma_new_cluster_apart(
    l: FatLayout,
    d: FatDisk,
    dir: FatDir,
    cs: Seq<u32>,
    entry: NewEntry,
)
    requires
        l.dir_tidy(d.img, dir, cs),
        entry.times.wf(),
        l.new_cluster(d, dir, entry).out is Ok,
    ensures
        ({
            let c = l.new_cluster(d, dir, entry);
            &&& l.dir_tidy(c.disk.img, dir, cs)
            &&& l.dir_content(c.disk.img, dir, cs) == l.dir_content(d.img, dir, cs)
            &&& c.out->Ok_0 == entry.first_cluster || l.is_cluster(c.out->Ok_0 as int)
        }),
{
    if entry.is_dir && entry.first_cluster == 0 {
        assert(l.sound() && l.volume_end() <= d.img.len()) by {
            reveal(FatLayout::dir_sound);
        }
        let at = match entry.times.modified {
            Some(t) => t,
            None => epoch_datetime(),
        };
        lemma_dir_cluster_effect(l, d, dir, at);
        let c = l.new_cluster(d, dir, entry);
        let one = seq![c.out->Ok_0];
        assert(one[0] == c.out->Ok_0);
        lemma_dir_apart(l, d.img, c.disk.img, dir, cs, one);
    }
}

/// The fields of a new entry can be stored so that they read back.
pub proof fn lemma_inserted_storable(
    l: FatLayout,
    d: FatDisk,
    dir: FatDir,
    cs: Seq<u32>,
    entry: NewEntry,
)
    requires
        l.dir_tidy(d.img, dir, cs),
        name_storable(entry.name@),
        entry.times.wf(),
        l.fat_type is FAT16 ==> entry.first_cluster < 0x1_0000,
        l.sfn_chosen(d.img, dir, entry.name@) is Ok,
        l.new_cluster(d, dir, entry).out is Ok,
    ensures
        storable(l.fat_type, inserted_fields(l, d, dir, entry)),
{
    let raw = l.sfn_chosen(d.img, dir, entry.name@)->Ok_0;
    let p = inserted_fields(l, d, dir, entry);
    law_chosen_sfn_unused(l, d.img, dir, entry.name@);
    lemma_sfn_exists(raw);
    lemma_new_cluster_apart(l, d, dir, cs, entry);
    assert(l.sound()) by {
        reveal(FatLayout::dir_sound);
    }
    let attrs = if entry.is_dir {
        entry.attrs
    } else {
        Attributes { archive: true, ..entry.attrs }
    };
    lemma_no_volume_bit(attrs, entry.is_dir);
    assert(epoch_datetime().wf());
}

/// Attributes that an entry can be given never mark a volume label.
proof fn lemma_no_volume_bit(a: Attributes, is_dir: bool)
    ensures
        (packed_attributes(a, is_dir) as u8) & RAW_VOLUME_ID != RAW_VOLUME_ID,
{
    let m = packed_attributes(a, is_dir);
    crate::attrs::law_attributes_round_trip(a, is_dir);
    assert(m & 0x08u16 == 0 && m < 0x100 ==> (m as u8) & 0x08u8 != 0x08u8) by (bit_vector);
}

/// Inserting an entry into a tidy directory: the entry is found under its
/// name, with the fields it was given as their stored form holds them, where
/// nothing was found before; under every other name lookups find what they
/// found before; and the directory stays tidy.
pub proof fn law_insert_then_found(
    l: FatLayout,
    d: FatDisk,
    dir: FatDir,
    cs: Seq<u32>,
    entry: NewEntry,
    other: Seq<char>,
) -> (more: Seq<u32>)
    requires
        l.dir_tidy(d.img, dir, cs),
        name_storable(entry.name@),
        entry.times.wf(),
        l.fat_type is FAT16 ==> entry.first_cluster < 0x1_0000,
        l.inserted(d, dir, entry).out is Ok,
    ensures
        ({
            let a = l.inserted(d, dir, entry).disk.img;
            let given = l.inserted(d, dir, entry).out->Ok_0;
            let p = inserted_fields(l, d, dir, entry);
            &&& l.dir_tidy(a, dir, cs + more)
            &&& !entry.is_dir || entry.first_cluster != 0 ==> l.all_free(d.img, more)
            &&& given == p.at(given.chain)
            &&& !has_sfn(fat_listing(l, d.img, dir).0, p.sfn.raw())
            &&& l.child(d.img, dir, entry.name@) == Ok::<Option<FatFields>, FsError<()>>(None)
            &&& l.child(a, dir, entry.name@) == Ok::<Option<FatFields>, FsError<()>>(
                Some(stored_fields(p).at(given.chain)),
            )
            &&& !NamePolicy::Ascii.same_name(entry.name@, other) ==> l.child(a, dir, other)
                == l.child(d.img, dir, other)
        }),
{
    let raw = l.sfn_chosen(d.img, dir, entry.name@)->Ok_0;
    let p = inserted_fields(l, d, dir, entry);
    let c = l.new_cluster(d, dir, entry);
    lemma_new_cluster_apart(l, d, dir, cs, entry);
    lemma_inserted_storable(l, d, dir, cs, entry);
    law_chosen_sfn_unused(l, d.img, dir, entry.name@);
    lemma_sfn_exists(raw);
    let (more, before, behind) = law_entry_inserted(l, c.disk, p, dir, cs);
    let a = l.entry_inserted(c.disk, p, dir).disk.img;
    let chain = l.entry_inserted(c.disk, p, dir).out->Ok_0;
    let f = stored_fields(p).at(chain);
    // The directory lists the same before and after its new cluster is made.
    lemma_places_walked(l, d.img, dir, cs);
    lemma_places_walked(l, c.disk.img, dir, cs);
    law_listing_reads_slots(l, d.img, dir, l.places(dir, cs));
    law_listing_reads_slots(l, c.disk.img, dir, l.places(dir, cs));
    let ascii = NamePolicy::Ascii;
    let name = entry.name@;
    lemma_first_named_joined(ascii, before, behind, name);
    lemma_first_named_joined(ascii, before + seq![f], behind, name);
    lemma_first_named_joined(ascii, before, seq![f], name);
    lemma_first_named_one(ascii, f, name);
    crate::name::law_same_name_equivalence(ascii, name, name, name);
    lemma_first_named_joined(ascii, before, behind, other);
    lemma_first_named_joined(ascii, before + seq![f], behind, other);
    lemma_first_named_joined(ascii, before, seq![f], other);
    lemma_first_named_one(ascii, f, other);
    more
}

/// Removing the entry number `m` of a tidy directory's listing: the listing
/// shows all others, in their order, and no longer that one; the directory
/// stays tidy.
pub proof fn law_remove_takes_out_one(
    l: FatLayout,
    d: FatDisk,
    dir: FatDir,
    cs: Seq<u32>,
    m: int,
)
    requires
        l.dir_tidy(d.img, dir, cs),
        0 <= m < fat_listing(l, d.img, dir).0.len(),
    ensures
        ({
            let all = fat_listing(l, d.img, dir).0;
            let chain = all[m].chain;
            let r = l.slots_deleted(d, chain.first, chain.len as int);
            &&& r.out is Ok
            &&& l.dir_tidy(r.disk.img, dir, cs)
            &&& fat_listing(l, r.disk.img, dir) == (
                all.subrange(0, m) + all.subrange(m + 1, all.len() as int),
                None::<FsError<()>>,
            )
        }),
{
    let t = l.fat_type;
    let ps = l.places(dir, cs);
    let ss = l.dir_content(d.img, dir, cs);
    lemma_places_walked(l, d.img, dir, cs);
    law_listing_reads_slots(l, d.img, dir, ps);
    assert forall|j: int| 0 <= j < ss.len() implies (#[trigger] ss[j]).len() == 32 by {
        assert(l.slot_read(d.img, ps[j]) is Ok);
    }
    let i = law_slots_delete(t, ps, ss, m);
    let all = scanned(t, ps, ss, 0, idle());
    let n = all[m].chain.len as int;
    law_slots_deleted(l, d, dir, cs, i, n);
    lemma_set_idle(t, ps, ss, i, n);
    lemma_delete_tidy(t, ps, ss, i, n);
    let a = l.slots_deleted(d, ps[i], n).disk.img;
    lemma_places_walked(l, a, dir, cs);
    law_listing_reads_slots(l, a, dir, ps);
}

/// Removing the only entry of a name from a tidy directory: it is not found
/// any more, and under every other name lookups find what they found before.
pub proof fn law_remove_then_gone(
    l: FatLayout,
    d: FatDisk,
    dir: FatDir,
    cs: Seq<u32>,
    m: int,
    other: Seq<char>,
)
    requires
        l.dir_tidy(d.img, dir, cs),
        0 <= m < fat_listing(l, d.img, dir).0.len(),
    ensures
        ({
            let all = fat_listing(l, d.img, dir).0;
            let f = all[m];
            let a = l.slots_deleted(d, f.chain.first, f.chain.len as int).disk.img;
            let ascii = NamePolicy::Ascii;
            &&& (forall|j: int|
                0 <= j < all.len() && j != m ==> !ascii.same_name((#[trigger] all[j]).name, f.name))
                ==> l.child(a, dir, f.name) == Ok::<Option<FatFields>, FsError<()>>(None)
            &&& !ascii.same_name(f.name, other) ==> l.child(a, dir, other) == l.child(
                d.img,
                dir,
                other,
            )
        }),
{
    law_remove_takes_out_one(l, d, dir, cs, m);
    let all = fat_listing(l, d.img, dir).0;
    lemma_places_walked(l, d.img, dir, cs);
    law_listing_reads_slots(l, d.img, dir, l.places(dir, cs));
    let f = all[m];
    let ascii = NamePolicy::Ascii;
    let (before, behind) = (all.subrange(0, m), all.subrange(m + 1, all.len() as int));
    assert(all =~= before + seq![f] + behind);
    lemma_first_named_joined(ascii, before + seq![f], behind, other);
    lemma_first_named_joined(ascii, before, seq![f], other);
    lemma_first_named_joined(ascii, before, behind, other);
    lemma_first_named_one(ascii, f, other);
    if forall|j: int|
        0 <= j < all.len() && j != m ==> !ascii.same_name((#[trigger] all[j]).name, f.name) {
        let rest = before + behind;
        assert forall|j: int| 0 <= j < rest.len() implies !ascii.same_name(
            (#[trigger] rest[j]).name,
            f.name,
        ) by {
            if j < m {
                assert(rest[j] == all[j]);
            } else {
                assert(rest[j] == all[j + 1]);
            }
        }
        lemma_first_named_absent(ascii, rest, f.name);
    }
}

/// A list in which nothing goes by a name.
proof fn lemma_first_named_absent(p: NamePolicy, a: Seq<FatFields>, name: Seq<char>)
    requires
        forall|j: int| 0 <= j < a.len() ==> !p.same_name((#[trigger] a[j]).name, name),
    ensures
        fat_first_named(p, a, name) is None,
    decreases a.len(),
{
    if a.len() > 0 {
        assert(a.first() == a[0]);
        let rest = a.drop_first();
        assert forall|j: int| 0 <= j < rest.len() implies !p.same_name((#[trigger] rest[j]).name, name) by {
            assert(rest[j] == a[j + 1]);
        }
        lemma_first_named_absent(p, rest, name);
    }
}

/// A new directory lists `.`, which leads to itself, and `..`, which leads to
/// its parent or, where that is the root, to cluster 0; and nothing else.
pub proof fn law_new_directory_lists_dots(
    l: FatLayout,
    d: FatDisk,
    parent: FatDir,
    at: PrimitiveDateTime,
)
    requires
        l.sound(),
        l.volume_end() <= d.img.len(),
        at.wf(),
        parent matches FatDir::Clusters(p) ==> l.is_cluster(p as int),
        l.dir_cluster_made(d, parent, at, dot_sfn(), dotdot_sfn()).out is Ok,
    ensures
        ({
            let a = l.dir_cluster_made(d, parent, at, dot_sfn(), dotdot_sfn());
            let c = a.out->Ok_0;
            let (entries, err) = fat_listing(l, a.disk.img, FatDir::Clusters(c));
            &&& err is None
            &&& entries.len() == 2
            &&& entries[0].name == seq!['.']
            &&& entries[0].is_dir
            &&& entries[0].data_cluster == c
            &&& entries[1].name == seq!['.', '.']
            &&& entries[1].is_dir
            &&& entries[1].data_cluster == l.parent_link(parent)
        }),
{
    lemma_dir_cluster_effect(l, d, parent, at);
    let a = l.dir_cluster_made(d, parent, at, dot_sfn(), dotdot_sfn());
    lemma_dots_listed(l, a.disk.img, a.out->Ok_0, parent, at);
}

/// `.` and `..` have short names that store them exactly.
proof fn lemma_dot_names()
    ensures
        exact_sfn(seq!['.']) == Some(dot_sfn().raw()),
        exact_sfn(seq!['.', '.']) == Some(dotdot_sfn().raw()),
{
    lemma_sfn_exists(current_dir_raw());
    lemma_sfn_exists(parent_dir_raw());
    assert(seq!['.', '.'] != seq!['.']) by {
        assert(seq!['.', '.'].len() == 2 && seq!['.'].len() == 1);
    }
}

/// A cluster of zeros behind `.` and `..` lists those two.
proof fn lemma_dots_listed(
    l: FatLayout,
    img: Seq<u8>,
    c: u32,
    parent: FatDir,
    at: PrimitiveDateTime,
)
    requires
        l.sound(),
        at.wf(),
        l.is_cluster(c as int),
        parent matches FatDir::Clusters(p) ==> l.is_cluster(p as int),
        l.dir_sound(img, FatDir::Clusters(c), seq![c]),
        l.dir_content(img, FatDir::Clusters(c), seq![c]) == replaced(
            Seq::new(l.slots_in_cluster() as nat, |i: int| zero_slot()),
            0,
            dot_slots(l, c, parent, at),
        ),
    ensures
        ({
            let (entries, err) = fat_listing(l, img, FatDir::Clusters(c));
            &&& err is None
            &&& entries.len() == 2
            &&& entries[0].name == seq!['.']
            &&& entries[0].is_dir
            &&& entries[0].data_cluster == c
            &&& entries[1].name == seq!['.', '.']
            &&& entries[1].is_dir
            &&& entries[1].data_cluster == l.parent_link(parent)
        }),
{
    let t = l.fat_type;
    let dir = FatDir::Clusters(c);
    let one = seq![c];
    let ps = l.places(dir, one);
    let ss = l.dir_content(img, dir, one);
    lemma_places_walked(l, img, dir, one);
    lemma_slot_units(l);
    super::layout::lemma_cluster_size(l);
    let n = l.slots_in_cluster();
    assert(one.len() * n == n) by (nonlinear_arith)
        requires
            one.len() == 1,
    ;
    law_listing_reads_slots(l, img, dir, ps);
    lemma_dot_names();
    let dots = dot_slots(l, c, parent, at);
    assert(l.fat_type is FAT16 ==> l.props.max_cluster < 0x1_0000);
    lemma_dot_slot(l, dot_sfn(), seq!['.'], c, at, ps[0]);
    lemma_dot_slot(l, dotdot_sfn(), seq!['.', '.'], l.parent_link(parent), at, ps[1]);
    assert(ss[0] == dots[0] && ss[1] == dots[1] && ss[2] == zero_slot());
    lemma_two_slots(t, ps, ss, dots[0], dots[1]);
}

/// A directory whose third slot ends it lists what the first two hold.
proof fn lemma_two_slots(t: FatType, ps: Seq<SlotPos>, ss: Seq<Seq<u8>>, a: Seq<u8>, b: Seq<u8>)
    requires
        ss.len() > 2,
        ss[0] == a,
        ss[1] == b,
        ss[2][0] == SLOT_END,
        !is_free(a),
        !is_free(b),
        looked_at(t, idle(), ps[0], a).0 is Some,
        looked_at(t, idle(), ps[1], b).0 is Some,
        looked_at(t, idle(), ps[0], a).1 == idle(),
        looked_at(t, idle(), ps[1], b).1 == idle(),
    ensures
        scanned(t, ps, ss, 0, idle()) == seq![
            looked_at(t, idle(), ps[0], a).0->0,
            looked_at(t, idle(), ps[1], b).0->0,
        ],
{
    let (f, g) = (looked_at(t, idle(), ps[0], a).0->0, looked_at(t, idle(), ps[1], b).0->0);
    assert(scanned(t, ps, ss, 2, idle()) =~= seq![]);
    assert(scanned(t, ps, ss, 1, idle()) =~= seq![g]);
    assert(scanned(t, ps, ss, 0, idle()) =~= seq![f, g]);
}

/// The record of `.` or `..` reads back as a directory of that name.
proof fn lemma_dot_slot(
    l: FatLayout,
    sfn: Sfn,
    name: Seq<char>,
    cluster: u32,
    at: PrimitiveDateTime,
    pos: SlotPos,
)
    requires
        at.wf(),
        exact_sfn(name) == Some(sfn.raw()),
        name == seq!['.'] || name == seq!['.', '.'],
        l.fat_type is FAT16 ==> cluster < 0x1_0000,
    ensures
        ({
            let slot = record_image(sfn_record(l.dot_fields(sfn, cluster, at)));
            let (f, st) = looked_at(l.fat_type, idle(), pos, slot);
            &&& !is_free(slot)
            &&& st == idle()
            &&& f matches Some(f) && f.name == name && f.is_dir && f.data_cluster == cluster
        }),
{
    let p = l.dot_fields(sfn, cluster, at);
    super::name_laws::law_exact_sfn_displayed(name, sfn);
    law_record_reads_back(l.fat_type, p, name, (SlotChain { first: pos, len: 1 }));
    assert(0x10u8 & 0x08u8 != 0x08u8 && 0x10u8 & 0x10u8 == 0x10u8) by (bit_vector);
}

/// Walking `n` slots from slot `i`.
pub proof fn lemma_slot_nth(l: FatLayout, img: Seq<u8>, dir: FatDir, ps: Seq<SlotPos>, i: int, n: int)
    requires
        l.slots_at(img, dir, ps),
        0 <= i,
        0 <= n,
        i + n < ps.len(),
    ensures
        l.slot_nth(img, ps[i], n) == Ok::<Option<SlotPos>, FsError<()>>(Some(ps[i + n])),
    decreases n,
{
    if n > 0 {
        assert(l.slot_after(img, ps[i]) == Ok::<Option<SlotPos>, FsError<()>>(Some(ps[i + 1])));
        lemma_slot_nth(l, img, dir, ps, i + 1, n - 1);
    }
}

/// Rewriting the record of the entry number `m` of a directory: the listing
/// shows that entry with its new fields, under the same name and at the same
/// place, and all others as before.
pub proof fn law_rewrite_changes_one(
    l: FatLayout,
    d: FatDisk,
    dir: FatDir,
    cs: Seq<u32>,
    m: int,
    q: MinFields,
)
    requires
        l.dir_sound(d.img, dir, cs),
        0 <= m < fat_listing(l, d.img, dir).0.len(),
        q.wf(),
        fields_fit(l.fat_type, q),
        q.attributes & RAW_VOLUME_ID != RAW_VOLUME_ID,
        q.sfn == fat_listing(l, d.img, dir).0[m].sfn,
    ensures
        ({
            let all = fat_listing(l, d.img, dir).0;
            let (name, chain) = (all[m].name, all[m].chain);
            let r = l.record_rewritten(d, chain, q);
            &&& r.out is Ok
            &&& l.dir_sound(r.disk.img, dir, cs)
            &&& fat_listing(l, r.disk.img, dir) == (
                all.update(m, (MinFields { name, ..stored_fields(q) }).at(chain)),
                None::<FsError<()>>,
            )
        }),
{
    let t = l.fat_type;
    let ps = l.places(dir, cs);
    let all_slots = l.dir_content(d.img, dir, cs);
    let ss = within_cap(all_slots);
    lemma_places_walked(l, d.img, dir, cs);
    law_listing_reads_slots(l, d.img, dir, ps);
    assert forall|j: int| 0 <= j < ss.len() implies (#[trigger] ss[j]).len() == 32 by {
        assert(l.slot_read(d.img, ps[j]) is Ok);
    }
    let k = law_record_patch(t, ps, ss, m, q);
    let chain = scanned(t, ps, ss, 0, idle())[m].chain;
    let n = chain.len as int;
    lemma_slot_nth(l, d.img, dir, ps, k + 1 - n, n - 1);
    let rec = record_image(sfn_record(q));
    lemma_record_exists(sfn_record(q));
    lemma_slot_written(l, d, dir, cs, k, rec);
    assert(crate::bytes::spliced(ss[k], 0, rec) =~= rec);
    let a = l.written(d, ps[k].offset as int, rec).disk.img;
    lemma_places_walked(l, a, dir, cs);
    law_listing_reads_slots(l, a, dir, ps);
    assert(within_cap(all_slots.update(k, rec)) =~= ss.update(k, rec));
}

} // verus!
