//! How a directory's listing follows its stream: appending, replacing or
//! unlinking one entry set changes that one entry of the listing and leaves
//! the others, in their order.

use vstd::prelude::*;

use super::dir_edit::{end_slot, unlinked_set};
use super::direntry::{
    decoded_at, decoded_set, lemma_decoded_set_shape, next_entry, set_len, set_shape, EntryFields,
};
use super::readdir::{
    fits_volume, lemma_next_entry_bounds, lemma_next_listed_bounds, listed, listed_from,
    next_listed, placed, DirWalk,
};
use crate::bytes::spliced;
use crate::codec::exfat::boot::ExfatBootRecord;
use crate::codec::exfat::consts::{
    END_OF_DIRECTORY, ENTRY_IN_USE, ENTRY_TYPE_FILE, ENTRY_TYPE_FILE_NAME,
    ENTRY_TYPE_STREAM_EXTENSION,
};

verus! {

/// What the listing has of the entry `e` found at `pos`: the entry with its
/// place, or nothing if it does not fit the volume.
pub open spec fn shown(boot: ExfatBootRecord, w: DirWalk, e: EntryFields, pos: int) -> Seq<
    EntryFields,
> {
    if fits_volume(boot, e) {
        seq![placed(e, w, pos)]
    } else {
        seq![]
    }
}

/// Slot `p` is where a set may start: no set can run across it.
pub open spec fn set_boundary(s: Seq<u8>, p: int) -> bool {
    &&& 0 <= p <= s.len()
    &&& p % 32 == 0
    &&& p < s.len() ==> s[p] != ENTRY_TYPE_STREAM_EXTENSION && s[p] != ENTRY_TYPE_FILE_NAME
}

/// No slot in `from..to` ends the directory.
pub open spec fn no_end(s: Seq<u8>, from: int, to: int) -> bool {
    forall|k: int|
        from <= k < to && k % 32 == 0 && k + 32 <= s.len() ==> #[trigger] s[k] != END_OF_DIRECTORY
}

/// The listing from `q` on: the next set, then the listing behind it.
pub proof fn lemma_listed_step(boot: ExfatBootRecord, w: DirWalk, s: Seq<u8>, q: int)
    requires
        0 <= q,
    ensures
        listed_from(boot, w, s, q) == (match next_entry(s, q) {
            None => seq![],
            Some((e, r)) => shown(boot, w, e, r - e.entry_set_len) + listed_from(boot, w, s, r),
        }),
{
    lemma_next_entry_bounds(s, q);
    lemma_next_listed_bounds(boot, w, s, q);
    match next_entry(s, q) {
        None => {},
        Some((e, r)) => {
            if fits_volume(boot, e) {
                assert(shown(boot, w, e, r - e.entry_set_len) =~= seq![
                    placed(e, w, r - e.entry_set_len),
                ]);
            } else {
                lemma_next_listed_bounds(boot, w, s, r);
                assert(next_listed(boot, w, s, q) == next_listed(boot, w, s, r));
                assert(listed_from(boot, w, s, q) =~= listed_from(boot, w, s, r));
                assert(Seq::<EntryFields>::empty() + listed_from(boot, w, s, r) =~= listed_from(
                    boot,
                    w,
                    s,
                    r,
                ));
            }
        },
    }
}

/// A set that starts before a boundary ends before it, or is no set.
proof fn lemma_decoded_before(s: Seq<u8>, p: int, q: int)
    requires
        set_boundary(s, p),
        0 <= q < p,
        q % 32 == 0,
    ensures
        decoded_at(s.subrange(0, p), q) == decoded_at(s, q),
        decoded_at(s, q) matches Some(e) ==> q + e.entry_set_len <= p && e.entry_set_len % 32 == 0
            && e.entry_set_len > 0,
{
    let t = s.subrange(0, p);
    assert(s.subrange(q, q + 32) =~= t.subrange(q, q + 32));
    let n = set_len(s.subrange(q, q + 32));
    if q + n <= s.len() {
        let set = s.subrange(q, q + n);
        lemma_decoded_set_shape(set);
        if q + n <= p {
            assert(t.subrange(q, q + n) =~= set);
        } else if decoded_set(set) is Some {
            let i = (p - q) / 32;
            assert(p - q == 32 * i);
            assert(set[32 * i] == s[p]);
            assert(set[1] == s.subrange(q, q + 32)[1]);
            assert(1 <= i < 1 + set[1]);
            assert(false);
        }
    }
}

/// Decoding up to a boundary does not see what lies behind it.
proof fn lemma_next_entry_split(s: Seq<u8>, p: int, q: int)
    requires
        set_boundary(s, p),
        0 <= q <= p,
        q % 32 == 0,
        no_end(s, q, p),
    ensures
        match next_entry(s.subrange(0, p), q) {
            Some((e, r)) => {
                &&& next_entry(s, q) == Some((e, r))
                &&& q < r <= p
                &&& r % 32 == 0
            },
            None => next_entry(s, q) == next_entry(s, p),
        },
    decreases p - q,
{
    let t = s.subrange(0, p);
    if q < p {
        assert(t[q] == s[q]);
        lemma_decoded_before(s, p, q);
        if decoded_at(s, q) is None {
            lemma_next_entry_split(s, p, q + 32);
        }
    }
}

/// The listing of a stream: what stands before a boundary, then what stands
/// from it on.
proof fn lemma_listed_split(boot: ExfatBootRecord, w: DirWalk, s: Seq<u8>, p: int, q: int)
    requires
        set_boundary(s, p),
        0 <= q <= p,
        q % 32 == 0,
        no_end(s, q, p),
    ensures
        listed_from(boot, w, s, q) == listed_from(boot, w, s.subrange(0, p), q) + listed_from(
            boot,
            w,
            s,
            p,
        ),
    decreases p - q,
{
    let t = s.subrange(0, p);
    lemma_next_entry_split(s, p, q);
    lemma_listed_step(boot, w, s, q);
    lemma_listed_step(boot, w, t, q);
    match next_entry(t, q) {
        None => {
            lemma_listed_step(boot, w, s, p);
            assert(listed_from(boot, w, s, q) =~= listed_from(boot, w, t, q) + listed_from(
                boot,
                w,
                s,
                p,
            ));
        },
        Some((e, r)) => {
            lemma_listed_split(boot, w, s, p, r);
            assert(listed_from(boot, w, s, q) =~= listed_from(boot, w, t, q) + listed_from(
                boot,
                w,
                s,
                p,
            ));
        },
    }
}

/// Decoding does not look back.
proof fn lemma_next_entry_suffix(a: Seq<u8>, b: Seq<u8>, q: int)
    requires
        a.len() == b.len(),
        0 <= q,
        forall|i: int| q <= i < a.len() ==> a[i] == b[i],
    ensures
        next_entry(a, q) == next_entry(b, q),
    decreases a.len() - q,
{
    if q + 32 <= a.len() {
        assert(a.subrange(q, q + 32) =~= b.subrange(q, q + 32));
        let n = set_len(a.subrange(q, q + 32));
        if q + n <= a.len() {
            assert(a.subrange(q, q + n) =~= b.subrange(q, q + n));
        }
        lemma_next_entry_suffix(a, b, q + 32);
    }
}

/// Listing does not look back.
proof fn lemma_listed_suffix(boot: ExfatBootRecord, w: DirWalk, a: Seq<u8>, b: Seq<u8>, q: int)
    requires
        a.len() == b.len(),
        0 <= q,
        forall|i: int| q <= i < a.len() ==> a[i] == b[i],
    ensures
        listed_from(boot, w, a, q) == listed_from(boot, w, b, q),
    decreases a.len() - q,
{
    lemma_next_entry_suffix(a, b, q);
    lemma_listed_step(boot, w, a, q);
    lemma_listed_step(boot, w, b, q);
    lemma_next_entry_bounds(a, q);
    if let Some((e, r)) = next_entry(a, q) {
        lemma_listed_suffix(boot, w, a, b, r);
    }
}

/// Nothing ends the directory before its end slot, where a set may start.
pub proof fn lemma_end_slot(buf: Seq<u8>, pos: int)
    requires
        0 <= pos <= buf.len(),
        pos % 32 == 0,
        buf.len() % 32 == 0,
    ensures
        pos <= end_slot(buf, pos) <= buf.len(),
        end_slot(buf, pos) % 32 == 0,
        no_end(buf, pos, end_slot(buf, pos)),
        end_slot(buf, pos) < buf.len() ==> buf[end_slot(buf, pos)] == END_OF_DIRECTORY,
    decreases buf.len() - pos,
{
    if pos + 32 > buf.len() || buf[pos] == END_OF_DIRECTORY {
    } else {
        lemma_end_slot(buf, pos + 32);
    }
}

/// A stream that holds a set at `pos` lists the set's entry there.
proof fn lemma_listed_at(boot: ExfatBootRecord, w: DirWalk, s: Seq<u8>, pos: int, e: EntryFields)
    requires
        0 <= pos,
        decoded_at(s, pos) == Some(e),
    ensures
        listed_from(boot, w, s, pos) == shown(boot, w, e, pos) + listed_from(
            boot,
            w,
            s,
            pos + e.entry_set_len,
        ),
        s[pos] == ENTRY_TYPE_FILE,
        pos + e.entry_set_len <= s.len(),
        64 <= e.entry_set_len,
        e.entry_set_len % 32 == 0,
{
    let n = set_len(s.subrange(pos, pos + 32));
    let set = s.subrange(pos, pos + n);
    lemma_decoded_set_shape(set);
    assert(set[0] == s[pos]);
    assert(set[1] == s.subrange(pos, pos + 32)[1]);
    lemma_listed_step(boot, w, s, pos);
}

/// A whole set that stands at `pos` of a stream decodes there.
proof fn lemma_decoded_in_place(s: Seq<u8>, pos: int, set: Seq<u8>)
    requires
        0 <= pos,
        pos + set.len() <= s.len(),
        s.subrange(pos, pos + set.len()) == set,
        decoded_set(set) is Some,
    ensures
        decoded_at(s, pos) == decoded_set(set),
{
    lemma_decoded_set_shape(set);
    assert(s.subrange(pos, pos + 32)[1] == set[1]) by {
        assert(s.subrange(pos, pos + set.len())[1] == s[pos + 1]);
    }
}

/// Appending a set at the end slot of a directory stream, which may have been
/// lengthened by zeros, adds its entry behind all entries there were. Behind
/// the new entry comes whatever stood there already: nothing, unless bytes
/// were left behind the old end of the directory.
pub proof fn law_append_adds_entry(
    boot: ExfatBootRecord,
    w: DirWalk,
    buf: Seq<u8>,
    zeros: nat,
    set: Seq<u8>,
    e: EntryFields,
)
    requires
        buf.len() % 32 == 0,
        decoded_set(set) == Some(e),
        end_slot(buf, 0) + set.len() <= buf.len() + zeros,
    ensures
        ({
            let end = end_slot(buf, 0);
            let long = buf + Seq::new(zeros, |i: int| 0u8);
            let new = spliced(long, end, set);
            &&& listed(boot, w, new) == listed(boot, w, buf) + shown(boot, w, e, end) + listed_from(
                boot,
                w,
                long,
                end + set.len(),
            )
            &&& end + set.len() >= buf.len() || buf[end + set.len()] == END_OF_DIRECTORY
                ==> listed_from(boot, w, long, end + set.len()) == Seq::<EntryFields>::empty()
        }),
{
    let end = end_slot(buf, 0);
    let long = buf + Seq::new(zeros, |i: int| 0u8);
    let new = spliced(long, end, set);
    lemma_decoded_set_shape(set);
    lemma_end_slot(buf, 0);
    assert(no_end(new, 0, end)) by {
        assert forall|k: int| 0 <= k < end && k % 32 == 0 && k + 32 <= new.len() implies #[trigger] new[k]
            != END_OF_DIRECTORY by {
            assert(new[k] == buf[k]);
        }
    }
    assert(new[end] == set[0]);
    assert(new.subrange(end, end + set.len()) =~= set);
    lemma_decoded_in_place(new, end, set);
    lemma_listed_split(boot, w, new, end, 0);
    lemma_listed_split(boot, w, buf, end, 0);
    assert(new.subrange(0, end) =~= buf.subrange(0, end));
    lemma_listed_at(boot, w, new, end, e);
    lemma_listed_suffix(boot, w, new, long, end + set.len());
    lemma_listed_step(boot, w, buf, end);
    lemma_listed_step(boot, w, long, end + set.len());
    assert(listed(boot, w, buf) =~= listed_from(boot, w, buf.subrange(0, end), 0));
    assert(listed(boot, w, new) =~= listed(boot, w, buf) + shown(boot, w, e, end) + listed_from(
        boot,
        w,
        long,
        end + set.len(),
    ));
    if end + set.len() < long.len() {
        assert(end + set.len() >= buf.len() || buf[end + set.len()] == END_OF_DIRECTORY ==> long[end
            + set.len()] == END_OF_DIRECTORY);
    }
}

/// Replacing an entry set by one of the same length replaces its entry in the
/// listing and leaves the others.
pub proof fn law_replace_changes_one_entry(
    boot: ExfatBootRecord,
    w: DirWalk,
    buf: Seq<u8>,
    pos: int,
    e: EntryFields,
    set: Seq<u8>,
    f: EntryFields,
)
    requires
        0 <= pos,
        pos % 32 == 0,
        buf.len() % 32 == 0,
        decoded_at(buf, pos) == Some(e),
        pos < end_slot(buf, 0),
        decoded_set(set) == Some(f),
        set.len() == e.entry_set_len,
    ensures
        ({
            let new = spliced(buf, pos, set);
            let before = listed(boot, w, buf.subrange(0, pos));
            let behind = listed_from(boot, w, buf, pos + set.len());
            &&& listed(boot, w, buf) == before + shown(boot, w, e, pos) + behind
            &&& listed(boot, w, new) == before + shown(boot, w, f, pos) + behind
        }),
{
    let new = spliced(buf, pos, set);
    lemma_decoded_set_shape(set);
    lemma_end_slot(buf, 0);
    lemma_listed_at(boot, w, buf, pos, e);
    assert(new[pos] == set[0]);
    assert(new.subrange(pos, pos + set.len()) =~= set);
    lemma_decoded_in_place(new, pos, set);
    lemma_listed_at(boot, w, new, pos, f);
    assert(no_end(buf, 0, pos));
    assert(no_end(new, 0, pos)) by {
        assert forall|k: int| 0 <= k < pos && k % 32 == 0 && k + 32 <= new.len() implies #[trigger] new[k]
            != END_OF_DIRECTORY by {
            assert(new[k] == buf[k]);
        }
    }
    lemma_listed_split(boot, w, buf, pos, 0);
    lemma_listed_split(boot, w, new, pos, 0);
    assert(new.subrange(0, pos) =~= buf.subrange(0, pos));
    lemma_listed_suffix(boot, w, buf, new, pos + set.len());
    let before = listed(boot, w, buf.subrange(0, pos));
    let behind = listed_from(boot, w, buf, pos + set.len());
    assert(listed(boot, w, buf) =~= before + shown(boot, w, e, pos) + behind);
    assert(listed(boot, w, new) =~= before + shown(boot, w, f, pos) + behind);
}

/// Slots whose `InUse` bit is clear hold no entry and do not end the
/// directory.
proof fn lemma_unlinked_skipped(s: Seq<u8>, q: int, to: int)
    requires
        0 <= q <= to <= s.len(),
        q % 32 == 0,
        to % 32 == 0,
        forall|k: int|
            q <= k < to && k % 32 == 0 ==> (#[trigger] s[k]) != ENTRY_TYPE_FILE && s[k]
                != END_OF_DIRECTORY,
    ensures
        next_entry(s, q) == next_entry(s, to),
    decreases to - q,
{
    if q < to {
        let n = set_len(s.subrange(q, q + 32));
        if q + n <= s.len() {
            let set = s.subrange(q, q + n);
            lemma_decoded_set_shape(set);
            assert(set_shape(set) ==> set[0] == s[q]);
        }
        lemma_unlinked_skipped(s, q + 32, to);
    }
}

/// Unlinking an entry set takes its entry out of the listing and leaves the
/// others.
pub proof fn law_unlink_removes_entry(
    boot: ExfatBootRecord,
    w: DirWalk,
    buf: Seq<u8>,
    pos: int,
    e: EntryFields,
)
    requires
        0 <= pos,
        pos % 32 == 0,
        buf.len() % 32 == 0,
        decoded_at(buf, pos) == Some(e),
        pos < end_slot(buf, 0),
    ensures
        ({
            let set = buf.subrange(pos, pos + e.entry_set_len);
            let new = spliced(buf, pos, unlinked_set(set));
            let before = listed(boot, w, buf.subrange(0, pos));
            let behind = listed_from(boot, w, buf, pos + e.entry_set_len);
            &&& listed(boot, w, buf) == before + shown(boot, w, e, pos) + behind
            &&& listed(boot, w, new) == before + behind
        }),
{
    let n = e.entry_set_len as int;
    let set = buf.subrange(pos, pos + n);
    let new = spliced(buf, pos, unlinked_set(set));
    lemma_end_slot(buf, 0);
    lemma_listed_at(boot, w, buf, pos, e);
    assert(decoded_set(set) == Some(e)) by {
        let m = set_len(buf.subrange(pos, pos + 32));
        lemma_decoded_set_shape(buf.subrange(pos, pos + m));
    }
    lemma_decoded_set_shape(set);
    assert(0x85u8 & !0x80u8 == 0x05u8 && 0xC0u8 & !0x80u8 == 0x40u8 && 0xC1u8 & !0x80u8 == 0x41u8)
        by (bit_vector);
    assert forall|k: int| pos <= k < pos + n && k % 32 == 0 implies (#[trigger] new[k])
        != ENTRY_TYPE_FILE && new[k] != END_OF_DIRECTORY && new[k] != ENTRY_TYPE_STREAM_EXTENSION
        && new[k] != ENTRY_TYPE_FILE_NAME by {
        let i = (k - pos) / 32;
        assert(k - pos == 32 * i);
        assert(new[k] == set[32 * i] & !ENTRY_IN_USE);
        assert(0 <= i < 1 + set[1]);
    }
    assert(no_end(buf, 0, pos));
    assert(no_end(new, 0, pos)) by {
        assert forall|k: int| 0 <= k < pos && k % 32 == 0 && k + 32 <= new.len() implies #[trigger] new[k]
            != END_OF_DIRECTORY by {
            assert(new[k] == buf[k]);
        }
    }
    lemma_listed_split(boot, w, buf, pos, 0);
    lemma_listed_split(boot, w, new, pos, 0);
    assert(new.subrange(0, pos) =~= buf.subrange(0, pos));
    lemma_unlinked_skipped(new, pos, pos + n);
    lemma_listed_step(boot, w, new, pos);
    lemma_listed_step(boot, w, new, pos + n);
    lemma_listed_suffix(boot, w, buf, new, pos + n);
    let before = listed(boot, w, buf.subrange(0, pos));
    let behind = listed_from(boot, w, buf, pos + n);
    assert(listed(boot, w, buf) =~= before + shown(boot, w, e, pos) + behind);
    assert(listed(boot, w, new) =~= before + behind);
}

} // verus!
