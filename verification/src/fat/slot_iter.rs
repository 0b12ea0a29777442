//! Reading directories: coalescing LFN + SFN slot sets into entries.

use vstd::prelude::*;
use vstd::string::StringExecFns;

use super::dir_slots::{FatDir, SlotChain, SlotPos, SLOT_DELETED, SLOT_END};
use super::entry::{lfn_unit_pos, FatFields, RawProperties};
use super::fs::FatVfs;
use super::layout::FatLayout;
use crate::bytes::le16;
use crate::calendar::{epoch_datetime, PrimitiveDateTime};
use crate::codec::FixedCodec;
use crate::codec::fat::dir_entry::{RawDirEntry, RAW_DIRECTORY, RAW_LFN, RAW_VOLUME_ID};
use crate::codec::fat::lfn::LfnEntry;
use crate::codec::fat::sfn_layout::sfn_checksum_of;
use crate::codec::fat::types::{EntryCount, FatType};
use crate::device::Device;
use crate::error::FsError;
use crate::text::{decode_utf16, decoded_utf16, law_decoded_joined};

verus! {

/// Cap on slots examined in one listing — a crafted cyclic cluster chain
/// would otherwise loop forever. No real directory approaches 2^20 slots.
pub const MAX_DIR_SLOTS: u32 = 0x10_0000;

/// 20 slots × 13 units = 260 ≥ the 255-unit name cap.
pub const MAX_LFN_SLOTS: u8 = 20;

/// The long name gathered so far: the units of its slots in on-disk (reverse)
/// order, the checksum the slots share, and the ordinal of the last one seen
/// (sets count down to 1; 0 means that no set is in progress).
pub struct LfnState {
    pub pieces: Seq<Seq<u16>>,
    pub checksum: Option<u8>,
    pub next_ord: u8,
}

/// No long name in progress.
pub open spec fn no_lfn() -> LfnState {
    LfnState { pieces: seq![], checksum: None, next_ord: 0 }
}

/// Outcome of folding one LFN slot into the pending set.
#[derive(Debug, Clone, Copy, PartialEq, Eq, Structural)]
pub enum LfnStep {
    /// The slot continued the current set in sequence.
    Continued,
    /// The slot carried the last-entry flag: a new set starts here.
    StartedNew,
    /// The slot is orphaned/malformed; the pending set is garbage.
    Orphan,
}

/// Unit `k` of a long-name slot.
pub open spec fn slot_unit(slot: Seq<u8>, k: int) -> u16 {
    le16(slot, lfn_unit_pos(k)) as u16
}

/// Number of units of a long-name slot before its first NUL, from `k` on.
pub open spec fn units_before_nul(slot: Seq<u8>, k: int) -> int
    decreases 13 - k,
{
    if k >= 13 || slot_unit(slot, k) == 0 {
        k
    } else {
        units_before_nul(slot, k + 1)
    }
}

/// The units of a long-name slot up to its first NUL.
pub open spec fn slot_units(slot: Seq<u8>) -> Seq<u16> {
    Seq::new(units_before_nul(slot, 0) as nat, |k: int| slot_unit(slot, k))
}

/// Folding an LFN slot into the pending long name. A set opens with the
/// flagged slot carrying ordinal N (1..=20), counts down contiguously to 1,
/// and every slot shares one checksum. Violations orphan the pending set.
pub open spec fn lfn_folded(st: LfnState, slot: Seq<u8>) -> (LfnState, LfnStep) {
    let last = (slot[0] / 0x40) % 2 == 1;
    let ord = slot[0] - (if last {
        0x40int
    } else {
        0
    });
    if slot[12] != 0 || slot[26] != 0 || slot[27] != 0 {
        (no_lfn(), LfnStep::Orphan)
    } else if last {
        if ord == 0 || ord > MAX_LFN_SLOTS {
            (no_lfn(), LfnStep::Orphan)
        } else {
            (
                LfnState {
                    pieces: seq![slot_units(slot)],
                    checksum: Some(slot[13]),
                    next_ord: ord as u8,
                },
                LfnStep::StartedNew,
            )
        }
    } else if st.next_ord < 2 || ord != st.next_ord - 1 || st.checksum != Some(slot[13]) {
        (no_lfn(), LfnStep::Orphan)
    } else {
        (
            LfnState {
                pieces: st.pieces.push(slot_units(slot)),
                checksum: st.checksum,
                next_ord: ord as u8,
            },
            LfnStep::Continued,
        )
    }
}

/// The short-name record in a slot.
pub open spec fn raw_of(slot: Seq<u8>) -> RawDirEntry {
    choose|e: RawDirEntry| e.decoded_from(slot)
}

/// The units of the pieces in reading order, put together.
pub open spec fn joined(pieces: Seq<Seq<u16>>) -> Seq<u16>
    decreases pieces.len(),
{
    if pieces.len() == 0 {
        seq![]
    } else {
        pieces.last() + joined(pieces.drop_last())
    }
}

/// The pieces that are well-formed by themselves, decoded, in reading order;
/// `None` if there is no such piece.
pub open spec fn legible(pieces: Seq<Seq<u16>>) -> Option<Seq<char>>
    decreases pieces.len(),
{
    if pieces.len() == 0 {
        None
    } else {
        let rest = legible(pieces.drop_last());
        match decoded_utf16(pieces.last()) {
            None => rest,
            Some(s) => match rest {
                None => Some(s),
                Some(t) => Some(s + t),
            },
        }
    }
}

/// The long name that the pieces hold: decoded together, so that a character may
/// lie across two slots; where that is not well-formed UTF-16, the pieces that
/// are.
pub open spec fn long_name(pieces: Seq<Seq<u16>>) -> Option<Seq<char>> {
    match decoded_utf16(joined(pieces)) {
        Some(s) => Some(s),
        None => legible(pieces),
    }
}

/// The name of an entry: the long name if its set is complete, its checksum
/// matches the short name and any of it can be read, else the short name.
pub open spec fn name_for(st: LfnState, e: RawDirEntry) -> Seq<char> {
    if st.pieces.len() > 0 && st.next_ord == 1 && st.checksum == Some(
        sfn_checksum_of(e.sfn.raw()) as u8,
    ) {
        match long_name(st.pieces) {
            Some(name) => name,
            None => e.sfn.text(),
        }
    } else {
        e.sfn.text()
    }
}

/// Where every piece is well-formed by itself, the long name is those pieces,
/// one after the other.
pub proof fn law_legible_pieces_are_the_name(pieces: Seq<Seq<u16>>)
    requires
        pieces.len() > 0,
        forall|i: int| 0 <= i < pieces.len() ==> decoded_utf16(#[trigger] pieces[i]) is Some,
    ensures
        legible(pieces) is Some,
        long_name(pieces) == legible(pieces),
    decreases pieces.len(),
{
    let last = pieces.last();
    let rest = pieces.drop_last();
    assert(last == pieces[pieces.len() - 1]);
    assert(decoded_utf16(last) is Some);
    if rest.len() > 0 {
        assert forall|i: int| 0 <= i < rest.len() implies decoded_utf16(#[trigger] rest[i]) is Some by {
            assert(rest[i] == pieces[i]);
        }
        law_legible_pieces_are_the_name(rest);
        lemma_legible_joined(rest);
        law_decoded_joined(last, joined(rest));
    } else {
        assert(last + joined(rest) =~= last);
    }
}

/// Pieces that are each well-formed are so together.
proof fn lemma_legible_joined(pieces: Seq<Seq<u16>>)
    requires
        forall|i: int| 0 <= i < pieces.len() ==> decoded_utf16(#[trigger] pieces[i]) is Some,
    ensures
        decoded_utf16(joined(pieces)) is Some,
    decreases pieces.len(),
{
    if pieces.len() > 0 {
        let rest = pieces.drop_last();
        assert(pieces.last() == pieces[pieces.len() - 1]);
        assert forall|i: int| 0 <= i < rest.len() implies decoded_utf16(#[trigger] rest[i]) is Some by {
            assert(rest[i] == pieces[i]);
        }
        lemma_legible_joined(rest);
        law_decoded_joined(pieces.last(), joined(rest));
    }
}

/// The entry of a short-name record.
pub open spec fn entry_of(fat_type: FatType, e: RawDirEntry, name: Seq<char>, chain: SlotChain) -> FatFields {
    FatFields {
        name,
        sfn: e.sfn,
        is_dir: e.attributes.0 & RAW_DIRECTORY == RAW_DIRECTORY,
        attributes: e.attributes.0,
        created: e.created.0,
        // Zero / undecodable write stamps are common in the wild; the entry
        // is surfaced with the FAT epoch.
        modified: match e.modified.0 {
            Some(t) => t,
            None => epoch_datetime(),
        },
        accessed: e.accessed.0,
        file_size: e.file_size,
        // Bytes 20-21 are the cluster-high word only on FAT32.
        data_cluster: match fat_type {
            FatType::FAT32 => (e.cluster_high * 0x1_0000 + e.cluster_low) as u32,
            FatType::FAT16 => e.cluster_low as u32,
        },
        nt_res: e._reserved,
        ea_handle: match fat_type {
            FatType::FAT32 => None,
            FatType::FAT16 => Some(e.cluster_high),
        },
        chain,
    }
}

/// Where a listing stands.
pub struct SlotState {
    /// Next slot to read, or `None` once exhausted.
    pub cursor: Option<SlotPos>,
    pub lfn: LfnState,
    /// Start and length of the set being assembled.
    pub set_start: Option<SlotPos>,
    pub set_len: int,
    pub seen: int,
}

impl SlotState {
    /// The same place with no set in progress.
    pub open spec fn reset(self) -> SlotState {
        SlotState { lfn: no_lfn(), set_start: None, set_len: 0, ..self }
    }
}

/// The start of a listing.
pub open spec fn listing_start(l: FatLayout, dir: FatDir) -> SlotState {
    SlotState {
        cursor: Some(l.first_slot(dir)),
        lfn: no_lfn(),
        set_start: None,
        set_len: 0,
        seen: 0,
    }
}

/// Moving on to the slot after `pos` and handing out `found`.
pub open spec fn moved(
    l: FatLayout,
    img: Seq<u8>,
    st: SlotState,
    pos: SlotPos,
    found: Option<FatFields>,
) -> (Result<Option<FatFields>, FsError<()>>, SlotState) {
    match l.slot_after(img, pos) {
        Err(e) => (Err(e), st),
        Ok(next) => (Ok(found), SlotState { cursor: next, ..st }),
    }
}

/// Looking at one slot with the given bytes: an end mark ends the listing, a
/// deleted slot and a volume label break the set, a long-name slot is folded
/// into it, and a short-name record completes an entry.
pub open spec fn slot_seen(
    l: FatLayout,
    img: Seq<u8>,
    st: SlotState,
    pos: SlotPos,
    slot: Seq<u8>,
) -> (Result<Option<FatFields>, FsError<()>>, SlotState) {
    if slot[0] == SLOT_END {
        (Ok(None), SlotState { cursor: None, ..st })
    } else if slot[0] == SLOT_DELETED {
        moved(l, img, st.reset(), pos, None)
    } else {
        let start = match st.set_start {
            Some(s) => s,
            None => pos,
        };
        let len = st.set_len + 1;
        if slot[11] == RAW_LFN {
            let (lfn, step) = lfn_folded(st.lfn, slot);
            let next = match step {
                LfnStep::Continued => SlotState { lfn, set_start: Some(start), set_len: len, ..st },
                LfnStep::StartedNew => SlotState { lfn, set_start: Some(pos), set_len: 1, ..st },
                LfnStep::Orphan => st.reset(),
            };
            moved(l, img, next, pos, None)
        } else if slot[11] & RAW_VOLUME_ID == RAW_VOLUME_ID {
            moved(l, img, st.reset(), pos, None)
        } else {
            let e = raw_of(slot);
            moved(
                l,
                img,
                st.reset(),
                pos,
                Some(
                    entry_of(
                        l.fat_type,
                        e,
                        name_for(st.lfn, e),
                        (SlotChain { first: start, len: len as u16 }),
                    ),
                ),
            )
        }
    }
}

/// Processing one slot of a listing.
pub open spec fn stepped(l: FatLayout, img: Seq<u8>, st: SlotState) -> (
    Result<Option<FatFields>, FsError<()>>,
    SlotState,
) {
    match st.cursor {
        None => (Ok(None), st),
        Some(pos) => if st.seen >= MAX_DIR_SLOTS {
            (Ok(None), SlotState { cursor: None, ..st })
        } else {
            let st1 = SlotState { seen: st.seen + 1, ..st };
            match l.slot_read(img, pos) {
                Err(e) => (Err(e), st1),
                Ok(slot) => slot_seen(l, img, st1, pos, slot),
            }
        },
    }
}

/// The rest of a listing: the entries to come, and the error that cuts it
/// short if there is one.
pub open spec fn listed_from(l: FatLayout, img: Seq<u8>, st: SlotState) -> (
    Seq<FatFields>,
    Option<FsError<()>>,
)
    decreases MAX_DIR_SLOTS - st.seen,
{
    if st.cursor is None || st.seen >= MAX_DIR_SLOTS {
        (seq![], None)
    } else {
        let (r, next) = stepped(l, img, st);
        if next.seen <= st.seen {
            (seq![], None)
        } else {
            match r {
                Err(e) => (seq![], Some(e)),
                Ok(None) => listed_from(l, img, next),
                Ok(Some(f)) => {
                    let rest = listed_from(l, img, next);
                    (seq![f] + rest.0, rest.1)
                },
            }
        }
    }
}

/// The listing of a directory, `.` and `..` included.
pub open spec fn fat_listing(l: FatLayout, img: Seq<u8>, dir: FatDir) -> (
    Seq<FatFields>,
    Option<FsError<()>>,
) {
    listed_from(l, img, listing_start(l, dir))
}

/// A step either counts a slot or ends the listing at the cap.
proof fn lemma_step_counts(l: FatLayout, img: Seq<u8>, st: SlotState)
    requires
        st.cursor is Some,
    ensures
        st.seen < MAX_DIR_SLOTS ==> stepped(l, img, st).1.seen == st.seen + 1,
        st.seen >= MAX_DIR_SLOTS ==> {
            &&& stepped(l, img, st).0 == Ok::<Option<FatFields>, FsError<()>>(None)
            &&& stepped(l, img, st).1.cursor is None
            &&& stepped(l, img, st).1.seen == st.seen
        },
{
}

/// What the entries of a list say.
pub open spec fn raw_fields(v: Seq<RawProperties>) -> Seq<FatFields> {
    Seq::new(v.len(), |i: int| v[i]@)
}

/// The units held by a list of pieces.
pub open spec fn pieces_view(v: Seq<Vec<u16>>) -> Seq<Seq<u16>> {
    Seq::new(v.len(), |i: int| v[i]@)
}

/// The units of one LFN slot up to the NUL terminator (`0xFFFF` padding beyond
/// it is ignored).
fn units_from_lfn(slot: &[u8; 32]) -> (units: Vec<u16>)
    ensures
        units@ == slot_units(slot@),
{
    let mut units: Vec<u16> = Vec::new();
    if let Some(lfn) = LfnEntry::parse(slot) {
        let all: [u16; 13] = lfn.utf16_units();
        proof {
            assert forall|k: int| 0 <= k < 13 implies #[trigger] all@[k] == slot_unit(slot@, k) by {
                assert(all@[k] == lfn.unit(k));
                let cb = lfn.char_bytes();
                let p = lfn_unit_pos(k);
                assert(cb[2 * k] == slot@[p]);
                assert(cb[2 * k + 1] == slot@[p + 1]);
            }
        }
        let mut k: usize = 0;
        while k < 13 && all[k] != 0
            invariant
                k <= 13,
                forall|j: int| 0 <= j < 13 ==> #[trigger] all@[j] == slot_unit(slot@, j),
                units_before_nul(slot@, 0) == units_before_nul(slot@, k as int),
                units@ =~= Seq::new(k as nat, |j: int| slot_unit(slot@, j)),
            decreases 13 - k,
        {
            units.push(all[k]);
            k += 1;
        }
        assert(units@ =~= slot_units(slot@));
    }
    units
}

/// Streaming reader over a directory's slots, coalescing LFN + SFN sets into
/// [`RawProperties`]. `.`/`..` and volume-label entries are surfaced/skipped
/// exactly as the volume stores them.
pub struct FatSlotIter {
    pub cursor: Option<SlotPos>,
    pub lfn_pieces: Vec<Vec<u16>>,
    pub lfn_checksum: Option<u8>,
    pub next_ord: u8,
    pub set_start: Option<SlotPos>,
    pub set_len: EntryCount,
    pub slots_seen: u32,
}

impl FatSlotIter {
    pub open spec fn wf(self) -> bool {
        &&& self.cursor matches Some(p) ==> p.wf()
        &&& self.set_start matches Some(p) ==> p.wf()
        &&& self.slots_seen <= MAX_DIR_SLOTS
        &&& self.set_len + self.next_ord <= 21
        &&& self.next_ord <= MAX_LFN_SLOTS
        &&& self.next_ord == 0 ==> self.set_len == 0
    }

    /// Where the listing stands.
    pub open spec fn state(self) -> SlotState {
        SlotState {
            cursor: self.cursor,
            lfn: self.lfn(),
            set_start: self.set_start,
            set_len: self.set_len as int,
            seen: self.slots_seen as int,
        }
    }

    /// The long name gathered so far.
    pub open spec fn lfn(self) -> LfnState {
        LfnState {
            pieces: pieces_view(self.lfn_pieces@),
            checksum: self.lfn_checksum,
            next_ord: self.next_ord,
        }
    }

    pub fn new<D: Device>(fs: &FatVfs<D>, dir: FatDir) -> (r: Self)
        requires
            fs.wf(),
        ensures
            r.wf(),
            r.state() == listing_start(fs.layout, dir),
    {
        let r = FatSlotIter {
            cursor: Some(fs.dir_first_slot(dir)),
            lfn_pieces: Vec::new(),
            lfn_checksum: None,
            next_ord: 0,
            set_start: None,
            set_len: 0,
            slots_seen: 0,
        };
        assert(pieces_view(r.lfn_pieces@) =~= Seq::<Seq<u16>>::empty());
        r
    }

    /// Drop any half-assembled long-name state.
    fn reset_set(&mut self)
        ensures
            final(self).state() == old(self).state().reset(),
            old(self).wf() ==> final(self).wf(),
    {
        self.lfn_pieces = Vec::new();
        self.lfn_checksum = None;
        self.next_ord = 0;
        self.set_start = None;
        self.set_len = 0;
        assert(pieces_view(self.lfn_pieces@) =~= Seq::<Seq<u16>>::empty());
    }

    /// Add the units of `slot` to those gathered.
    fn push_piece(&mut self, slot: &[u8; 32])
        ensures
            final(self).lfn() == (LfnState {
                pieces: old(self).lfn().pieces.push(slot_units(slot@)),
                ..old(self).lfn()
            }),
            final(self).cursor == old(self).cursor,
            final(self).set_start == old(self).set_start,
            final(self).set_len == old(self).set_len,
            final(self).slots_seen == old(self).slots_seen,
    {
        let ghost before = pieces_view(self.lfn_pieces@);
        let piece: Vec<u16> = units_from_lfn(slot);
        let ghost units = piece@;
        self.lfn_pieces.push(piece);
        assert(pieces_view(self.lfn_pieces@) =~= before.push(units));
    }

    /// Fold an LFN slot into the pending long name.
    fn consume_lfn(&mut self, slot: &[u8; 32]) -> (r: LfnStep)
        requires
            old(self).next_ord <= MAX_LFN_SLOTS,
        ensures
            (final(self).lfn(), r) == lfn_folded(old(self).lfn(), slot@),
            final(self).next_ord <= MAX_LFN_SLOTS,
            final(self).cursor == old(self).cursor,
            final(self).slots_seen == old(self).slots_seen,
            r is StartedNew || r is Continued ==> final(self).next_ord >= 1,
            r is Continued ==> final(self).next_ord == old(self).next_ord - 1
                && final(self).set_start == old(self).set_start && final(self).set_len == old(
                self,
            ).set_len,
    {
        let order: u8 = slot[0];
        let is_last: bool = (order / 0x40) % 2 == 1;
        let ord: u8 = if is_last {
            order - 0x40
        } else {
            order
        };
        if slot[12] != 0 || slot[26] != 0 || slot[27] != 0 {
            self.reset_set();
            return LfnStep::Orphan;
        }
        if is_last {
            if ord == 0 || ord > MAX_LFN_SLOTS {
                self.reset_set();
                return LfnStep::Orphan;
            }
            // A new set begins here, discarding any orphaned partial.
            self.lfn_pieces = Vec::new();
            assert(pieces_view(self.lfn_pieces@) =~= Seq::<Seq<u16>>::empty());
            self.lfn_checksum = Some(slot[13]);
            self.next_ord = ord;
            self.push_piece(slot);
            assert(self.lfn().pieces =~= seq![slot_units(slot@)]);
            return LfnStep::StartedNew;
        }
        // Continuation: must be in-sequence and checksum-consistent.

        if self.next_ord < 2 || ord != self.next_ord - 1 {
            self.reset_set();
            return LfnStep::Orphan;
        }
        let same: bool = match self.lfn_checksum {
            Some(c) => c == slot[13],
            None => false,
        };
        if !same {
            self.reset_set();
            return LfnStep::Orphan;
        }
        self.next_ord = ord;
        self.push_piece(slot);
        LfnStep::Continued
    }

    /// The units gathered, in reading order.
    fn joined_units(&self) -> (units: Vec<u16>)
        ensures
            units@ == joined(self.lfn().pieces),
    {
        // Pieces were gathered highest-order-first; reverse to read order.
        let ghost all = pieces_view(self.lfn_pieces@);
        let mut units: Vec<u16> = Vec::new();
        let mut n: usize = self.lfn_pieces.len();
        assert(all.subrange(0, n as int) =~= all);
        assert(units@ + joined(all) =~= joined(all));
        while n > 0
            invariant
                n <= self.lfn_pieces@.len(),
                all == pieces_view(self.lfn_pieces@),
                units@ + joined(all.subrange(0, n as int)) == joined(all),
            decreases n,
        {
            let ghost before = units@;
            let ghost head = all.subrange(0, n as int);
            units.extend_from_slice(self.lfn_pieces[n - 1].as_slice());
            proof {
                assert(head.last() == self.lfn_pieces@[n - 1]@);
                assert(head.drop_last() =~= all.subrange(0, n - 1));
                assert(units@ =~= before + head.last());
                assert(units@ + joined(all.subrange(0, n - 1)) =~= before + joined(head));
            }
            n -= 1;
        }
        assert(units@ =~= joined(all));
        units
    }

    /// The pieces that can be read, in reading order.
    fn legible_pieces(&self) -> (r: Option<String>)
        ensures
            match r {
                Some(s) => legible(self.lfn().pieces) == Some(s@),
                None => legible(self.lfn().pieces) is None,
            },
    {
        let ghost all = pieces_view(self.lfn_pieces@);
        let mut out = String::new();
        let mut any: bool = false;
        let mut n: usize = self.lfn_pieces.len();
        assert(all.subrange(0, n as int) =~= all);
        while n > 0
            invariant
                n <= self.lfn_pieces@.len(),
                all == pieces_view(self.lfn_pieces@),
                legible(all) == (if any {
                    match legible(all.subrange(0, n as int)) {
                        Some(t) => Some(out@ + t),
                        None => Some(out@),
                    }
                } else {
                    legible(all.subrange(0, n as int))
                }),
                !any ==> out@.len() == 0,
            decreases n,
        {
            let ghost before = out@;
            let ghost head = all.subrange(0, n as int);
            proof {
                assert(head.last() == self.lfn_pieces@[n - 1]@);
                assert(head.drop_last() =~= all.subrange(0, n - 1));
            }
            if let Some(piece) = decode_utf16(self.lfn_pieces[n - 1].as_slice()) {
                out.append(piece.as_str());
                proof {
                    assert(out@ =~= before + piece@);
                    if !any {
                        assert(out@ =~= piece@);
                    }
                    if let Some(t) = legible(all.subrange(0, n - 1)) {
                        assert(before + (piece@ + t) =~= out@ + t);
                    }
                }
                any = true;
            }
            n -= 1;
        }
        assert(all.subrange(0, 0) =~= Seq::<Seq<u16>>::empty());
        if any {
            Some(out)
        } else {
            None
        }
    }

    /// The entry's name: the reassembled long name if the set is complete
    /// (counted down to ordinal 1) and its checksum matches the SFN, else
    /// the decoded 8.3 short name.
    fn take_name(&self, entry: &RawDirEntry) -> (r: String)
        ensures
            r@ == name_for(self.lfn(), *entry),
    {
        let sum: u8 = entry.sfn.gen_checksum();
        let matching: bool = match self.lfn_checksum {
            Some(c) => c == sum,
            None => false,
        };
        if self.lfn_pieces.len() == 0 || self.next_ord != 1 || !matching {
            return entry.sfn.decode();
        }
        let units: Vec<u16> = self.joined_units();
        if let Some(name) = decode_utf16(units.as_slice()) {
            return name;
        }
        // Not well-formed as a whole: what of it can be read.
        match self.legible_pieces() {
            Some(name) => name,
            None => entry.sfn.decode(),
        }
    }

    /// Process one slot. Returns `Ok(Some)` when a full entry completes,
    /// `Ok(None)` when the slot was folded/skipped (the cursor has advanced or
    /// hit the end), and propagates any read error.
    pub fn step<D: Device>(&mut self, fs: &FatVfs<D>) -> (r: Result<
        Option<RawProperties>,
        FsError<D::Error>,
    >)
        requires
            fs.wf(),
            old(self).wf(),
        ensures
            final(self).wf(),
            match r {
                Ok(found) => {
                    let (out, st) = stepped(fs.layout, fs.dev.contents(), old(self).state());
                    &&& final(self).state() == st
                    &&& out is Ok
                    &&& match found {
                        Some(p) => out->Ok_0 == Some(p@) && p@.wf(),
                        None => out->Ok_0 is None,
                    }
                },
                Err(FsError::Io(_)) => !fs.dev.reliable(),
                Err(e) => stepped(fs.layout, fs.dev.contents(), old(self).state()).0 == Err::<
                    Option<FatFields>,
                    FsError<()>,
                >(e.kind()),
            },
    {
        let pos = match self.cursor {
            Some(pos) => pos,
            None => {
                return Ok(None);
            },
        };
        if self.slots_seen >= MAX_DIR_SLOTS {
            self.cursor = None;
            return Ok(None);
        }
        self.slots_seen += 1;
        let slot: [u8; 32] = match fs.read_slot(pos) {
            Ok(slot) => slot,
            Err(e) => {
                return Err(e);
            },
        };
        if slot[0] == SLOT_END {
            self.cursor = None;
            return Ok(None);
        }
        if slot[0] == SLOT_DELETED {
            self.reset_set();
            return self.advance(fs, pos);
        }
        let attributes: u8 = slot[11];
        if attributes == RAW_LFN {
            let start: SlotPos = match self.set_start {
                Some(s) => s,
                None => pos,
            };
            match self.consume_lfn(&slot) {
                LfnStep::Continued => {
                    self.set_start = Some(start);
                    self.set_len += 1;
                },
                // A last-flagged slot begins a fresh set at THIS slot,
                // discarding any orphaned partial before it.
                LfnStep::StartedNew => {
                    self.set_start = Some(pos);
                    self.set_len = 1;
                },
                LfnStep::Orphan => {
                    self.reset_set();
                },
            }
            return self.advance(fs, pos);
        }
        if attributes & RAW_VOLUME_ID == RAW_VOLUME_ID {
            self.reset_set();
            return self.advance(fs, pos);
        }
        self.complete(fs, pos, &slot)
    }

    /// The next entry of the listing; `None` at its end. After an error the
    /// listing is over.
    pub fn next<D: Device>(&mut self, fs: &FatVfs<D>) -> (r: Option<
        Result<RawProperties, FsError<D::Error>>,
    >)
        requires
            fs.wf(),
            old(self).wf(),
        ensures
            final(self).wf(),
            ({
                let all = listed_from(fs.layout, fs.dev.contents(), old(self).state());
                match r {
                    None => {
                        &&& all == (Seq::<FatFields>::empty(), None::<FsError<()>>)
                        &&& final(self).cursor is None
                    },
                    Some(Ok(p)) => {
                        let rest = listed_from(fs.layout, fs.dev.contents(), final(self).state());
                        &&& p@.wf()
                        &&& all == (seq![p@] + rest.0, rest.1)
                        &&& final(self).slots_seen > old(self).slots_seen
                    },
                    Some(Err(FsError::Io(_))) => !fs.dev.reliable() && final(self).cursor is None,
                    Some(Err(e)) => {
                        &&& all == (Seq::<FatFields>::empty(), Some(e.kind()))
                        &&& final(self).cursor is None
                    },
                }
            }),
    {
        let ghost l = fs.layout;
        let ghost img = fs.dev.contents();
        loop
            invariant
                fs.wf(),
                self.wf(),
                l == fs.layout,
                img == fs.dev.contents(),
                self.slots_seen >= old(self).slots_seen,
                listed_from(l, img, self.state()) == listed_from(l, img, old(self).state()),
            decreases
                    2 * (MAX_DIR_SLOTS - self.slots_seen) + (if self.cursor is Some {
                        1int
                    } else {
                        0
                    }),
        {
            if self.cursor.is_none() {
                return None;
            }
            let ghost before = self.state();
            match self.step(fs) {
                Ok(Some(props)) => {
                    proof {
                        lemma_step_counts(l, img, before);
                    }
                    return Some(Ok(props));
                },
                Ok(None) => {
                    proof {
                        lemma_step_counts(l, img, before);
                    }
                },
                Err(e) => {
                    proof {
                        lemma_step_counts(l, img, before);
                    }
                    self.cursor = None;
                    return Some(Err(e));
                },
            }
        }
    }

    /// Move on to the slot after `pos`.
    fn advance<D: Device>(&mut self, fs: &FatVfs<D>, pos: SlotPos) -> (r: Result<
        Option<RawProperties>,
        FsError<D::Error>,
    >)
        requires
            fs.wf(),
            old(self).wf(),
            pos.wf(),
        ensures
            final(self).wf(),
            match r {
                Ok(found) => {
                    let (out, st) = moved(
                        fs.layout,
                        fs.dev.contents(),
                        old(self).state(),
                        pos,
                        None,
                    );
                    &&& final(self).state() == st
                    &&& found is None
                    &&& out == Ok::<Option<FatFields>, FsError<()>>(None)
                },
                Err(FsError::Io(_)) => !fs.dev.reliable(),
                Err(e) => moved(
                    fs.layout,
                    fs.dev.contents(),
                    old(self).state(),
                    pos,
                    None,
                ).0 == Err::<Option<FatFields>, FsError<()>>(e.kind()),
            },
    {
        match fs.next_slot(pos) {
            Ok(next) => {
                self.cursor = next;
                Ok(None)
            },
            Err(e) => Err(e),
        }
    }

    /// Complete an entry with its short-name record at `pos`.
    fn complete<D: Device>(&mut self, fs: &FatVfs<D>, pos: SlotPos, slot: &[u8; 32]) -> (r: Result<
        Option<RawProperties>,
        FsError<D::Error>,
    >)
        requires
            fs.wf(),
            old(self).wf(),
            pos.wf(),
            slot@[0] != SLOT_END,
            slot@[0] != SLOT_DELETED,
            slot@[11] != RAW_LFN,
            slot@[11] & RAW_VOLUME_ID != RAW_VOLUME_ID,
        ensures
            final(self).wf(),
            match r {
                Ok(found) => {
                    let (out, st) = slot_seen(
                        fs.layout,
                        fs.dev.contents(),
                        old(self).state(),
                        pos,
                        slot@,
                    );
                    &&& final(self).state() == st
                    &&& out is Ok
                    &&& match found {
                        Some(p) => out->Ok_0 == Some(p@) && p@.wf(),
                        None => out->Ok_0 is None,
                    }
                },
                Err(FsError::Io(_)) => !fs.dev.reliable(),
                Err(e) => slot_seen(
                    fs.layout,
                    fs.dev.contents(),
                    old(self).state(),
                    pos,
                    slot@,
                ).0 == Err::<Option<FatFields>, FsError<()>>(e.kind()),
            },
    {
        let entry: RawDirEntry = match RawDirEntry::parse(slot) {
            Some(entry) => entry,
            None => {
                return Ok(None);
            },
        };
        proof {
            RawDirEntry::law_decode_unique(entry, raw_of(slot@), slot@);
        }
        let name: String = self.take_name(&entry);
        let first: SlotPos = match self.set_start {
            Some(s) => s,
            None => pos,
        };
        let chain = SlotChain { first, len: self.set_len + 1 };
        self.reset_set();
        self.cursor = match fs.next_slot(pos) {
            Ok(next) => next,
            Err(e) => {
                return Err(e);
            },
        };
        let modified: PrimitiveDateTime = match entry.modified.0 {
            Some(t) => t,
            None => PrimitiveDateTime::epoch(),
        };
        let data_cluster: u32 = match fs.layout.fat_type {
            FatType::FAT32 => entry.cluster_high as u32 * 0x1_0000 + entry.cluster_low as u32,
            FatType::FAT16 => entry.cluster_low as u32,
        };
        let ea_handle: Option<u16> = match fs.layout.fat_type {
            FatType::FAT32 => None,
            FatType::FAT16 => Some(entry.cluster_high),
        };
        Ok(
            Some(
                RawProperties {
                    name,
                    sfn: entry.sfn,
                    is_dir: entry.attributes.contains(RAW_DIRECTORY),
                    attributes: entry.attributes,
                    created: entry.created.0,
                    modified,
                    accessed: entry.accessed.0,
                    file_size: entry.file_size,
                    data_cluster,
                    nt_res: entry._reserved,
                    ea_handle,
                    chain,
                },
            ),
        )
    }
}

} // verus!
