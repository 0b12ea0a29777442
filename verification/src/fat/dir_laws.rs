//! What writing slots does to the volume as a whole: the directory's slots
//! change as asked, and everything else reads as before.

use vstd::prelude::*;

use super::dir_slots::{FatDir, SlotPos, SLOT_DELETED};
use super::effects::{
    lemma_bytes_effect, lemma_range_untouched, lemma_touches_more, lemma_touches_nothing,
    lemma_touches_then, lemma_untouched, members, span,
};
use super::layout::{lemma_cluster_size, FatDisk, FatLayout};
use super::regions::{lemma_cluster_places, lemma_geometry};
use super::slot_laws::{replaced, with_deleted};
use crate::codec::fat::fat_entry::FatEntry;
use crate::error::FsError;

verus! {

impl FatLayout {
    /// The FAT links each cluster of the list to the next, and ends behind
    /// the last; none of them is free.
    pub open spec fn chained(self, img: Seq<u8>, cs: Seq<u32>) -> bool {
        &&& forall|i: int|
            0 <= i < cs.len() - 1 ==> #[trigger] self.fat_read(img, cs[i] as int) == Ok::<
                FatEntry,
                FsError<()>,
            >(FatEntry::Next(cs[i + 1]))
        &&& cs.len() > 0 ==> (self.fat_read(img, cs.last() as int) matches Ok(f) && !(f is Next) && !(
        f is Free))
    }

    /// The list holds different clusters of the volume.
    pub open spec fn distinct_clusters(self, cs: Seq<u32>) -> bool {
        &&& cs.no_duplicates()
        &&& forall|i: int| 0 <= i < cs.len() ==> self.is_cluster((#[trigger] cs[i]) as int)
    }

    /// The directory consists of the clusters `cs`, or is the fixed root.
    #[verifier::opaque]
    pub open spec fn dir_sound(self, img: Seq<u8>, dir: FatDir, cs: Seq<u32>) -> bool {
        &&& self.sound()
        &&& self.volume_end() <= img.len()
        &&& match dir {
            FatDir::FixedRoot => cs.len() == 0 && self.boot.root_sectors() > 0,
            FatDir::Clusters(first) => {
                &&& cs.len() > 0
                &&& cs[0] == first
                &&& self.distinct_clusters(cs)
                &&& self.chained(img, cs)
            },
        }
    }

    /// Number of slots of a directory.
    pub open spec fn place_count(self, dir: FatDir, cs: Seq<u32>) -> int {
        match dir {
            FatDir::FixedRoot => self.root_bytes() / 32,
            FatDir::Clusters(_) => cs.len() * self.slots_in_cluster(),
        }
    }

    /// Byte offset of slot `k` of a directory.
    pub open spec fn place_offset(self, dir: FatDir, cs: Seq<u32>, k: int) -> int {
        match dir {
            FatDir::FixedRoot => self.root_pos() + 32 * k,
            FatDir::Clusters(_) => self.cluster_pos(cs[k / self.slots_in_cluster()] as int) + 32 * (k
                % self.slots_in_cluster()),
        }
    }

    /// The places of a directory's slots.
    pub open spec fn places(self, dir: FatDir, cs: Seq<u32>) -> Seq<SlotPos> {
        Seq::new(
            self.place_count(dir, cs) as nat,
            |k: int|
                SlotPos {
                    offset: self.place_offset(dir, cs, k) as u64,
                    cluster: match dir {
                        FatDir::FixedRoot => None,
                        FatDir::Clusters(_) => Some(cs[k / self.slots_in_cluster()]),
                    },
                },
        )
    }
}

/// Slots fill a cluster and the fixed root without remainder.
pub proof fn lemma_slot_units(l: FatLayout)
    requires
        l.wf(),
    ensures
        l.slots_in_cluster() >= 16,
        32 * l.slots_in_cluster() == l.props.cluster_size,
        l.root_bytes() % 32 == 0,
        l.boot.root_sectors() > 0 ==> l.root_bytes() >= 512,
        0 <= l.root_pos(),
        l.volume_end() <= 0xFFFF_FFFF * 4096,
{
    lemma_cluster_size(l);
    lemma_geometry(l);
    let (r, s) = (l.boot.root_sectors(), l.props.sector_size as int);
    let q = s / 32;
    assert(s == 32 * q);
    assert(r * (32 * q) == (r * q) * 32) by (nonlinear_arith);
    vstd::arithmetic::div_mod::lemma_mod_multiples_basic(r * q, 32);
    assert(r > 0 ==> r * s >= 512) by (nonlinear_arith)
        requires
            s >= 512,
    ;
    let (a, t) = (l.props.first_root_dir_sector as int, l.props.total_sectors as int);
    assert(0 <= a * s && t * s <= 0xFFFF_FFFF * 4096) by (nonlinear_arith)
        requires
            0 <= a,
            0 <= t <= 0xFFFF_FFFF,
            0 <= s <= 4096,
    ;
}

/// Slot `k` of a cluster directory: its cluster and its place in it.
pub proof fn lemma_slot_cluster(l: FatLayout, cs: Seq<u32>, k: int)
    requires
        l.wf(),
        0 <= k < cs.len() * l.slots_in_cluster(),
    ensures
        0 <= k / l.slots_in_cluster() < cs.len(),
        0 <= k % l.slots_in_cluster() < l.slots_in_cluster(),
        k == l.slots_in_cluster() * (k / l.slots_in_cluster()) + k % l.slots_in_cluster(),
{
    lemma_slot_units(l);
    let (n, m) = (l.slots_in_cluster(), cs.len() as int);
    vstd::arithmetic::div_mod::lemma_fundamental_div_mod(k, n);
    let q = k / n;
    assert(0 <= q < m && 0 <= k % n < n) by (nonlinear_arith)
        requires
            0 <= k < m * n,
            n > 0,
            q == k / n,
    ;
}

/// The slots of a directory lie apart from each other, behind the FAT and
/// within the volume.
pub proof fn lemma_place_apart(l: FatLayout, img: Seq<u8>, dir: FatDir, cs: Seq<u32>, j: int, k: int)
    requires
        l.dir_sound(img, dir, cs),
        0 <= j < l.place_count(dir, cs),
        0 <= k < l.place_count(dir, cs),
    ensures
        l.root_pos() <= l.place_offset(dir, cs, k),
        l.place_offset(dir, cs, k) + 32 <= l.volume_end(),
        j < k || k < j ==> l.place_offset(dir, cs, j) + 32 <= l.place_offset(dir, cs, k)
            || l.place_offset(dir, cs, k) + 32 <= l.place_offset(dir, cs, j),
{
    reveal(FatLayout::dir_sound);
    lemma_slot_units(l);
    lemma_geometry(l);
    match dir {
        FatDir::FixedRoot => {
            lemma_cluster_places(l, 2, 2);
        },
        FatDir::Clusters(_) => {
            lemma_slot_cluster(l, cs, j);
            lemma_slot_cluster(l, cs, k);
            let n = l.slots_in_cluster();
            let (x, y) = (cs[j / n] as int, cs[k / n] as int);
            assert(l.is_cluster(x) && l.is_cluster(y));
            lemma_cluster_places(l, x, y);
            lemma_cluster_places(l, y, x);
        },
    }
}

/// The places of a sound directory are those that walking it meets.
pub proof fn lemma_places_walked(l: FatLayout, img: Seq<u8>, dir: FatDir, cs: Seq<u32>)
    requires
        l.dir_sound(img, dir, cs),
    ensures
        l.slots_at(img, dir, l.places(dir, cs)),
        l.places(dir, cs).len() == l.place_count(dir, cs),
        forall|k: int|
            0 <= k < l.place_count(dir, cs) ==> (#[trigger] l.places(dir, cs)[k]).offset
                == l.place_offset(dir, cs, k),
{
    reveal(FatLayout::dir_sound);
    let ps = l.places(dir, cs);
    lemma_slot_units(l);
    let n = l.slots_in_cluster();
    let m = cs.len() as int;
    assert(0 <= m * n && (m > 0 ==> m * n >= 16)) by (nonlinear_arith)
        requires
            m >= 0,
            n >= 16,
    ;
    assert(l.place_count(dir, cs) >= 16);
    assert forall|k: int| 0 <= k < ps.len() implies (#[trigger] ps[k]).offset == l.place_offset(
        dir,
        cs,
        k,
    ) && l.slot_read(img, ps[k]) is Ok by {
        lemma_place_apart(l, img, dir, cs, k, k);
    }
    assert forall|k: int| 0 <= k < ps.len() implies l.slot_after(img, #[trigger] ps[k]) == Ok::<
        Option<SlotPos>,
        FsError<()>,
    >(
        if k + 1 < ps.len() {
            Some(ps[k + 1])
        } else {
            None
        },
    ) by {
        lemma_place_apart(l, img, dir, cs, k, k);
        assert(ps[k].offset == l.place_offset(dir, cs, k));
        match dir {
            FatDir::FixedRoot => {},
            FatDir::Clusters(_) => {
                lemma_slot_cluster(l, cs, k);
                let q = k / n;
                let r = k % n;
                if r + 1 < n {
                    vstd::arithmetic::div_mod::lemma_fundamental_div_mod_converse(
                        k + 1,
                        n,
                        q,
                        r + 1,
                    );
                    assert(k + 1 < ps.len()) by (nonlinear_arith)
                        requires
                            k + 1 == n * q + (r + 1),
                            r + 1 < n,
                            q + 1 <= m,
                            n > 0,
                            ps.len() == m * n,
                    ;
                } else {
                    assert(n * (q + 1) == n * q + n) by (nonlinear_arith);
                    vstd::arithmetic::div_mod::lemma_fundamental_div_mod_converse(
                        k + 1,
                        n,
                        q + 1,
                        0,
                    );
                    assert(l.is_cluster(cs[q] as int));
                    if q + 1 < m {
                        assert(k + 1 < m * n) by (nonlinear_arith)
                            requires
                                k + 1 == n * (q + 1),
                                q + 1 < m,
                                n > 0,
                        ;
                        assert(l.fat_read(img, cs[q] as int) == Ok::<FatEntry, FsError<()>>(
                            FatEntry::Next(cs[q + 1]),
                        ));
                        assert(ps[k + 1].offset == l.place_offset(dir, cs, k + 1)) by {
                            lemma_place_apart(l, img, dir, cs, k + 1, k + 1);
                        }
                    } else {
                        assert(cs[q] == cs.last());
                        assert(k + 1 == m * n) by (nonlinear_arith)
                            requires
                                k + 1 == n * (q + 1),
                                q + 1 == m,
                        ;
                    }
                }
            },
        }
    }
    assert(ps[0] == l.first_slot(dir)) by {
        if let FatDir::Clusters(_) = dir {
            assert(0int / n == 0 && 0int % n == 0) by (nonlinear_arith)
                requires
                    n > 0,
            ;
        }
    }
    assert(ps.last() == ps[ps.len() - 1]);
}

/// A directory of which no cell was touched has the same slots.
pub proof fn lemma_dir_kept(
    l: FatLayout,
    a: Seq<u8>,
    b: Seq<u8>,
    cells: Set<int>,
    bytes: Set<int>,
    dir: FatDir,
    cs: Seq<u32>,
)
    requires
        l.dir_sound(a, dir, cs),
        l.touches_only(a, b, cells, bytes),
        cells.disjoint(members(cs)),
    ensures
        l.dir_sound(b, dir, cs),
{
    reveal(FatLayout::dir_sound);
    lemma_untouched(l, a, b, cells, bytes, 0);
    assert forall|i: int| 0 <= i < cs.len() implies l.fat_read(b, (#[trigger] cs[i]) as int)
        == l.fat_read(a, cs[i] as int) by {
        assert(members(cs).contains(cs[i] as int));
        lemma_untouched(l, a, b, cells, bytes, cs[i] as int);
    }
    if cs.len() > 0 {
        assert(cs.last() == cs[cs.len() - 1]);
    }
}

/// A directory of which neither cells nor slots were touched reads as before.
pub proof fn lemma_slots_kept(
    l: FatLayout,
    a: Seq<u8>,
    b: Seq<u8>,
    cells: Set<int>,
    bytes: Set<int>,
    dir: FatDir,
    cs: Seq<u32>,
)
    requires
        l.dir_sound(a, dir, cs),
        l.touches_only(a, b, cells, bytes),
        forall|k: int|
            0 <= k < l.place_count(dir, cs) ==> bytes.disjoint(
                span(#[trigger] l.place_offset(dir, cs, k), 32),
            ),
    ensures
        l.slots_of(b, l.places(dir, cs)) == l.slots_of(a, l.places(dir, cs)),
{
    reveal(FatLayout::dir_sound);
    let ps = l.places(dir, cs);
    lemma_places_walked(l, a, dir, cs);
    lemma_slot_units(l);
    assert forall|k: int| 0 <= k < ps.len() implies l.slot_read(b, #[trigger] ps[k]) == l.slot_read(
        a,
        ps[k],
    ) by {
        lemma_place_apart(l, a, dir, cs, k, k);
        lemma_range_untouched(l, a, b, cells, bytes, l.place_offset(dir, cs, k), 32);
    }
    assert(l.slots_of(b, ps) =~= l.slots_of(a, ps));
}

/// Writing part of one slot of a sound directory succeeds and changes that
/// slot only.
pub proof fn lemma_slot_written(
    l: FatLayout,
    d: FatDisk,
    dir: FatDir,
    cs: Seq<u32>,
    i: int,
    bytes: Seq<u8>,
)
    requires
        l.dir_sound(d.img, dir, cs),
        0 <= i < l.place_count(dir, cs),
        bytes.len() <= 32,
    ensures
        ({
            let ps = l.places(dir, cs);
            let w = l.written(d, ps[i].offset as int, bytes);
            let a = w.disk.img;
            let ss = l.slots_of(d.img, ps);
            &&& w.out is Ok
            &&& l.touches_only(d.img, a, set![], span(ps[i].offset as int, 32))
            &&& l.dir_sound(a, dir, cs)
            &&& l.slots_of(a, ps) == ss.update(i, crate::bytes::spliced(ss[i], 0, bytes))
            &&& ss[i].len() == 32
        }),
{
    reveal(FatLayout::dir_sound);
    let ps = l.places(dir, cs);
    let e = Set::<int>::empty();
    lemma_places_walked(l, d.img, dir, cs);
    lemma_place_apart(l, d.img, dir, cs, i, i);
    lemma_slot_units(l);
    let off = l.place_offset(dir, cs, i);
    let w = l.written(d, off, bytes);
    let a = w.disk.img;
    lemma_bytes_effect(l, d, off, bytes);
    lemma_touches_more(l, d.img, a, e, span(off, bytes.len() as int), e, span(off, 32));
    lemma_dir_kept(l, d.img, a, e, span(off, 32), dir, cs);
    let ss = l.slots_of(d.img, ps);
    let new = ss.update(i, crate::bytes::spliced(ss[i], 0, bytes));
    assert forall|k: int| 0 <= k < ps.len() implies l.slots_of(a, ps)[k] == new[k] by {
        lemma_place_apart(l, d.img, dir, cs, i, k);
        let q = l.place_offset(dir, cs, k);
        assert(ps[k].offset == q);
        if k == i {
            assert(a.subrange(off, off + 32) =~= crate::bytes::spliced(ss[i], 0, bytes));
        } else {
            lemma_range_untouched(l, d.img, a, e, span(off, 32), q, 32);
        }
    }
    assert(l.slots_of(a, ps) =~= new);
}

/// The bytes of the slots `i..` of a directory.
pub open spec fn place_bytes(l: FatLayout, dir: FatDir, cs: Seq<u32>, i: int, n: int) -> Set<int> {
    Set::new(
        |b: int|
            exists|k: int|
                i <= k < i + n && #[trigger] l.place_offset(dir, cs, k) <= b < l.place_offset(
                    dir,
                    cs,
                    k,
                ) + 32,
    )
}

/// The slot behind slot `i` is slot `i + 1`.
proof fn lemma_next_place(l: FatLayout, img: Seq<u8>, dir: FatDir, cs: Seq<u32>, i: int)
    requires
        l.dir_sound(img, dir, cs),
        0 <= i,
        i + 1 < l.place_count(dir, cs),
    ensures
        l.slot_after(img, l.places(dir, cs)[i]) == Ok::<Option<SlotPos>, FsError<()>>(
            Some(l.places(dir, cs)[i + 1]),
        ),
{
    lemma_places_walked(l, img, dir, cs);
}

/// Slot `i` and the slots behind it make up the slots from `i` on.
proof fn lemma_place_bytes_split(l: FatLayout, img: Seq<u8>, dir: FatDir, cs: Seq<u32>, i: int, n: int)
    requires
        l.dir_sound(img, dir, cs),
        0 <= i < l.place_count(dir, cs),
        0 < n,
    ensures
        span(l.places(dir, cs)[i].offset as int, 32).subset_of(place_bytes(l, dir, cs, i, n)),
        place_bytes(l, dir, cs, i + 1, n - 1).subset_of(place_bytes(l, dir, cs, i, n)),
{
    lemma_places_walked(l, img, dir, cs);
    let off = l.place_offset(dir, cs, i);
    assert(l.places(dir, cs)[i].offset == off);
    let area = place_bytes(l, dir, cs, i, n);
    assert forall|b: int| span(off, 32).contains(b) implies area.contains(b) by {
        assert(l.place_offset(dir, cs, i) <= b < l.place_offset(dir, cs, i) + 32);
    }
    let part = place_bytes(l, dir, cs, i + 1, n - 1);
    assert forall|b: int| part.contains(b) implies area.contains(b) by {
        let k = choose|k: int|
            i + 1 <= k < i + n && #[trigger] l.place_offset(dir, cs, k) <= b < l.place_offset(
                dir,
                cs,
                k,
            ) + 32;
        assert(i <= k < i + n);
    }
}

/// Writing slots one after the other succeeds and replaces those slots.
pub proof fn law_slots_written(
    l: FatLayout,
    d: FatDisk,
    dir: FatDir,
    cs: Seq<u32>,
    i: int,
    slots: Seq<Seq<u8>>,
)
    requires
        l.dir_sound(d.img, dir, cs),
        0 <= i,
        i + slots.len() <= l.place_count(dir, cs),
        forall|k: int| 0 <= k < slots.len() ==> (#[trigger] slots[k]).len() == 32,
    ensures
        ({
            let ps = l.places(dir, cs);
            let w = l.slots_written(d, ps[i], slots);
            let a = w.disk.img;
            &&& w.out is Ok
            &&& l.touches_only(
                d.img,
                a,
                set![],
                place_bytes(l, dir, cs, i, slots.len() as int),
            )
            &&& l.dir_sound(a, dir, cs)
            &&& l.slots_of(a, ps) == replaced(l.slots_of(d.img, ps), i, slots)
        }),
    decreases slots.len(),
{
    let ps = l.places(dir, cs);
    let e = Set::<int>::empty();
    let ss = l.slots_of(d.img, ps);
    let area = place_bytes(l, dir, cs, i, slots.len() as int);
    if slots.len() == 0 {
        lemma_touches_nothing(l, d.img, e, area);
        assert(replaced(ss, i, slots) =~= ss);
    } else {
        let first = slots.first();
        assert(first == slots[0]);
        lemma_slot_written(l, d, dir, cs, i, first);
        let w = l.written(d, ps[i].offset as int, first);
        assert(crate::bytes::spliced(ss[i], 0, first) =~= first);
        let here = span(ps[i].offset as int, 32);
        lemma_place_bytes_split(l, d.img, dir, cs, i, slots.len() as int);
        lemma_touches_more(l, d.img, w.disk.img, e, here, e, area);
        if slots.len() == 1 {
            assert(replaced(ss, i, slots) =~= ss.update(i, first));
        } else {
            let rest = slots.drop_first();
            assert forall|k: int| 0 <= k < rest.len() implies (#[trigger] rest[k]).len() == 32 by {
                assert(rest[k] == slots[k + 1]);
            }
            lemma_next_place(l, w.disk.img, dir, cs, i);
            law_slots_written(l, w.disk, dir, cs, i + 1, rest);
            let a = l.slots_written(w.disk, ps[i + 1], rest).disk.img;
            let part = place_bytes(l, dir, cs, i + 1, rest.len() as int);
            lemma_touches_more(l, w.disk.img, a, e, part, e, area);
            lemma_touches_then(l, d.img, w.disk.img, a, e, area);
            assert(replaced(ss.update(i, first), i + 1, rest) =~= replaced(ss, i, slots));
        }
    }
}

/// Deleting slots one after the other marks those slots.
pub proof fn law_slots_deleted(l: FatLayout, d: FatDisk, dir: FatDir, cs: Seq<u32>, i: int, n: int)
    requires
        l.dir_sound(d.img, dir, cs),
        0 <= i,
        0 < n,
        i + n <= l.place_count(dir, cs),
    ensures
        ({
            let ps = l.places(dir, cs);
            let w = l.slots_deleted(d, ps[i], n);
            let a = w.disk.img;
            &&& w.out is Ok
            &&& l.touches_only(d.img, a, set![], place_bytes(l, dir, cs, i, n))
            &&& l.dir_sound(a, dir, cs)
            &&& l.slots_of(a, ps) == with_deleted(l.slots_of(d.img, ps), i, n)
        }),
    decreases n,
{
    let ps = l.places(dir, cs);
    let e = Set::<int>::empty();
    let ss = l.slots_of(d.img, ps);
    let area = place_bytes(l, dir, cs, i, n);
    let mark = seq![SLOT_DELETED];
    lemma_slot_written(l, d, dir, cs, i, mark);
    let w = l.written(d, ps[i].offset as int, mark);
    assert(crate::bytes::spliced(ss[i], 0, mark) =~= ss[i].update(0, SLOT_DELETED));
    let here = span(ps[i].offset as int, 32);
    lemma_place_bytes_split(l, d.img, dir, cs, i, n);
    lemma_touches_more(l, d.img, w.disk.img, e, here, e, area);
    if n == 1 {
        assert(with_deleted(ss, i, n) =~= ss.update(i, ss[i].update(0, SLOT_DELETED)));
    } else {
        lemma_next_place(l, w.disk.img, dir, cs, i);
        law_slots_deleted(l, w.disk, dir, cs, i + 1, n - 1);
        let a = l.slots_deleted(w.disk, ps[i + 1], n - 1).disk.img;
        let part = place_bytes(l, dir, cs, i + 1, n - 1);
        lemma_touches_more(l, w.disk.img, a, e, part, e, area);
        lemma_touches_then(l, d.img, w.disk.img, a, e, area);
        assert(with_deleted(ss.update(i, ss[i].update(0, SLOT_DELETED)), i + 1, n - 1)
            =~= with_deleted(ss, i, n));
    }
}

} // verus!
