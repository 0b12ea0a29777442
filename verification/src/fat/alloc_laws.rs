//! What allocation hands out: clusters that were free, linked in order behind
//! the tail; and if it fails, it leaves no trace in the FAT.

use vstd::prelude::*;

use super::effects::{
    lemma_attempt_effect, lemma_cell_effect, lemma_touches_more, lemma_touches_nothing,
    lemma_touches_then, lemma_untouched, members,
};
use super::layout::{FatDisk, FatLayout, FatWrite};
use super::regions::{lemma_cell_inside, lemma_cluster_places, lemma_copy_places};
use crate::codec::fat::fat_entry::FatEntry;
use crate::error::FsError;

verus! {

impl FatLayout {
    /// The clusters of the list are free.
    pub open spec fn all_free(self, img: Seq<u8>, cs: Seq<u32>) -> bool {
        forall|i: int|
            0 <= i < cs.len() ==> self.fat_read(img, (#[trigger] cs[i]) as int) == Ok::<
                FatEntry,
                FsError<()>,
            >(FatEntry::Free)
    }

    /// `cluster` is one of the volume's and not free.
    pub open spec fn in_use(self, img: Seq<u8>, cluster: int) -> bool {
        &&& self.is_cluster(cluster)
        &&& self.fat_read(img, cluster) matches Ok(f) && !(f is Free)
    }

    /// The cells of the clusters before `cs[0]` and of `cs` link them in
    /// order, and the last ends the chain.
    pub open spec fn linked_behind(self, img: Seq<u8>, prev: Option<u32>, cs: Seq<u32>) -> bool {
        &&& forall|i: int|
            0 <= i < cs.len() - 1 ==> #[trigger] self.fat_read(img, cs[i] as int) == Ok::<
                FatEntry,
                FsError<()>,
            >(FatEntry::Next(cs[i + 1]))
        &&& cs.len() > 0 ==> self.fat_read(img, cs.last() as int) == Ok::<FatEntry, FsError<()>>(
            FatEntry::End,
        )
        &&& prev matches Some(p) ==> cs.len() > 0 ==> self.fat_read(img, p as int) == Ok::<
            FatEntry,
            FsError<()>,
        >(FatEntry::Next(cs[0]))
    }
}

/// The cluster linked from, as a set.
pub open spec fn link_cell(prev: Option<u32>) -> Set<int> {
    match prev {
        Some(p) => set![p as int],
        None => set![],
    }
}

/// What a search finds is free.
pub proof fn lemma_free_found(l: FatLayout, img: Seq<u8>, from: int)
    ensures
        l.free_from(img, from) matches Ok(Some(c)) ==> l.is_cluster(c as int) && l.fat_read(
            img,
            c as int,
        ) == Ok::<FatEntry, FsError<()>>(FatEntry::Free),
        l.free_from(img, from) == Ok::<Option<u32>, FsError<()>>(None) ==> forall|k: int|
            from <= k <= l.props.max_cluster ==> #[trigger] l.fat_read(img, k) != Ok::<
                FatEntry,
                FsError<()>,
            >(FatEntry::Free),
    decreases l.props.max_cluster + 1 - from,
{
    if from <= l.props.max_cluster {
        match l.fat_read(img, from) {
            Ok(FatEntry::Free) => {},
            Ok(_) => {
                lemma_free_found(l, img, from + 1);
            },
            Err(_) => {},
        }
    }
}

/// Claiming clusters takes different free ones and links them in order; only
/// their cells and that of the cluster linked from are touched.
pub proof fn lemma_claimed_effect(
    l: FatLayout,
    d: FatDisk,
    n: int,
    prev: Option<u32>,
    got: Seq<u32>,
    linked: bool,
) -> (more: Seq<u32>)
    requires
        l.sound(),
        0 <= n,
        prev matches Some(p) ==> l.in_use(d.img, p as int),
        l.claimed(d, n, prev, got, linked).out is Ok,
    ensures
        ({
            let c = l.claimed(d, n, prev, got, linked);
            let a = c.disk.img;
            &&& c.claimed == got + more
            &&& more.len() == n
            &&& more.no_duplicates()
            &&& forall|i: int| 0 <= i < more.len() ==> l.is_cluster((#[trigger] more[i]) as int)
            &&& l.all_free(d.img, more)
            &&& l.touches_only(d.img, a, members(more).union(link_cell(prev)), set![])
            &&& l.linked_behind(a, prev, more)
        }),
    decreases n,
{
    let e = Set::<int>::empty();
    if n == 0 {
        lemma_touches_nothing(l, d.img, members(seq![]).union(link_cell(prev)), e);
        assert(got + Seq::<u32>::empty() =~= got);
        seq![]
    } else {
        let f = l.free_search(d);
        let c = f.out->Ok_0->0;
        lemma_free_found(l, d.img, l.search_start(d));
        let w = l.fat_written(f.disk, c, FatWrite::End);
        lemma_cell_effect(l, f.disk, c, FatWrite::End);
        let k = match prev {
            Some(p) => l.fat_written(w.disk, p, FatWrite::Next(c)),
            None => w,
        };
        let (x, y, z) = (d.img, w.disk.img, k.disk.img);
        let first = set![c as int].union(link_cell(prev));
        lemma_touches_more(l, x, y, set![c as int], e, first, e);
        if let Some(p) = prev {
            lemma_cell_effect(l, w.disk, p, FatWrite::Next(c));
            lemma_touches_more(l, y, z, set![p as int], e, first, e);
            lemma_touches_then(l, x, y, z, first, e);
            assert(p != c);
            lemma_untouched(l, y, z, set![p as int], e, c as int);
        }
        assert(l.fat_read(z, c as int) == Ok::<FatEntry, FsError<()>>(FatEntry::End));
        let rest = lemma_claimed_effect(l, k.disk, n - 1, Some(c), got.push(c), true);
        let a = l.claimed(k.disk, n - 1, Some(c), got.push(c), true).disk.img;
        let more = seq![c] + rest;
        assert(got.push(c) + rest =~= got + more);
        lemma_claim_joined(l, x, z, a, prev, c, rest);
        more
    }
}

/// One step of claiming: the cluster claimed first, then the rest.
proof fn lemma_claim_joined(
    l: FatLayout,
    x: Seq<u8>,
    z: Seq<u8>,
    a: Seq<u8>,
    prev: Option<u32>,
    c: u32,
    rest: Seq<u32>,
)
    requires
        prev matches Some(p) ==> l.in_use(x, p as int) && l.fat_read(z, p as int) == Ok::<
            FatEntry,
            FsError<()>,
        >(FatEntry::Next(c)),
        l.is_cluster(c as int),
        l.fat_read(x, c as int) == Ok::<FatEntry, FsError<()>>(FatEntry::Free),
        l.fat_read(z, c as int) == Ok::<FatEntry, FsError<()>>(FatEntry::End),
        l.touches_only(x, z, set![c as int].union(link_cell(prev)), set![]),
        rest.no_duplicates(),
        forall|i: int| 0 <= i < rest.len() ==> l.is_cluster((#[trigger] rest[i]) as int),
        l.all_free(z, rest),
        l.touches_only(z, a, members(rest).union(link_cell(Some(c))), set![]),
        l.linked_behind(a, Some(c), rest),
        rest.len() == 0 ==> a == z,
    ensures
        ({
            let more = seq![c] + rest;
            &&& more.no_duplicates()
            &&& forall|i: int| 0 <= i < more.len() ==> l.is_cluster((#[trigger] more[i]) as int)
            &&& l.all_free(x, more)
            &&& l.touches_only(x, a, members(more).union(link_cell(prev)), set![])
            &&& l.linked_behind(a, prev, more)
        }),
{
    let e = Set::<int>::empty();
    let more = seq![c] + rest;
    let first = set![c as int].union(link_cell(prev));
    assert(more[0] == c);
    assert forall|i: int| 0 <= i < rest.len() implies #[trigger] more[i + 1] == rest[i] by {}
    assert forall|i: int| 0 <= i < rest.len() implies (#[trigger] rest[i]) != c && prev != Some(
        rest[i],
    ) && l.fat_read(x, rest[i] as int) == Ok::<FatEntry, FsError<()>>(FatEntry::Free) by {
        assert(l.fat_read(z, rest[i] as int) == Ok::<FatEntry, FsError<()>>(FatEntry::Free));
        lemma_untouched(l, x, z, first, e, rest[i] as int);
    }
    assert(members(more) =~= members(rest).insert(c as int)) by {
        assert forall|k: int| members(more).contains(k) <==> members(rest).insert(
            c as int,
        ).contains(k) by {
            if members(more).contains(k) {
                let i = choose|i: int| 0 <= i < more.len() && more[i] == k as u32;
                if i > 0 {
                    assert(rest[i - 1] == k as u32);
                }
            }
            if members(rest).contains(k) {
                let i = choose|i: int| 0 <= i < rest.len() && rest[i] == k as u32;
                assert(more[i + 1] == k as u32);
            }
            if k == c as int {
                assert(more.contains(c));
            }
        }
    }
    let all = members(more).union(link_cell(prev));
    lemma_touches_more(l, x, z, first, e, all, e);
    lemma_touches_more(l, z, a, members(rest).union(link_cell(Some(c))), e, all, e);
    lemma_touches_then(l, x, z, a, all, e);
    assert forall|i: int, j: int| 0 <= i < more.len() && 0 <= j < more.len() && i != j implies more[i]
        != more[j] by {
        if i > 0 && j > 0 {
            assert(more[i] == rest[i - 1] && more[j] == rest[j - 1]);
        } else if i > 0 {
            assert(more[i] == rest[i - 1]);
        } else {
            assert(more[j] == rest[j - 1]);
        }
    }
    assert forall|i: int| 0 <= i < more.len() implies l.is_cluster((#[trigger] more[i]) as int)
        && l.fat_read(x, more[i] as int) == Ok::<FatEntry, FsError<()>>(FatEntry::Free) by {
        if i > 0 {
            assert(more[i] == rest[i - 1]);
        }
    }
    if let Some(p) = prev {
        assert(!members(rest).contains(p as int)) by {
            if members(rest).contains(p as int) {
                let i = choose|i: int| 0 <= i < rest.len() && rest[i] == p;
                assert(prev != Some(rest[i]));
            }
        }
        lemma_untouched(l, z, a, members(rest).union(link_cell(Some(c))), e, p as int);
    }
    assert forall|i: int| 0 <= i < more.len() - 1 implies #[trigger] l.fat_read(
        a,
        more[i] as int,
    ) == Ok::<FatEntry, FsError<()>>(FatEntry::Next(more[i + 1])) by {
        if i > 0 {
            assert(more[i] == rest[i - 1] && more[i + 1] == rest[i]);
        } else {
            assert(more[1] == rest[0]);
        }
    }
    if rest.len() > 0 {
        assert(more.last() == rest.last());
    }
}

/// Allocating clusters hands out different ones that were free, linked in
/// order behind the cluster given; only their cells and that cluster's are
/// touched.
pub proof fn law_allocated(l: FatLayout, d: FatDisk, n: int, link_from: Option<u32>)
    requires
        l.sound(),
        0 <= n,
        link_from matches Some(p) ==> l.in_use(d.img, p as int),
        l.allocated(d, n, link_from).out is Ok,
    ensures
        ({
            let a = l.allocated(d, n, link_from).disk.img;
            let new = l.allocated(d, n, link_from).out->Ok_0;
            &&& new.len() == n
            &&& new.no_duplicates()
            &&& forall|i: int| 0 <= i < new.len() ==> l.is_cluster((#[trigger] new[i]) as int)
            &&& l.all_free(d.img, new)
            &&& l.touches_only(d.img, a, members(new).union(link_cell(link_from)), set![])
            &&& l.linked_behind(a, link_from, new)
        }),
{
    let more = lemma_claimed_effect(l, d, n, link_from, seq![], false);
    assert(Seq::<u32>::empty() + more =~= more);
}

/// On a volume that the device holds whole, cells can always be written.
pub proof fn lemma_cell_writable(l: FatLayout, d: FatDisk, c: u32, value: FatWrite)
    requires
        l.sound(),
        l.volume_end() <= d.img.len(),
        l.is_cluster(c as int),
    ensures
        l.fat_written(d, c, value).out is Ok,
{
    let ci = c as int;
    lemma_cell_inside(l, ci);
    lemma_cluster_places(l, ci, ci);
    let act = l.active_copy();
    lemma_copy_places(l, act, act);
    let bytes = l.cell_image(l.cell_for(value, crate::bytes::le32(d.img, l.cell_pos(ci))));
    if l.mirrored() {
        lemma_copies_writable(l, d, ci, bytes, 0);
    }
}

proof fn lemma_copies_writable(l: FatLayout, d: FatDisk, c: int, bytes: Seq<u8>, copy: int)
    requires
        l.sound(),
        l.volume_end() <= d.img.len(),
        l.is_cluster(c),
        bytes.len() == l.fat_type.cell_bytes(),
        0 <= copy,
    ensures
        l.copies_written(d, c, bytes, copy, l.props.fat_table_count as int).out is Ok,
    decreases l.props.fat_table_count - copy,
{
    let n = l.props.fat_table_count as int;
    if copy < n {
        lemma_cell_inside(l, c);
        lemma_cluster_places(l, c, c);
        lemma_copy_places(l, copy, copy);
        let w = l.written(d, l.copy_cell(copy, c), bytes);
        lemma_copies_writable(l, w.disk, c, bytes, copy + 1);
    }
}

/// On a volume that the device holds whole, every cell can be read.
pub proof fn lemma_cell_readable(l: FatLayout, img: Seq<u8>, c: int)
    requires
        l.sound(),
        l.volume_end() <= img.len(),
        l.is_cluster(c),
    ensures
        l.fat_read(img, c) == Ok::<FatEntry, FsError<()>>(l.fat_entry(img, c)),
{
    lemma_cell_inside(l, c);
    lemma_cluster_places(l, c, c);
    let act = l.active_copy();
    lemma_copy_places(l, act, act);
}

/// So a search for a free cluster does not fail.
proof fn lemma_search_succeeds(l: FatLayout, img: Seq<u8>, from: int)
    requires
        l.sound(),
        l.volume_end() <= img.len(),
        2 <= from,
    ensures
        l.free_from(img, from) is Ok,
    decreases l.props.max_cluster + 1 - from,
{
    if from <= l.props.max_cluster {
        lemma_cell_readable(l, img, from);
        lemma_search_succeeds(l, img, from + 1);
    }
}

/// Claiming that stops early on a volume that the device holds whole stops for
/// want of free clusters.
proof fn lemma_claim_stopped(
    l: FatLayout,
    d: FatDisk,
    n: int,
    prev: Option<u32>,
    got: Seq<u32>,
    linked: bool,
)
    requires
        l.sound(),
        l.volume_end() <= d.img.len(),
        0 <= n,
        prev matches Some(p) ==> l.is_cluster(p as int),
        l.claimed(d, n, prev, got, linked).out is Err,
    ensures
        l.claimed(d, n, prev, got, linked).out == Err::<(), FsError<()>>(FsError::StorageFull),
    decreases n,
{
    let e = Set::<int>::empty();
    let f = l.free_search(d);
    lemma_search_succeeds(l, d.img, l.search_start(d));
    lemma_free_found(l, d.img, l.search_start(d));
    if let Some(c) = f.out->Ok_0 {
        lemma_cell_writable(l, f.disk, c, FatWrite::End);
        let w = l.fat_written(f.disk, c, FatWrite::End);
        lemma_attempt_effect(l, f.disk, c, FatWrite::End);
        lemma_untouched(l, d.img, w.disk.img, set![c as int], e, 0);
        let k = match prev {
            Some(p) => l.fat_written(w.disk, p, FatWrite::Next(c)),
            None => w,
        };
        if let Some(p) = prev {
            lemma_cell_writable(l, w.disk, p, FatWrite::Next(c));
            lemma_attempt_effect(l, w.disk, p, FatWrite::Next(c));
            lemma_untouched(l, w.disk.img, k.disk.img, set![p as int], e, 0);
        }
        lemma_claim_stopped(l, k.disk, n - 1, Some(c), got.push(c), true);
    }
}

/// The cells that claiming `more` may have touched.
pub open spec fn claim_cells(prev: Option<u32>, more: Seq<u32>, linked: bool) -> Set<int> {
    if linked {
        members(more).union(link_cell(prev))
    } else {
        members(more)
    }
}

/// However far claiming comes: what it claimed was free, and only the cells of
/// that are touched, and that of the cluster linked from if it was gone to.
proof fn lemma_claim_attempted(
    l: FatLayout,
    d: FatDisk,
    n: int,
    prev: Option<u32>,
    got: Seq<u32>,
    linked: bool,
) -> (more: Seq<u32>)
    requires
        l.sound(),
        0 <= n,
        prev matches Some(p) ==> l.in_use(d.img, p as int),
    ensures
        ({
            let c = l.claimed(d, n, prev, got, linked);
            &&& c.claimed == got + more
            &&& linked ==> c.linked
            &&& forall|i: int| 0 <= i < more.len() ==> l.is_cluster((#[trigger] more[i]) as int)
            &&& l.all_free(d.img, more)
            &&& l.touches_only(d.img, c.disk.img, claim_cells(prev, more, c.linked), set![])
        }),
    decreases n,
{
    let e = Set::<int>::empty();
    let f = l.free_search(d);
    lemma_free_found(l, d.img, l.search_start(d));
    if n == 0 || !(f.out matches Ok(Some(_))) {
        let none = Seq::<u32>::empty();
        let cells = claim_cells(prev, none, l.claimed(d, n, prev, got, linked).linked);
        lemma_touches_nothing(l, d.img, cells, e);
        assert(got + none =~= got);
        none
    } else {
        let c = f.out->Ok_0->0;
        let one = seq![c];
        assert(one[0] == c);
        assert(members(one) =~= set![c as int]) by {
            assert(one.contains(c));
        }
        assert(got.push(c) =~= got + one);
        let w = l.fat_written(f.disk, c, FatWrite::End);
        lemma_attempt_effect(l, f.disk, c, FatWrite::End);
        let (x, y) = (d.img, w.disk.img);
        if w.out is Err {
            let cells = claim_cells(prev, one, linked);
            lemma_touches_more(l, x, y, set![c as int], e, cells, e);
            one
        } else {
            let k = match prev {
                Some(p) => l.fat_written(w.disk, p, FatWrite::Next(c)),
                None => w,
            };
            let z = k.disk.img;
            let first = claim_cells(prev, one, true);
            lemma_touches_more(l, x, y, set![c as int], e, first, e);
            if let Some(p) = prev {
                lemma_attempt_effect(l, w.disk, p, FatWrite::Next(c));
                lemma_touches_more(l, y, z, set![p as int], e, first, e);
                lemma_touches_then(l, x, y, z, first, e);
                assert(p != c);
                lemma_untouched(l, y, z, set![p as int], e, c as int);
            }
            if k.out is Err {
                one
            } else {
                assert(l.fat_read(z, c as int) == Ok::<FatEntry, FsError<()>>(FatEntry::End));
                let rest = lemma_claim_attempted(l, k.disk, n - 1, Some(c), got.push(c), true);
                let a = l.claimed(k.disk, n - 1, Some(c), got.push(c), true).disk.img;
                lemma_attempts_joined(l, x, z, a, prev, c, rest);
                assert(got.push(c) + rest =~= got + (seq![c] + rest));
                seq![c] + rest
            }
        }
    }
}

/// One step of claiming, however far the rest comes.
proof fn lemma_attempts_joined(
    l: FatLayout,
    x: Seq<u8>,
    z: Seq<u8>,
    a: Seq<u8>,
    prev: Option<u32>,
    c: u32,
    rest: Seq<u32>,
)
    requires
        prev matches Some(p) ==> l.in_use(x, p as int) && (l.fat_read(z, p as int) matches Ok(v)
            && !(v is Free)),
        l.is_cluster(c as int),
        l.fat_read(x, c as int) == Ok::<FatEntry, FsError<()>>(FatEntry::Free),
        l.fat_read(z, c as int) == Ok::<FatEntry, FsError<()>>(FatEntry::End),
        l.touches_only(x, z, claim_cells(prev, seq![c], true), set![]),
        forall|i: int| 0 <= i < rest.len() ==> l.is_cluster((#[trigger] rest[i]) as int),
        l.all_free(z, rest),
        l.touches_only(z, a, claim_cells(Some(c), rest, true), set![]),
    ensures
        ({
            let more = seq![c] + rest;
            &&& forall|i: int| 0 <= i < more.len() ==> l.is_cluster((#[trigger] more[i]) as int)
            &&& l.all_free(x, more)
            &&& l.touches_only(x, a, claim_cells(prev, more, true), set![])
        }),
{
    let e = Set::<int>::empty();
    let more = seq![c] + rest;
    let first = claim_cells(prev, seq![c], true);
    let then = claim_cells(Some(c), rest, true);
    let all = claim_cells(prev, more, true);
    assert(more[0] == c);
    assert forall|i: int| 0 <= i < more.len() implies l.is_cluster((#[trigger] more[i]) as int)
        && l.fat_read(x, more[i] as int) == Ok::<FatEntry, FsError<()>>(FatEntry::Free) by {
        if i > 0 {
            let r = rest[i - 1];
            assert(more[i] == r);
            assert(l.fat_read(z, r as int) == Ok::<FatEntry, FsError<()>>(FatEntry::Free));
            assert(r != c && prev != Some(r));
            assert(!first.contains(r as int)) by {
                if members(seq![c]).contains(r as int) {
                    let j = choose|j: int| 0 <= j < 1 && seq![c][j] == r;
                }
            }
            lemma_untouched(l, x, z, first, e, r as int);
        }
    }
    assert forall|k: int| first.contains(k) implies all.contains(k) by {
        if members(seq![c]).contains(k) {
            let j = choose|j: int| 0 <= j < 1 && seq![c][j] == k as u32;
            assert(more[0] == k as u32);
        }
    }
    assert forall|k: int| then.contains(k) implies all.contains(k) by {
        if members(rest).contains(k) {
            let j = choose|j: int| 0 <= j < rest.len() && rest[j] == k as u32;
            assert(more[j + 1] == k as u32);
        } else {
            assert(more[0] == c);
        }
    }
    lemma_touches_more(l, x, z, first, e, all, e);
    lemma_touches_more(l, z, a, then, e, all, e);
    lemma_touches_then(l, x, z, a, all, e);
}

/// A cell that can be read can be read on every image of that size.
proof fn lemma_readable_kept(l: FatLayout, a: Seq<u8>, b: Seq<u8>, c: int)
    requires
        a.len() == b.len(),
        l.fat_read(a, c) is Ok,
    ensures
        l.fat_read(b, c) is Ok,
{
}

/// Giving clusters back frees their cells, as far as those can be read, and
/// touches no others.
proof fn lemma_given_back(l: FatLayout, d: FatDisk, cs: Seq<u32>)
    requires
        l.sound(),
        forall|i: int|
            0 <= i < cs.len() ==> l.is_cluster((#[trigger] cs[i]) as int) && l.fat_read(
                d.img,
                cs[i] as int,
            ) is Ok,
    ensures
        ({
            let a = l.given_back(d, cs).img;
            &&& l.touches_only(d.img, a, members(cs), set![])
            &&& l.all_free(a, cs)
        }),
    decreases cs.len(),
{
    let e = Set::<int>::empty();
    if cs.len() == 0 {
        lemma_touches_nothing(l, d.img, members(cs), e);
    } else {
        let c = cs.first();
        let rest = cs.drop_first();
        assert(c == cs[0]);
        lemma_attempt_effect(l, d, c, FatWrite::Free);
        let w = l.fat_written(d, c, FatWrite::Free);
        lemma_untouched(l, d.img, w.disk.img, set![c as int], e, 0);
        assert forall|i: int| 0 <= i < rest.len() implies l.is_cluster((#[trigger] rest[i]) as int)
            && l.fat_read(w.disk.img, rest[i] as int) is Ok by {
            assert(rest[i] == cs[i + 1]);
            lemma_readable_kept(l, d.img, w.disk.img, rest[i] as int);
        }
        lemma_given_back(l, w.disk, rest);
        let a = l.given_back(w.disk, rest).img;
        assert(members(rest).subset_of(members(cs))) by {
            assert forall|k: int| members(rest).contains(k) implies members(cs).contains(k) by {
                let i = choose|i: int| 0 <= i < rest.len() && rest[i] == k as u32;
                assert(cs[i + 1] == k as u32);
            }
        }
        assert(members(cs).contains(c as int));
        lemma_touches_more(l, d.img, w.disk.img, set![c as int], e, members(cs), e);
        lemma_touches_more(l, w.disk.img, a, members(rest), e, members(cs), e);
        lemma_touches_then(l, d.img, w.disk.img, a, members(cs), e);
        lemma_untouched(l, w.disk.img, a, members(rest), e, c as int);
        assert forall|i: int| 0 <= i < cs.len() implies l.fat_read(a, (#[trigger] cs[i]) as int)
            == Ok::<FatEntry, FsError<()>>(FatEntry::Free) by {
            if i > 0 {
                assert(cs[i] == rest[i - 1]);
            } else if members(rest).contains(c as int) {
                let j = choose|j: int| 0 <= j < rest.len() && rest[j] == c;
                assert(l.fat_read(a, rest[j] as int) == Ok::<FatEntry, FsError<()>>(
                    FatEntry::Free,
                ));
            }
        }
    }
}

/// Cells that were changed and read as before again leave no trace.
proof fn lemma_traceless(
    l: FatLayout,
    x: Seq<u8>,
    u: Seq<u8>,
    cs: Seq<u32>,
    link_from: Option<u32>,
)
    requires
        l.touches_only(x, u, members(cs).union(link_cell(link_from)), set![]),
        l.all_free(x, cs),
        l.all_free(u, cs),
        link_from matches Some(p) ==> l.fat_read(u, p as int) == l.fat_read(x, p as int),
    ensures
        u.len() == x.len(),
        forall|k: int| #[trigger] l.fat_read(u, k) == l.fat_read(x, k),
        forall|i: int| l.root_pos() <= i < x.len() ==> #[trigger] u[i] == x[i],
{
    let e = Set::<int>::empty();
    let cells = members(cs).union(link_cell(link_from));
    lemma_untouched(l, x, u, cells, e, 0);
    assert forall|k: int| #[trigger] l.fat_read(u, k) == l.fat_read(x, k) by {
        lemma_untouched(l, x, u, cells, e, k);
        if members(cs).contains(k) {
            let i = choose|i: int| 0 <= i < cs.len() && cs[i] == k as u32;
            assert(l.fat_read(x, cs[i] as int) == l.fat_read(u, cs[i] as int));
        }
    }
    assert forall|i: int| l.root_pos() <= i < x.len() implies #[trigger] u[i] == x[i] by {
        lemma_untouched(l, x, u, cells, e, i);
    }
}

/// Unwinding what was claimed: the clusters are free again, and the cluster
/// linked from ends its chain again.
proof fn lemma_unwound(l: FatLayout, x: Seq<u8>, d: FatDisk, more: Seq<u32>, p: u32)
    requires
        l.sound(),
        l.is_cluster(p as int),
        l.fat_read(x, p as int) == Ok::<FatEntry, FsError<()>>(FatEntry::End),
        forall|i: int| 0 <= i < more.len() ==> l.is_cluster((#[trigger] more[i]) as int),
        l.all_free(x, more),
        l.touches_only(x, d.img, members(more).union(link_cell(Some(p))), set![]),
    ensures
        ({
            let u = l.fat_written(l.given_back(d, more), p, FatWrite::End).disk.img;
            &&& l.touches_only(x, u, members(more).union(link_cell(Some(p))), set![])
            &&& l.all_free(u, more)
            &&& l.fat_read(u, p as int) == Ok::<FatEntry, FsError<()>>(FatEntry::End)
        }),
{
    let e = Set::<int>::empty();
    let cells = members(more).union(link_cell(Some(p)));
    lemma_untouched(l, x, d.img, cells, e, 0);
    lemma_claims_readable(l, x, d.img, more);
    lemma_given_back(l, d, more);
    let b = l.given_back(d, more);
    lemma_untouched(l, d.img, b.img, members(more), e, 0);
    lemma_touches_more(l, d.img, b.img, members(more), e, cells, e);
    lemma_touches_then(l, x, d.img, b.img, cells, e);
    lemma_readable_kept(l, x, b.img, p as int);
    lemma_attempt_effect(l, b, p, FatWrite::End);
    let u = l.fat_written(b, p, FatWrite::End).disk.img;
    lemma_touches_more(l, b.img, u, set![p as int], e, cells, e);
    lemma_touches_then(l, x, b.img, u, cells, e);
    assert forall|i: int| 0 <= i < more.len() implies l.fat_read(u, (#[trigger] more[i]) as int)
        == Ok::<FatEntry, FsError<()>>(FatEntry::Free) by {
        assert(l.fat_read(x, more[i] as int) == Ok::<FatEntry, FsError<()>>(FatEntry::Free));
        assert(l.fat_read(b.img, more[i] as int) == Ok::<FatEntry, FsError<()>>(FatEntry::Free));
        lemma_untouched(l, b.img, u, set![p as int], e, more[i] as int);
    }
}

/// Cells of clusters that were found free can be read.
proof fn lemma_claims_readable(l: FatLayout, x: Seq<u8>, y: Seq<u8>, more: Seq<u32>)
    requires
        x.len() == y.len(),
        l.all_free(x, more),
    ensures
        forall|i: int| 0 <= i < more.len() ==> l.fat_read(y, (#[trigger] more[i]) as int) is Ok,
{
    assert forall|i: int| 0 <= i < more.len() implies l.fat_read(y, (#[trigger] more[i]) as int) is Ok by {
        assert(l.fat_read(x, more[i] as int) is Ok);
        lemma_readable_kept(l, x, y, more[i] as int);
    }
}

/// An allocation that fails leaves no trace, wherever it failed: every FAT cell
/// reads as before, and so does everything behind the FAT. Where the device holds
/// the volume whole, it fails for want of space only. The cluster linked from
/// must have been the end of its chain.
pub proof fn law_failed_allocation_leaves_no_trace(
    l: FatLayout,
    d: FatDisk,
    n: int,
    link_from: Option<u32>,
)
    requires
        l.sound(),
        0 <= n,
        link_from matches Some(p) ==> l.fat_read(d.img, p as int) == Ok::<FatEntry, FsError<()>>(
            FatEntry::End,
        ),
        l.allocated(d, n, link_from).out is Err,
    ensures
        ({
            let u = l.allocated(d, n, link_from);
            &&& l.volume_end() <= d.img.len() ==> u.out == Err::<Seq<u32>, FsError<()>>(
                FsError::StorageFull,
            )
            &&& u.disk.img.len() == d.img.len()
            &&& forall|k: int| #[trigger] l.fat_read(u.disk.img, k) == l.fat_read(d.img, k)
            &&& forall|i: int|
                l.root_pos() <= i < d.img.len() ==> #[trigger] u.disk.img[i] == d.img[i]
        }),
{
    let e = Set::<int>::empty();
    let c = l.claimed(d, n, link_from, seq![], false);
    if l.volume_end() <= d.img.len() {
        lemma_claim_stopped(l, d, n, link_from, seq![], false);
    }
    let more = lemma_claim_attempted(l, d, n, link_from, seq![], false);
    assert(Seq::<u32>::empty() + more =~= more);
    let cells = members(more).union(link_cell(link_from));
    let touched = claim_cells(link_from, more, c.linked);
    lemma_untouched(l, d.img, c.disk.img, touched, e, 0);
    lemma_touches_more(l, d.img, c.disk.img, touched, e, cells, e);
    let u = l.allocated(d, n, link_from).disk.img;
    if link_from is Some && c.linked {
        lemma_unwound(l, d.img, c.disk, more, link_from->0);
    } else {
        lemma_claims_readable(l, d.img, c.disk.img, more);
        lemma_given_back(l, c.disk, more);
        lemma_touches_more(l, c.disk.img, u, members(more), e, cells, e);
        lemma_touches_then(l, d.img, c.disk.img, u, cells, e);
        if let Some(p) = link_from {
            assert(!members(more).contains(p as int)) by {
                if members(more).contains(p as int) {
                    let i = choose|i: int| 0 <= i < more.len() && more[i] == p;
                    assert(l.fat_read(d.img, more[i] as int) == Ok::<FatEntry, FsError<()>>(
                        FatEntry::Free,
                    ));
                }
            }
            lemma_untouched(l, d.img, c.disk.img, touched, e, p as int);
            lemma_untouched(l, c.disk.img, u, members(more), e, p as int);
        }
    }
    lemma_traceless(l, d.img, u, more, link_from);
}

/// Freeing a chain frees every cluster of it and touches no other cell.
pub proof fn law_chain_freed(l: FatLayout, d: FatDisk, cs: Seq<u32>, steps: int)
    requires
        l.sound(),
        l.volume_end() <= d.img.len(),
        cs.len() > 0,
        l.distinct_clusters(cs),
        l.chained(d.img, cs),
        0 <= steps,
        steps + cs.len() <= l.props.max_cluster + 1,
    ensures
        ({
            let f = l.chain_freed(d, cs[0], steps);
            &&& f.out is Ok
            &&& l.all_free(f.disk.img, cs)
            &&& l.touches_only(d.img, f.disk.img, members(cs), set![])
        }),
    decreases cs.len(),
{
    let e = Set::<int>::empty();
    let c = cs[0];
    assert(l.is_cluster(c as int));
    lemma_cell_writable(l, d, c, FatWrite::Free);
    lemma_cell_effect(l, d, c, FatWrite::Free);
    let w = l.fat_written(d, c, FatWrite::Free);
    assert(members(cs).contains(c as int));
    lemma_touches_more(l, d.img, w.disk.img, set![c as int], e, members(cs), e);
    lemma_untouched(l, d.img, w.disk.img, set![c as int], e, 0);
    if cs.len() == 1 {
        assert(cs.last() == c);
    } else {
        let rest = cs.drop_first();
        assert(l.fat_read(d.img, cs[0] as int) == Ok::<FatEntry, FsError<()>>(
            FatEntry::Next(cs[1]),
        ));
        assert forall|i: int| 0 <= i < rest.len() implies (#[trigger] rest[i]) == cs[i + 1] && rest[i]
            != c && l.is_cluster(rest[i] as int) && l.fat_read(w.disk.img, rest[i] as int)
            == l.fat_read(d.img, rest[i] as int) by {
            assert(cs[i + 1] != cs[0]);
            assert(l.is_cluster(cs[i + 1] as int));
            lemma_untouched(l, d.img, w.disk.img, set![c as int], e, cs[i + 1] as int);
        }
        assert(l.chained(w.disk.img, rest)) by {
            assert forall|i: int| 0 <= i < rest.len() - 1 implies #[trigger] l.fat_read(
                w.disk.img,
                rest[i] as int,
            ) == Ok::<FatEntry, FsError<()>>(FatEntry::Next(rest[i + 1])) by {
                assert(rest[i] == cs[i + 1] && rest[i + 1] == cs[i + 2]);
            }
            assert(rest.last() == cs.last());
            assert(rest[rest.len() - 1] == rest.last());
        }
        assert forall|i: int, j: int|
            0 <= i < rest.len() && 0 <= j < rest.len() && i != j implies rest[i] != rest[j] by {
            assert(rest[i] == cs[i + 1] && rest[j] == cs[j + 1]);
        }
        law_chain_freed(l, w.disk, rest, steps + 1);
        assert(rest[0] == cs[1]);
        let a = l.chain_freed(w.disk, rest[0], steps + 1).disk.img;
        assert(members(rest).subset_of(members(cs))) by {
            assert forall|k: int| members(rest).contains(k) implies members(cs).contains(k) by {
                let i = choose|i: int| 0 <= i < rest.len() && rest[i] == k as u32;
                assert(cs[i + 1] == k as u32);
            }
        }
        assert(!members(rest).contains(c as int)) by {
            if members(rest).contains(c as int) {
                let i = choose|i: int| 0 <= i < rest.len() && rest[i] == c;
                assert(rest[i] != c);
            }
        }
        lemma_touches_more(l, w.disk.img, a, members(rest), e, members(cs), e);
        lemma_touches_then(l, d.img, w.disk.img, a, members(cs), e);
        lemma_untouched(l, w.disk.img, a, members(rest), e, c as int);
        assert forall|i: int| 0 <= i < cs.len() implies l.fat_read(a, (#[trigger] cs[i]) as int)
            == Ok::<FatEntry, FsError<()>>(FatEntry::Free) by {
            if i > 0 {
                assert(cs[i] == rest[i - 1]);
            }
        }
    }
}

} // verus!
