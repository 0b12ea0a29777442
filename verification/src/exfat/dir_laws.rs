//! What changing a directory does to the volume as a whole: the directory's
//! stream changes as asked, everything the volume relies on still holds, and
//! other directories read as before.

use vstd::prelude::*;

use super::chains::{
    law_set_read_back, law_stream_read, law_stream_written, lemma_stream_byte, lemma_stream_kept,
    lemma_walk_distinct, lemma_walk_kept, members,
};
use super::dir_edit::{end_slot, grown_set};
use super::direntry::{DirExtent, FatEntry, SetLoc};
use super::effects::{
    lemma_touches_more, lemma_touches_nothing, lemma_touches_then, lemma_untouched,
};
use super::growth::{
    lemma_distinct_fit, lemma_grown_effect, lemma_linked_effect, lemma_links_walk, lemma_walk_links,
};
use super::layout::{lemma_unit_sizes, Disk, ExfatLayout};
use crate::bytes::spliced;
use crate::codec::exfat::raw_entry::{law_no_fat_chain_bit, no_fat_chain_bit};
use crate::error::FsError;
use crate::num::ceil_div;

verus! {

impl ExfatLayout {
    /// The volume is laid out soundly and its bitmap protects itself.
    pub open spec fn volume_sound(self, img: Seq<u8>) -> bool {
        &&& self.wf()
        &&& self.regions_apart()
        &&& self.bitmap_guarded(img)
    }

    /// `cs` are the clusters of a directory, all on the device and in use.
    pub open spec fn holds_dir(
        self,
        img: Seq<u8>,
        first: u32,
        no_fat_chain: bool,
        max: int,
        cs: Seq<u32>,
    ) -> bool {
        &&& self.in_heap(first as int)
        &&& self.dir_clusters(img, first, no_fat_chain, max) == Ok::<Seq<u32>, FsError<()>>(cs)
        &&& self.on_device(img, cs)
        &&& self.all_in_use(img, cs)
    }

    /// The directory `ext` consists of clusters in use, and so does its
    /// parent, which shares none of them and holds its entry set.
    pub open spec fn dir_sound(self, img: Seq<u8>, ext: DirExtent) -> bool {
        let cs = self.dir_clusters(
            img,
            ext.first_cluster,
            ext.no_fat_chain,
            ext.max_clusters as int,
        )->Ok_0;
        &&& self.holds_dir(
            img,
            ext.first_cluster,
            ext.no_fat_chain,
            ext.max_clusters as int,
            cs,
        )
        &&& match ext.parent_entry {
            None => !ext.no_fat_chain,
            Some(loc) => self.parent_sound(img, loc, cs),
        }
    }

    /// The directory that holds the entry set at `loc` consists of clusters in
    /// use, none of which is in `cs`.
    pub open spec fn parent_sound(self, img: Seq<u8>, loc: SetLoc, cs: Seq<u32>) -> bool {
        let pcs = self.dir_clusters(
            img,
            loc.dir_first_cluster,
            loc.dir_no_fat_chain,
            loc.dir_max_clusters as int,
        )->Ok_0;
        &&& self.holds_dir(
            img,
            loc.dir_first_cluster,
            loc.dir_no_fat_chain,
            loc.dir_max_clusters as int,
            pcs,
        )
        &&& members(pcs).disjoint(members(cs))
        &&& loc.wf()
        &&& loc.logical + loc.len <= pcs.len() * self.boot.cluster_bytes()
    }

    /// By how many zero bytes a directory stream is lengthened to take a set
    /// of `n` bytes.
    pub open spec fn room_added(self, buf: Seq<u8>, n: int) -> nat {
        let missing = end_slot(buf, 0) + n - buf.len();
        if missing <= 0 {
            0
        } else {
            (ceil_div(missing, self.boot.cluster_bytes()) * self.boot.cluster_bytes()) as nat
        }
    }
}

/// A directory in use is a sound stream.
pub proof fn lemma_dir_stream(
    l: ExfatLayout,
    img: Seq<u8>,
    first: u32,
    no_fat_chain: bool,
    max: int,
    cs: Seq<u32>,
)
    requires
        l.wf(),
        l.holds_dir(img, first, no_fat_chain, max, cs),
    ensures
        l.stream_sound(img, cs),
{
    lemma_walk_distinct(l, img, Some(first), no_fat_chain, max, 0);
    assert forall|i: int| 0 <= i < cs.len() implies l.data_cluster((#[trigger] cs[i]) as int) by {}
}

/// A directory of which nothing was touched stays as it was.
pub proof fn lemma_dir_untouched(
    l: ExfatLayout,
    a: Seq<u8>,
    b: Seq<u8>,
    cells: Set<int>,
    bits: Set<int>,
    clusters: Set<int>,
    first: u32,
    no_fat_chain: bool,
    max: int,
    cs: Seq<u32>,
)
    requires
        l.wf(),
        l.bitmap_guarded(a),
        l.holds_dir(a, first, no_fat_chain, max, cs),
        l.touches_only(a, b, cells, bits, clusters),
        cells.disjoint(members(cs)) || no_fat_chain,
        bits.disjoint(members(cs)),
        clusters.disjoint(members(cs)),
    ensures
        l.holds_dir(b, first, no_fat_chain, max, cs),
        l.stream_of(b, cs) == l.stream_of(a, cs),
{
    assert forall|i: int| 0 <= i < cs.len() implies (no_fat_chain || l.fat_read(
        b,
        (#[trigger] cs[i]) as int,
    ) == l.fat_read(a, cs[i] as int)) && l.allocated(b, cs[i] as int) && l.cluster_data(
        b,
        cs[i] as int,
    ) == l.cluster_data(a, cs[i] as int) by {
        assert(members(cs).contains(cs[i] as int));
        assert(l.data_cluster(cs[i] as int));
        assert(l.has_bit_on(a, cs[i] as int));
        assert(l.cluster_on(a, cs[i] as int));
        lemma_untouched(l, a, b, cells, bits, clusters, cs[i] as int);
    }
    lemma_untouched(l, a, b, cells, bits, clusters, 2);
    lemma_walk_kept(l, a, b, Some(first), no_fat_chain, max, 0);
    lemma_stream_kept(l, a, b, cs);
    assert(l.on_device(b, cs)) by {
        assert forall|k: int| 0 <= k < cs.len() implies l.boot.cluster_pos(
            (#[trigger] cs[k]) as int,
        ) + l.boot.cluster_bytes() <= b.len() by {
            assert(l.boot.cluster_pos(cs[k] as int) + l.boot.cluster_bytes() <= a.len());
        }
    }
}

/// A change that sets bits but clears none leaves the bitmap guarded.
pub proof fn lemma_guard_kept(
    l: ExfatLayout,
    a: Seq<u8>,
    b: Seq<u8>,
    cells: Set<int>,
    bits: Set<int>,
    clusters: Set<int>,
)
    requires
        l.bitmap_guarded(a),
        l.touches_only(a, b, cells, bits, clusters),
        forall|k: int| l.in_heap(k) && bits.contains(k) ==> #[trigger] l.allocated(b, k),
    ensures
        l.bitmap_guarded(b),
{
    lemma_untouched(l, a, b, cells, bits, clusters, 2);
    assert forall|c: int| l.in_heap(c) implies #[trigger] l.has_bit_on(b, c) by {
        assert(l.has_bit_on(a, c));
    }
    assert forall|c: int| l.in_heap(c) && l.holds_bitmap(c) implies #[trigger] l.allocated(b, c) by {
        assert(l.has_bit_on(a, c));
        assert(l.allocated(a, c));
        lemma_untouched(l, a, b, cells, bits, clusters, c);
    }
}

/// The stream of a lengthened directory: the old stream, then the new
/// clusters.
proof fn lemma_stream_joined(l: ExfatLayout, img: Seq<u8>, cs: Seq<u32>, more: Seq<u32>)
    requires
        l.boot.valid_shifts(),
        l.on_device(img, cs),
        l.all_zeroed(img, more),
    ensures
        l.on_device(img, cs + more),
        l.stream_of(img, cs + more) == l.stream_of(img, cs) + Seq::new(
            (more.len() * l.boot.cluster_bytes()) as nat,
            |i: int| 0u8,
        ),
{
    let cb = l.boot.cluster_bytes();
    let all = cs + more;
    lemma_unit_sizes(l.boot);
    assert forall|k: int| 0 <= k < all.len() implies l.boot.cluster_pos((#[trigger] all[k]) as int)
        + cb <= img.len() by {
        if k < cs.len() {
            assert(all[k] == cs[k]);
        } else {
            assert(all[k] == more[k - cs.len()]);
            assert(l.cluster_on(img, more[k - cs.len()] as int));
        }
    }
    let (n, m) = (cs.len() as int, more.len() as int);
    assert(0 <= n * cb && 0 <= m * cb && (n + m) * cb == n * cb + m * cb) by (nonlinear_arith)
        requires
            0 <= n,
            0 <= m,
            0 < cb,
    ;
    let joined = l.stream_of(img, cs) + Seq::new((m * cb) as nat, |i: int| 0u8);
    assert forall|i: int| 0 <= i < (n + m) * cb implies l.stream_of(img, all)[i] == joined[i] by {
        lemma_stream_byte(l, img, all, i);
        let q = i / cb;
        if i < n * cb {
            lemma_stream_byte(l, img, cs, i);
            assert(all[q] == cs[q]);
        } else {
            assert(q >= n) by (nonlinear_arith)
                requires
                    i >= n * cb,
                    0 < cb,
                    q == i / cb,
            ;
            assert(all[q] == more[q - n]);
            assert(l.cluster_data(img, more[q - n] as int)[i % cb] == 0);
        }
    }
    assert(l.stream_of(img, all) =~= joined);
}

/// The disk once a contiguous directory's clusters are linked; one that the FAT
/// links already is left as it is.
pub open spec fn ordered_disk(l: ExfatLayout, d: Disk, cs: Seq<u32>, no_fat_chain: bool) -> Disk {
    if no_fat_chain {
        l.chain_linked(d, cs, 0).disk
    } else {
        d
    }
}

/// The cells that order the old clusters of a directory before it grows.
proof fn lemma_ordered_for_growth(
    l: ExfatLayout,
    d: Disk,
    first: u32,
    no_fat_chain: bool,
    max: int,
    cs: Seq<u32>,
)
    requires
        l.volume_sound(d.img),
        l.holds_dir(d.img, first, no_fat_chain, max, cs),
        cs.len() > 0,
        no_fat_chain ==> l.chain_linked(d, cs, 0).out is Ok,
    ensures
        ({
            let y = ordered_disk(l, d, cs, no_fat_chain).img;
            &&& l.touches_only(d.img, y, members(cs), set![], set![])
            &&& cs[0] == first
            &&& cs.no_duplicates()
            &&& forall|i: int|
                0 <= i < cs.len() - 1 ==> #[trigger] l.fat_read(y, cs[i] as int) == Ok::<
                    FatEntry,
                    FsError<()>,
                >(FatEntry::Next(cs[i + 1]))
        }),
{
    let e = Set::<int>::empty();
    lemma_dir_stream(l, d.img, first, no_fat_chain, max, cs);
    if no_fat_chain {
        super::chains::lemma_walk_contiguous(l, d.img, Some(first), max, 0);
        assert(cs[0] == first);
        assert forall|j: int| 0 <= j < cs.len() implies l.in_heap((#[trigger] cs[j]) as int) by {
            assert(l.data_cluster(cs[j] as int));
        }
        lemma_linked_effect(l, d, cs, 0);
    } else {
        lemma_walk_links(l, d.img, first, max, 0);
        lemma_touches_nothing(l, d.img, members(cs), e, e);
    }
}

/// What a growing directory had before, it keeps.
proof fn lemma_grown_apart(
    l: ExfatLayout,
    x: Seq<u8>,
    y: Seq<u8>,
    z: Seq<u8>,
    cs: Seq<u32>,
    more: Seq<u32>,
)
    requires
        l.bitmap_guarded(x),
        l.bitmap_guarded(y),
        cs.len() > 0,
        cs.no_duplicates(),
        l.on_device(x, cs),
        l.all_in_use(x, cs),
        l.touches_only(x, y, members(cs), set![], set![]),
        l.touches_only(
            y,
            z,
            members(more).insert(cs.last() as int),
            members(more),
            members(more),
        ),
        l.all_free(y, more),
        forall|i: int|
            0 <= i < cs.len() - 1 ==> #[trigger] l.fat_read(y, cs[i] as int) == Ok::<
                FatEntry,
                FsError<()>,
            >(FatEntry::Next(cs[i + 1])),
    ensures
        l.all_free(x, more),
        l.all_in_use(z, cs),
        members(cs).disjoint(members(more)),
        forall|i: int|
            0 <= i < cs.len() ==> l.cluster_data(z, (#[trigger] cs[i]) as int) == l.cluster_data(
                x,
                cs[i] as int,
            ),
        forall|i: int|
            0 <= i < cs.len() - 1 ==> #[trigger] l.fat_read(z, cs[i] as int) == Ok::<
                FatEntry,
                FsError<()>,
            >(FatEntry::Next(cs[i + 1])),
{
    let e = Set::<int>::empty();
    let m = members(more);
    let tail = cs.last();
    assert(tail == cs[cs.len() - 1]);
    lemma_untouched(l, x, y, members(cs), e, e, 2);
    assert forall|i: int| 0 <= i < cs.len() implies l.data_cluster((#[trigger] cs[i]) as int)
        && l.allocated(y, cs[i] as int) && l.cluster_data(y, cs[i] as int) == l.cluster_data(
        x,
        cs[i] as int,
    ) && l.cluster_on(y, cs[i] as int) by {
        let c = cs[i] as int;
        assert(l.has_bit_on(x, c));
        assert(l.cluster_on(x, c));
        lemma_untouched(l, x, y, members(cs), e, e, c);
    }
    assert forall|c: int| !(members(cs).contains(c) && m.contains(c)) by {
        if members(cs).contains(c) && m.contains(c) {
            let i = choose|i: int| 0 <= i < cs.len() && cs[i] == c as u32;
            let j = choose|j: int| 0 <= j < more.len() && more[j] == c as u32;
            assert(l.allocated(y, cs[i] as int));
            assert(!l.allocated(y, more[j] as int));
        }
    }
    assert forall|i: int| 0 <= i < cs.len() implies l.allocated(z, (#[trigger] cs[i]) as int)
        && l.cluster_data(z, cs[i] as int) == l.cluster_data(x, cs[i] as int) by {
        let c = cs[i] as int;
        assert(members(cs).contains(c));
        assert(l.data_cluster(c));
        assert(l.has_bit_on(y, c));
        assert(l.cluster_on(y, c));
        lemma_untouched(l, y, z, m.insert(tail as int), m, m, c);
    }
    assert forall|i: int| 0 <= i < cs.len() - 1 implies #[trigger] l.fat_read(z, cs[i] as int)
        == Ok::<FatEntry, FsError<()>>(FatEntry::Next(cs[i + 1])) by {
        let c = cs[i] as int;
        assert(members(cs).contains(c));
        assert(l.data_cluster(c));
        assert(cs[i] != cs[cs.len() - 1]);
        lemma_untouched(l, y, z, m.insert(tail as int), m, m, c);
    }
    assert forall|i: int| 0 <= i < more.len() implies l.data_cluster((#[trigger] more[i]) as int)
        && !l.allocated(x, more[i] as int) by {
        assert(l.data_cluster(more[i] as int));
        assert(l.has_bit_on(x, more[i] as int));
        lemma_untouched(l, x, y, members(cs), e, e, more[i] as int);
    }
}

/// Two linked lists, the second behind the first, are walked as one.
proof fn lemma_joined_walk(l: ExfatLayout, z: Seq<u8>, cs: Seq<u32>, more: Seq<u32>, any: int)
    requires
        cs.len() > 0,
        more.len() > 0,
        cs.no_duplicates(),
        more.no_duplicates(),
        l.all_in_use(z, cs),
        l.all_in_use(z, more),
        members(cs).disjoint(members(more)),
        forall|i: int|
            0 <= i < cs.len() - 1 ==> #[trigger] l.fat_read(z, cs[i] as int) == Ok::<
                FatEntry,
                FsError<()>,
            >(FatEntry::Next(cs[i + 1])),
        l.linked_in_order(z, seq![cs.last()] + more),
    ensures
        l.all_in_use(z, cs + more),
        l.dir_walk(z, Some(cs[0]), false, any, 0) == Ok::<Seq<u32>, FsError<()>>(cs + more),
{
    let all = cs + more;
    let k = cs.len() as int;
    let end = seq![cs.last()] + more;
    assert forall|i: int| 0 <= i < k implies #[trigger] all[i] == cs[i] by {}
    assert forall|i: int| k <= i < all.len() implies #[trigger] all[i] == more[i - k] by {}
    assert forall|i: int| 0 <= i < all.len() implies l.data_cluster((#[trigger] all[i]) as int)
        && l.allocated(z, all[i] as int) by {
        if i < k {
            assert(l.data_cluster(cs[i] as int));
        } else {
            assert(l.data_cluster(more[i - k] as int));
        }
    }
    assert forall|i: int, j: int| 0 <= i < all.len() && 0 <= j < all.len() && i != j implies all[i]
        != all[j] by {
        if i < k && j >= k {
            assert(members(cs).contains(cs[i] as int));
            assert(members(more).contains(more[j - k] as int));
        } else if i >= k && j < k {
            assert(members(cs).contains(cs[j] as int));
            assert(members(more).contains(more[i - k] as int));
        }
    }
    assert(end[0] == cs[k - 1]);
    assert forall|i: int| 0 <= i < all.len() - 1 implies #[trigger] l.fat_read(z, all[i] as int)
        == Ok::<FatEntry, FsError<()>>(FatEntry::Next(all[i + 1])) by {
        if i < k - 1 {
            assert(all[i + 1] == cs[i + 1]);
        } else {
            let j = i - (k - 1);
            assert(all[i] == end[j]);
            assert(all[i + 1] == end[j + 1]);
            assert(l.fat_read(z, end[j] as int) == Ok::<FatEntry, FsError<()>>(
                FatEntry::Next(end[j + 1]),
            ));
        }
    }
    assert(all.last() == end.last());
    assert forall|i: int| 0 <= i < all.len() implies l.in_heap((#[trigger] all[i]) as int) by {
        assert(l.data_cluster(all[i] as int));
    }
    lemma_distinct_fit(l, all);
    lemma_links_walk(l, z, all, any, 0);
}

/// Growing a directory by whole clusters lengthens its stream by zeros and
/// keeps all else; the directory is a FAT chain afterwards.
proof fn lemma_dir_extended(
    l: ExfatLayout,
    d: Disk,
    first: u32,
    no_fat_chain: bool,
    max: int,
    cs: Seq<u32>,
    n: int,
    any: int,
)
    requires
        l.volume_sound(d.img),
        l.holds_dir(d.img, first, no_fat_chain, max, cs),
        cs.len() > 0,
        n > 0,
        no_fat_chain ==> l.chain_linked(d, cs, 0).out is Ok,
        l.dir_grown(ordered_disk(l, d, cs, no_fat_chain), cs.last(), n).out is Ok,
    ensures
        ({
            let grown = l.dir_grown(ordered_disk(l, d, cs, no_fat_chain), cs.last(), n);
            let z = grown.disk.img;
            let more = grown.out->Ok_0;
            let all = cs + more;
            &&& more.len() == n
            &&& l.touches_only(d.img, z, members(all), members(more), members(more))
            &&& l.all_free(d.img, more)
            &&& l.holds_dir(z, first, false, any, all)
            &&& l.stream_of(z, all) == l.stream_of(d.img, cs) + Seq::new(
                (n * l.boot.cluster_bytes()) as nat,
                |i: int| 0u8,
            )
            &&& l.bitmap_guarded(z)
        }),
{
    let e = Set::<int>::empty();
    let x = d.img;
    let dy = ordered_disk(l, d, cs, no_fat_chain);
    let y = dy.img;
    lemma_ordered_for_growth(l, d, first, no_fat_chain, max, cs);
    lemma_guard_kept(l, x, y, members(cs), e, e);
    let tail = cs.last();
    assert(tail == cs[cs.len() - 1]);
    assert(l.data_cluster(tail as int));
    assert(l.has_bit_on(x, tail as int));
    lemma_untouched(l, x, y, members(cs), e, e, tail as int);
    lemma_grown_effect(l, dy, tail, n);
    let z = l.dir_grown(dy, tail, n).disk.img;
    let more = l.dir_grown(dy, tail, n).out->Ok_0;
    lemma_grown_apart(l, x, y, z, cs, more);
    lemma_joined_walk(l, z, cs, more, any);
    lemma_grown_stream(l, x, y, z, cs, more);
    lemma_grown_touches(l, x, y, z, cs, more);
}

/// The clusters of a grown directory are on the device, and its old stream is
/// as it was.
proof fn lemma_grown_stream(
    l: ExfatLayout,
    x: Seq<u8>,
    y: Seq<u8>,
    z: Seq<u8>,
    cs: Seq<u32>,
    more: Seq<u32>,
)
    requires
        l.wf(),
        cs.len() > 0,
        l.on_device(x, cs),
        l.all_zeroed(z, more),
        l.touches_only(x, y, members(cs), set![], set![]),
        l.touches_only(
            y,
            z,
            members(more).insert(cs.last() as int),
            members(more),
            members(more),
        ),
        forall|i: int|
            0 <= i < cs.len() ==> l.cluster_data(z, (#[trigger] cs[i]) as int) == l.cluster_data(
                x,
                cs[i] as int,
            ),
    ensures
        l.on_device(z, cs + more),
        l.stream_of(z, cs + more) == l.stream_of(x, cs) + Seq::new(
            (more.len() * l.boot.cluster_bytes()) as nat,
            |i: int| 0u8,
        ),
{
    let e = Set::<int>::empty();
    let m = members(more);
    lemma_untouched(l, x, y, members(cs), e, e, 2);
    lemma_untouched(l, y, z, m.insert(cs.last() as int), m, m, 2);
    assert(l.on_device(z, cs)) by {
        assert forall|k: int| 0 <= k < cs.len() implies l.boot.cluster_pos(
            (#[trigger] cs[k]) as int,
        ) + l.boot.cluster_bytes() <= z.len() by {
            assert(l.boot.cluster_pos(cs[k] as int) + l.boot.cluster_bytes() <= x.len());
        }
    }
    lemma_stream_kept(l, x, z, cs);
    lemma_stream_joined(l, z, cs, more);
}

/// What growing a directory touches in all.
proof fn lemma_grown_touches(
    l: ExfatLayout,
    x: Seq<u8>,
    y: Seq<u8>,
    z: Seq<u8>,
    cs: Seq<u32>,
    more: Seq<u32>,
)
    requires
        cs.len() > 0,
        l.touches_only(x, y, members(cs), set![], set![]),
        l.touches_only(
            y,
            z,
            members(more).insert(cs.last() as int),
            members(more),
            members(more),
        ),
    ensures
        l.touches_only(x, z, members(cs + more), members(more), members(more)),
{
    let e = Set::<int>::empty();
    let (all, m) = (members(cs + more), members(more));
    let cells = m.insert(cs.last() as int);
    lemma_members_joined(cs, more);
    assert(cs.last() == cs[cs.len() - 1]);
    assert(members(cs).contains(cs.last() as int));
    assert(cells.subset_of(all));
    lemma_touches_more(l, x, y, members(cs), e, e, all, m, m);
    lemma_touches_more(l, y, z, cells, m, m, all, m, m);
    lemma_touches_then(l, x, y, z, all, m, m);
}

/// The members of two lists joined.
pub proof fn lemma_members_joined(a: Seq<u32>, b: Seq<u32>)
    ensures
        members(a + b) == members(a).union(members(b)),
{
    let all = a + b;
    assert forall|c: int| members(all).contains(c) <==> members(a).union(members(b)).contains(c) by {
        if members(all).contains(c) {
            let i = choose|i: int| 0 <= i < all.len() && all[i] == c as u32;
            if i < a.len() {
                assert(a[i] == c as u32);
            } else {
                assert(b[i - a.len()] == c as u32);
            }
        }
        if members(a).contains(c) {
            let i = choose|i: int| 0 <= i < a.len() && a[i] == c as u32;
            assert(all[i] == c as u32);
        }
        if members(b).contains(c) {
            let i = choose|i: int| 0 <= i < b.len() && b[i] == c as u32;
            assert(all[i + a.len()] == c as u32);
        }
    }
    assert(members(all) =~= members(a).union(members(b)));
}

/// An entry set in a directory of which nothing was touched reads as before.
pub proof fn lemma_set_kept(
    l: ExfatLayout,
    a: Seq<u8>,
    b: Seq<u8>,
    cells: Set<int>,
    bits: Set<int>,
    clusters: Set<int>,
    loc: SetLoc,
    cs: Seq<u32>,
)
    requires
        l.wf(),
        l.bitmap_guarded(a),
        l.parent_sound(a, loc, cs),
        l.touches_only(a, b, cells, bits, clusters),
        ({
            let pcs = l.dir_clusters(
                a,
                loc.dir_first_cluster,
                loc.dir_no_fat_chain,
                loc.dir_max_clusters as int,
            )->Ok_0;
            &&& cells.disjoint(members(pcs))
            &&& bits.disjoint(members(pcs))
            &&& clusters.disjoint(members(pcs))
        }),
    ensures
        l.parent_sound(b, loc, cs),
        l.dir_clusters(
            b,
            loc.dir_first_cluster,
            loc.dir_no_fat_chain,
            loc.dir_max_clusters as int,
        ) == l.dir_clusters(
            a,
            loc.dir_first_cluster,
            loc.dir_no_fat_chain,
            loc.dir_max_clusters as int,
        ),
        l.set_read(b, loc) == l.set_read(a, loc),
        l.set_read(a, loc) matches Ok(set) && set.len() == loc.len,
{
    let (first, nfc, max) = (
        loc.dir_first_cluster,
        loc.dir_no_fat_chain,
        loc.dir_max_clusters as int,
    );
    let pcs = l.dir_clusters(a, first, nfc, max)->Ok_0;
    lemma_dir_untouched(l, a, b, cells, bits, clusters, first, nfc, max, pcs);
    law_stream_read(l, a, pcs, loc.logical as int, loc.len as int);
    law_stream_read(l, b, pcs, loc.logical as int, loc.len as int);
}

/// Appending where the set fits: the stream changes in place.
proof fn lemma_append_fits(l: ExfatLayout, d: Disk, ext: DirExtent, set: Seq<u8>)
    requires
        l.volume_sound(d.img),
        l.dir_sound(d.img, ext),
        l.refreshed(d.img, ext) == ext,
        ({
            let cs = l.dir_clusters(
                d.img,
                ext.first_cluster,
                ext.no_fat_chain,
                ext.max_clusters as int,
            )->Ok_0;
            let buf = l.stream_of(d.img, cs);
            end_slot(buf, 0) + set.len() <= buf.len()
        }),
    ensures
        appended(l, d, ext, set),
{
    let e = Set::<int>::empty();
    let cs = l.dir_clusters(
        d.img,
        ext.first_cluster,
        ext.no_fat_chain,
        ext.max_clusters as int,
    )->Ok_0;
    let buf = l.stream_of(d.img, cs);
    let end = end_slot(buf, 0);
    lemma_unit_sizes(l.boot);
    lemma_dir_stream(
        l,
        d.img,
        ext.first_cluster,
        ext.no_fat_chain,
        ext.max_clusters as int,
        cs,
    );
    super::dir_edit::lemma_end_slot_bounds(buf, 0);
    assert(buf.len() == cs.len() * l.boot.cluster_bytes()) by {
        let (n, cb) = (cs.len() as int, l.boot.cluster_bytes());
        assert(0 <= n * cb) by (nonlinear_arith)
            requires
                0 <= n,
                0 < cb,
        ;
    }
    law_stream_written(l, d, cs, end, set);
    let a = l.stream_written(d, cs, end, set).disk.img;
    lemma_guard_kept(l, d.img, a, e, e, members(cs));
    lemma_stream_dir_kept(
        l,
        d.img,
        a,
        ext.first_cluster,
        ext.no_fat_chain,
        ext.max_clusters as int,
        cs,
    );
    if let Some(loc) = ext.parent_entry {
        lemma_set_kept(l, d.img, a, e, e, members(cs), loc, cs);
    }
    assert(buf + Seq::new(0, |i: int| 0u8) =~= buf);
}

/// A directory of which only the bytes were touched has the same clusters.
pub proof fn lemma_stream_dir_kept(
    l: ExfatLayout,
    a: Seq<u8>,
    b: Seq<u8>,
    first: u32,
    no_fat_chain: bool,
    max: int,
    cs: Seq<u32>,
)
    requires
        l.wf(),
        l.bitmap_guarded(a),
        l.holds_dir(a, first, no_fat_chain, max, cs),
        l.touches_only(a, b, set![], set![], members(cs)),
    ensures
        l.holds_dir(b, first, no_fat_chain, max, cs),
{
    let e = Set::<int>::empty();
    assert forall|i: int| 0 <= i < cs.len() implies l.fat_read(b, (#[trigger] cs[i]) as int)
        == l.fat_read(a, cs[i] as int) && l.allocated(b, cs[i] as int) by {
        assert(l.data_cluster(cs[i] as int));
        assert(l.has_bit_on(a, cs[i] as int));
        lemma_untouched(l, a, b, e, e, members(cs), cs[i] as int);
    }
    lemma_untouched(l, a, b, e, e, members(cs), 2);
    lemma_walk_kept(l, a, b, Some(first), no_fat_chain, max, 0);
    assert forall|k: int| 0 <= k < cs.len() implies l.boot.cluster_pos((#[trigger] cs[k]) as int)
        + l.boot.cluster_bytes() <= b.len() by {
        assert(l.boot.cluster_pos(cs[k] as int) + l.boot.cluster_bytes() <= a.len());
    }
}

/// After growth is recorded the entry set says that the directory is chained.
proof fn lemma_grown_set_chained(set: Seq<u8>, added: int)
    requires
        set.len() >= 64,
    ensures
        grown_set(set, added).len() == set.len(),
        grown_set(set, added)[32] == set[32],
        !no_fat_chain_bit(grown_set(set, added)[33]),
{
    law_no_fat_chain_bit(set[33], false);
}

/// Appending where the directory grows, up to the set being written.
pub proof fn lemma_append_grown(l: ExfatLayout, d: Disk, ext: DirExtent, cs: Seq<u32>, set: Seq<u8>, n: int)
    requires
        l.volume_sound(d.img),
        l.dir_sound(d.img, ext),
        l.dir_clusters(d.img, ext.first_cluster, ext.no_fat_chain, ext.max_clusters as int) == Ok::<
            Seq<u32>,
            FsError<()>,
        >(cs),
        cs.len() > 0,
        n > 0,
        l.stream_of(d.img, cs).len() < end_slot(l.stream_of(d.img, cs), 0) + set.len()
            <= l.stream_of(d.img, cs).len() + n * l.boot.cluster_bytes(),
        ext.no_fat_chain ==> l.chain_linked(d, cs, 0).out is Ok,
        l.dir_grown(grow_from(l, d, ext, cs), cs.last(), n).out is Ok,
    ensures
        ({
            let grown = l.dir_grown(grow_from(l, d, ext, cs), cs.last(), n);
            let more = grown.out->Ok_0;
            let buf = l.stream_of(d.img, cs);
            let end = end_slot(buf, 0);
            let w = l.stream_written(grown.disk, cs + more, end, set);
            let v = w.disk.img;
            let m = members(cs).union(members(more));
            &&& w.out is Ok
            &&& l.all_free(d.img, more)
            &&& l.touches_only(d.img, v, m, members(more), m)
            &&& l.bitmap_guarded(v)
            &&& l.holds_dir(v, ext.first_cluster, false, 0, cs + more)
            &&& l.stream_of(v, cs + more) == spliced(
                buf + Seq::new((n * l.boot.cluster_bytes()) as nat, |i: int| 0u8),
                end,
                set,
            )
        }),
{
    let e = Set::<int>::empty();
    let (first, nfc, max) = (ext.first_cluster, ext.no_fat_chain, ext.max_clusters as int);
    lemma_dir_extended(l, d, first, nfc, max, cs, n, 0);
    let grown = l.dir_grown(grow_from(l, d, ext, cs), cs.last(), n);
    let more = grown.out->Ok_0;
    let all = cs + more;
    let z = grown.disk.img;
    let buf = l.stream_of(d.img, cs);
    let end = end_slot(buf, 0);
    lemma_dir_stream(l, z, first, false, 0, all);
    super::dir_edit::lemma_end_slot_bounds(buf, 0);
    lemma_unit_sizes(l.boot);
    let (k, cb) = (cs.len() as int, l.boot.cluster_bytes());
    assert((k + n) * cb == k * cb + n * cb && 0 <= k * cb && 0 <= n * cb) by (nonlinear_arith)
        requires
            0 <= k,
            0 <= n,
            0 < cb,
    ;
    law_stream_written(l, grown.disk, all, end, set);
    let v = l.stream_written(grown.disk, all, end, set).disk.img;
    lemma_guard_kept(l, z, v, e, e, members(all));
    lemma_stream_dir_kept(l, z, v, first, false, 0, all);
    lemma_members_joined(cs, more);
    let m = members(cs).union(members(more));
    lemma_touches_more(l, d.img, z, members(all), members(more), members(more), m, members(more), m);
    lemma_touches_more(l, z, v, e, e, members(all), m, members(more), m);
    lemma_touches_then(l, d.img, z, v, m, members(more), m);
}

/// Free clusters and clusters in use are different.
pub proof fn lemma_free_apart(l: ExfatLayout, img: Seq<u8>, free: Seq<u32>, used: Seq<u32>)
    requires
        l.all_free(img, free),
        l.all_in_use(img, used),
    ensures
        members(free).disjoint(members(used)),
{
    assert forall|c: int| !(members(free).contains(c) && members(used).contains(c)) by {
        if members(free).contains(c) && members(used).contains(c) {
            let i = choose|i: int| 0 <= i < free.len() && free[i] == c as u32;
            let j = choose|j: int| 0 <= j < used.len() && used[j] == c as u32;
            assert(!l.allocated(img, free[i] as int));
            assert(l.allocated(img, used[j] as int));
        }
    }
}

/// The disk on which a directory starts to grow.
pub open spec fn grow_from(l: ExfatLayout, d: Disk, ext: DirExtent, cs: Seq<u32>) -> Disk {
    if ext.no_fat_chain {
        l.chain_linked(d, cs, 0).disk
    } else {
        d
    }
}

/// A chain walk does not depend on a limit.
proof fn lemma_walk_any_limit(
    l: ExfatLayout,
    img: Seq<u8>,
    cur: Option<u32>,
    max: int,
    any: int,
    walked: int,
)
    ensures
        l.dir_walk(img, cur, false, max, walked) == l.dir_walk(img, cur, false, any, walked),
    decreases l.boot.cluster_count - walked,
{
    if let Some(c) = cur {
        if walked < l.boot.cluster_count {
            if let Ok(next) = l.successor(img, c as int, false) {
                lemma_walk_any_limit(l, img, next, max, any, walked + 1);
            }
        }
    }
}

/// Recording growth in the parent: the parent's bytes change, nothing else,
/// and the entry then says that the directory is chained.
pub proof fn lemma_growth_recorded(
    l: ExfatLayout,
    d: Disk,
    loc: SetLoc,
    cs: Seq<u32>,
    pcs: Seq<u32>,
    added: int,
)
    requires
        l.volume_sound(d.img),
        l.parent_sound(d.img, loc, cs),
        l.dir_clusters(
            d.img,
            loc.dir_first_cluster,
            loc.dir_no_fat_chain,
            loc.dir_max_clusters as int,
        ) == Ok::<Seq<u32>, FsError<()>>(pcs),
        l.growth_recorded(d, loc, added).out is Ok,
    ensures
        ({
            let u = l.growth_recorded(d, loc, added).disk.img;
            &&& l.touches_only(d.img, u, set![], set![], members(pcs))
            &&& l.bitmap_guarded(u)
            &&& l.parent_sound(u, loc, cs)
            &&& l.stream_now(u, loc) matches Some((_, contiguous)) && !contiguous
        }),
{
    let e = Set::<int>::empty();
    let (first, nfc, max) = (
        loc.dir_first_cluster,
        loc.dir_no_fat_chain,
        loc.dir_max_clusters as int,
    );
    lemma_dir_stream(l, d.img, first, nfc, max, pcs);
    law_stream_read(l, d.img, pcs, loc.logical as int, loc.len as int);
    let old = l.set_read(d.img, loc)->Ok_0;
    assert(old.len() == loc.len);
    lemma_grown_set_chained(old, added);
    law_set_read_back(l, d, loc, grown_set(old, added));
    law_stream_written(l, d, pcs, loc.logical as int, grown_set(old, added));
    let u = l.growth_recorded(d, loc, added).disk.img;
    lemma_guard_kept(l, d.img, u, e, e, members(pcs));
    lemma_stream_dir_kept(l, d.img, u, first, nfc, max, pcs);
}

/// By how many clusters a directory grows to take a set of `n` bytes.
pub open spec fn clusters_added(l: ExfatLayout, buf: Seq<u8>, n: int) -> int {
    ceil_div(end_slot(buf, 0) + n - buf.len(), l.boot.cluster_bytes())
}

/// The steps of an append that grows the directory.
pub proof fn lemma_append_steps(l: ExfatLayout, d: Disk, ext: DirExtent, cs: Seq<u32>, set: Seq<u8>)
    requires
        l.set_appended(d, ext, set).out is Ok,
        l.dir_clusters(d.img, ext.first_cluster, ext.no_fat_chain, ext.max_clusters as int) == Ok::<
            Seq<u32>,
            FsError<()>,
        >(cs),
        l.on_device(d.img, cs),
        end_slot(l.stream_of(d.img, cs), 0) + set.len() > l.stream_of(d.img, cs).len(),
    ensures
        ({
            let buf = l.stream_of(d.img, cs);
            let n = clusters_added(l, buf, set.len() as int);
            let grown = l.dir_grown(grow_from(l, d, ext, cs), cs.last(), n);
            let w = l.stream_written(grown.disk, cs + grown.out->Ok_0, end_slot(buf, 0), set);
            &&& cs.len() > 0
            &&& ext.no_fat_chain ==> l.chain_linked(d, cs, 0).out is Ok
            &&& grown.out is Ok
            &&& w.out is Ok
            &&& match ext.parent_entry {
                None => l.set_appended(d, ext, set) == w,
                Some(loc) => l.set_appended(d, ext, set) == l.growth_recorded(
                    w.disk,
                    loc,
                    n * l.boot.cluster_bytes(),
                ),
            }
        }),
{
}

/// A whole number of clusters takes what is missing.
pub proof fn lemma_clusters_added(l: ExfatLayout, buf: Seq<u8>, n: int)
    requires
        l.boot.valid_shifts(),
        end_slot(buf, 0) + n > buf.len(),
    ensures
        clusters_added(l, buf, n) > 0,
        end_slot(buf, 0) + n <= buf.len() + clusters_added(l, buf, n) * l.boot.cluster_bytes(),
        l.room_added(buf, n) == clusters_added(l, buf, n) * l.boot.cluster_bytes(),
{
    lemma_unit_sizes(l.boot);
    let cb = l.boot.cluster_bytes();
    let missing = end_slot(buf, 0) + n - buf.len();
    let k = clusters_added(l, buf, n);
    assert(k > 0 && missing <= k * cb) by (nonlinear_arith)
        requires
            k == (missing + cb - 1) / cb,
            missing > 0,
            cb > 0,
    ;
}

/// Appending to the root directory where it has to grow.
proof fn lemma_append_grows_root(
    l: ExfatLayout,
    d: Disk,
    ext: DirExtent,
    cs: Seq<u32>,
    set: Seq<u8>,
)
    requires
        l.volume_sound(d.img),
        l.dir_sound(d.img, ext),
        ext.parent_entry is None,
        l.set_appended(d, ext, set).out is Ok,
        l.dir_clusters(d.img, ext.first_cluster, ext.no_fat_chain, ext.max_clusters as int) == Ok::<
            Seq<u32>,
            FsError<()>,
        >(cs),
        end_slot(l.stream_of(d.img, cs), 0) + set.len() > l.stream_of(d.img, cs).len(),
    ensures
        appended(l, d, ext, set),
{
    let buf = l.stream_of(d.img, cs);
    lemma_append_steps(l, d, ext, cs, set);
    lemma_clusters_added(l, buf, set.len() as int);
    let n = clusters_added(l, buf, set.len() as int);
    lemma_append_grown(l, d, ext, cs, set, n);
    let a = l.set_appended(d, ext, set).disk.img;
    lemma_walk_any_limit(l, a, Some(ext.first_cluster), 0, ext.max_clusters as int, 0);
    assert(l.refreshed(a, ext) == ext);
}

/// A sub-directory found chained after the append is the directory that its
/// brought-up-to-date parameters walk.
proof fn lemma_appended_nested(
    l: ExfatLayout,
    d: Disk,
    ext: DirExtent,
    set: Seq<u8>,
    loc: SetLoc,
    cs: Seq<u32>,
    all: Seq<u32>,
    a: Seq<u8>,
)
    requires
        a == l.set_appended(d, ext, set).disk.img,
        ext.parent_entry == Some(loc),
        l.dir_clusters(d.img, ext.first_cluster, ext.no_fat_chain, ext.max_clusters as int) == Ok::<
            Seq<u32>,
            FsError<()>,
        >(cs),
        l.on_device(d.img, cs),
        l.volume_sound(a),
        l.holds_dir(a, ext.first_cluster, false, 0, all),
        l.parent_sound(a, loc, all),
        l.stream_now(a, loc) matches Some((_, contiguous)) && !contiguous,
        ({
            let buf = l.stream_of(d.img, cs);
            l.stream_of(a, all) == spliced(
                buf + Seq::new(l.room_added(buf, set.len() as int), |i: int| 0u8),
                end_slot(buf, 0),
                set,
            )
        }),
    ensures
        appended(l, d, ext, set),
{
    let now = l.refreshed(a, ext);
    assert(!now.no_fat_chain);
    lemma_walk_any_limit(l, a, Some(ext.first_cluster), 0, now.max_clusters as int, 0);
    assert(l.dir_clusters(a, now.first_cluster, now.no_fat_chain, now.max_clusters as int) == Ok::<
        Seq<u32>,
        FsError<()>,
    >(all));
    assert(l.dir_sound(a, now));
}

/// Appending to a sub-directory where it has to grow.
proof fn lemma_append_grows_nested(
    l: ExfatLayout,
    d: Disk,
    ext: DirExtent,
    cs: Seq<u32>,
    set: Seq<u8>,
    loc: SetLoc,
    pcs: Seq<u32>,
)
    requires
        l.volume_sound(d.img),
        l.dir_sound(d.img, ext),
        ext.parent_entry == Some(loc),
        l.set_appended(d, ext, set).out is Ok,
        l.dir_clusters(d.img, ext.first_cluster, ext.no_fat_chain, ext.max_clusters as int) == Ok::<
            Seq<u32>,
            FsError<()>,
        >(cs),
        l.dir_clusters(
            d.img,
            loc.dir_first_cluster,
            loc.dir_no_fat_chain,
            loc.dir_max_clusters as int,
        ) == Ok::<Seq<u32>, FsError<()>>(pcs),
        end_slot(l.stream_of(d.img, cs), 0) + set.len() > l.stream_of(d.img, cs).len(),
    ensures
        appended(l, d, ext, set),
{
    let buf = l.stream_of(d.img, cs);
    lemma_append_steps(l, d, ext, cs, set);
    lemma_clusters_added(l, buf, set.len() as int);
    let n = clusters_added(l, buf, set.len() as int);
    lemma_append_grown(l, d, ext, cs, set, n);
    let grown = l.dir_grown(grow_from(l, d, ext, cs), cs.last(), n);
    let more = grown.out->Ok_0;
    let w = l.stream_written(grown.disk, cs + more, end_slot(buf, 0), set);
    lemma_recorded_after(l, d.img, w.disk, ext, cs, more, loc, pcs, n * l.boot.cluster_bytes());
    let a = l.growth_recorded(w.disk, loc, n * l.boot.cluster_bytes()).disk.img;
    lemma_appended_nested(l, d, ext, set, loc, cs, cs + more, a);
}

/// Recording the growth of a sub-directory leaves the sub-directory as it is.
proof fn lemma_recorded_after(
    l: ExfatLayout,
    x: Seq<u8>,
    d: Disk,
    ext: DirExtent,
    cs: Seq<u32>,
    more: Seq<u32>,
    loc: SetLoc,
    pcs: Seq<u32>,
    added: int,
)
    requires
        l.volume_sound(x),
        l.all_free(x, more),
        l.touches_only(
            x,
            d.img,
            members(cs).union(members(more)),
            members(more),
            members(cs).union(members(more)),
        ),
        l.parent_sound(x, loc, cs),
        l.dir_clusters(
            x,
            loc.dir_first_cluster,
            loc.dir_no_fat_chain,
            loc.dir_max_clusters as int,
        ) == Ok::<Seq<u32>, FsError<()>>(pcs),
        l.bitmap_guarded(d.img),
        l.holds_dir(d.img, ext.first_cluster, false, 0, cs + more),
        l.growth_recorded(d, loc, added).out is Ok,
    ensures
        ({
            let a = l.growth_recorded(d, loc, added).disk.img;
            &&& l.volume_sound(a)
            &&& l.holds_dir(a, ext.first_cluster, false, 0, cs + more)
            &&& l.stream_of(a, cs + more) == l.stream_of(d.img, cs + more)
            &&& l.parent_sound(a, loc, cs + more)
            &&& l.stream_now(a, loc) matches Some((_, contiguous)) && !contiguous
        }),
{
    let e = Set::<int>::empty();
    let m = members(cs).union(members(more));
    lemma_free_apart(l, x, more, pcs);
    assert(m.disjoint(members(pcs)));
    lemma_set_kept(l, x, d.img, m, members(more), m, loc, cs);
    lemma_growth_recorded(l, d, loc, cs, pcs, added);
    let a = l.growth_recorded(d, loc, added).disk.img;
    lemma_members_joined(cs, more);
    lemma_dir_untouched(l, d.img, a, e, e, members(pcs), ext.first_cluster, false, 0, cs + more);
    lemma_stream_dir_kept(
        l,
        d.img,
        a,
        loc.dir_first_cluster,
        loc.dir_no_fat_chain,
        loc.dir_max_clusters as int,
        pcs,
    );
}

/// Appending an entry set to a directory, growing it where needed, keeps the
/// volume and the directory sound and puts the set at the end of the
/// directory's stream.
pub proof fn law_append_to_directory(l: ExfatLayout, d: Disk, ext: DirExtent, set: Seq<u8>)
    requires
        l.volume_sound(d.img),
        l.dir_sound(d.img, ext),
        l.refreshed(d.img, ext) == ext,
        l.set_appended(d, ext, set).out is Ok,
    ensures
        appended(l, d, ext, set),
{
    let cs = l.dir_clusters(
        d.img,
        ext.first_cluster,
        ext.no_fat_chain,
        ext.max_clusters as int,
    )->Ok_0;
    if end_slot(l.stream_of(d.img, cs), 0) + set.len() <= l.stream_of(d.img, cs).len() {
        lemma_append_fits(l, d, ext, set);
    } else {
        match ext.parent_entry {
            None => {
                lemma_append_grows_root(l, d, ext, cs, set);
            },
            Some(loc) => {
                let pcs = l.dir_clusters(
                    d.img,
                    loc.dir_first_cluster,
                    loc.dir_no_fat_chain,
                    loc.dir_max_clusters as int,
                )->Ok_0;
                lemma_append_grows_nested(l, d, ext, cs, set, loc, pcs);
            },
        }
    }
}

/// What appending `set` to the directory `ext` leaves: a sound volume, the
/// directory sound with its walk parameters brought up to date, and its
/// stream, lengthened where needed, with the set at the old end.
pub open spec fn appended(l: ExfatLayout, d: Disk, ext: DirExtent, set: Seq<u8>) -> bool {
    let a = l.set_appended(d, ext, set).disk.img;
    let now = l.refreshed(a, ext);
    let buf = l.dir_read(
        d.img,
        ext.first_cluster,
        ext.no_fat_chain,
        ext.max_clusters as int,
    )->Ok_0.1;
    let long = buf + Seq::new(l.room_added(buf, set.len() as int), |i: int| 0u8);
    &&& l.volume_sound(a)
    &&& l.dir_sound(a, now)
    &&& l.refreshed(a, now) == now
    &&& ext.parent_entry matches Some(loc) ==> l.stream_now(d.img, loc) is Some ==> l.stream_now(
        a,
        loc,
    ) is Some
    &&& l.dir_read(
        a,
        now.first_cluster,
        now.no_fat_chain,
        now.max_clusters as int,
    ) matches Ok((cs, new)) && new == spliced(long, end_slot(buf, 0), set)
}

} // verus!
