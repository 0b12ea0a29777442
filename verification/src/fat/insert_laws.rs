//! Finding room for an entry: the run of free slots that is found, and how a
//! directory made of clusters grows.

use vstd::prelude::*;

use super::alloc_laws::{law_allocated, link_cell};
use super::dir_laws::{lemma_place_apart, lemma_places_walked, lemma_slot_cluster, lemma_slot_units};
use super::dir_slots::{FatDir, SlotPos, SLOT_END};
use super::effects::{
    lemma_touches_more, lemma_touches_nothing, lemma_touches_then, lemma_untouched,
    lemma_zeroed_effect, members, span,
};
use super::entry_io::slot_free;
use super::layout::{FatDisk, FatLayout};
use super::regions::lemma_cluster_places;
use super::slot_laws::{clean_end, goes_on, is_free};
use crate::codec::fat::fat_entry::FatEntry;
use crate::error::FsError;

verus! {

/// The state of a search for free slots at slot `k`: the run in progress is
/// made of the `len` free slots before `k`, and starts no later than the end
/// of the directory.
#[verifier::opaque]
pub open spec fn run_before(
    ps: Seq<SlotPos>,
    ss: Seq<Seq<u8>>,
    k: int,
    start: Option<SlotPos>,
    len: int,
) -> bool {
    &&& 0 <= len <= k <= ss.len()
    &&& start == (if len == 0 {
        None
    } else {
        Some(ps[k - len])
    })
    &&& forall|j: int| k - len <= j < k ==> is_free(#[trigger] ss[j])
    &&& forall|j: int| 0 <= j < k && (#[trigger] ss[j])[0] == SLOT_END ==> k - len <= j
}

/// Looking at slot `k` carries the run on or breaks it.
proof fn lemma_run_step(
    ps: Seq<SlotPos>,
    ss: Seq<Seq<u8>>,
    k: int,
    start: Option<SlotPos>,
    len: int,
)
    requires
        run_before(ps, ss, k, start, len),
        clean_end(ss),
        k < ss.len(),
    ensures
        is_free(ss[k]) ==> run_before(
            ps,
            ss,
            k + 1,
            if start is None {
                Some(ps[k])
            } else {
                start
            },
            len + 1,
        ),
        !is_free(ss[k]) ==> run_before(ps, ss, k + 1, None, 0),
{
    reveal(run_before);
    if !is_free(ss[k]) {
        assert forall|j: int| 0 <= j < k implies (#[trigger] ss[j])[0] != SLOT_END by {
            if ss[j][0] == SLOT_END {
                assert(ss[k][0] == SLOT_END);
            }
        }
    }
}

/// What the run in progress says.
proof fn lemma_run_facts(
    ps: Seq<SlotPos>,
    ss: Seq<Seq<u8>>,
    k: int,
    start: Option<SlotPos>,
    len: int,
)
    requires
        run_before(ps, ss, k, start, len),
    ensures
        0 <= len <= k <= ss.len(),
        start == (if len == 0 {
            None
        } else {
            Some(ps[k - len])
        }),
        forall|j: int| k - len <= j < k ==> is_free(#[trigger] ss[j]),
        goes_on(ss, 0, k - len),
{
    reveal(run_before);
}

/// What a search for free slots finds: a long enough run that starts no later
/// than the end of the directory, or the run that ends with the directory.
pub proof fn lemma_slots_searched(
    l: FatLayout,
    img: Seq<u8>,
    dir: FatDir,
    ps: Seq<SlotPos>,
    k: int,
    start: Option<SlotPos>,
    len: int,
    needed: int,
) -> (i: int)
    requires
        l.slots_at(img, dir, ps),
        0 <= k < ps.len(),
        clean_end(l.slots_of(img, ps)),
        run_before(ps, l.slots_of(img, ps), k, start, len),
        needed > len,
        l.slots_searched(img, ps[k], start, len, k, needed) is Ok,
    ensures
        ({
            let ss = l.slots_of(img, ps);
            let run = l.slots_searched(img, ps[k], start, len, k, needed)->Ok_0;
            &&& 0 <= i <= ss.len()
            &&& goes_on(ss, 0, i)
            &&& match run.found {
                Some(pos) => {
                    &&& i + needed <= ss.len()
                    &&& pos == ps[i]
                    &&& forall|j: int| i <= j < i + needed ==> is_free(#[trigger] ss[j])
                },
                None => {
                    &&& ps.len() <= 65535
                    &&& run.last == ps.last()
                    &&& run.len == ss.len() - i
                    &&& run.len < needed
                    &&& run.start == (if i == ss.len() {
                        None
                    } else {
                        Some(ps[i])
                    })
                    &&& forall|j: int| i <= j < ss.len() ==> is_free(#[trigger] ss[j])
                },
            }
        }),
    decreases ps.len() - k,
{
    let ss = l.slots_of(img, ps);
    assert(l.slot_read(img, ps[k]) is Ok);
    let free = slot_free(ss[k][0]);
    assert(free == is_free(ss[k]));
    lemma_run_facts(ps, ss, k, start, len);
    lemma_run_step(ps, ss, k, start, len);
    let s = if !free {
        None
    } else if start is None {
        Some(ps[k])
    } else {
        start
    };
    let n = if free {
        len + 1
    } else {
        0
    };
    lemma_run_facts(ps, ss, k + 1, s, n);
    if free && n >= needed {
        k + 1 - n
    } else if k + 1 < ps.len() {
        assert(l.slot_after(img, ps[k]) == Ok::<Option<SlotPos>, FsError<()>>(Some(ps[k + 1])));
        lemma_slots_searched(l, img, dir, ps, k + 1, s, n, needed)
    } else {
        assert(ps[k] == ps.last());
        k + 1 - n
    }
}

/// Zeroing clusters touches their bytes only, which are zero afterwards.
proof fn lemma_all_zeroed(l: FatLayout, d: FatDisk, cs: Seq<u32>)
    requires
        l.sound(),
        l.distinct_clusters(cs),
        l.all_zeroed(d, cs).out is Ok,
    ensures
        ({
            let a = l.all_zeroed(d, cs).disk.img;
            &&& l.touches_only(d.img, a, set![], l.cluster_bytes(cs))
            &&& forall|k: int, b: int|
                0 <= k < cs.len() && 0 <= b < l.props.cluster_size ==> #[trigger] a[l.cluster_pos(
                    cs[k] as int,
                ) + b] == 0
        }),
    decreases cs.len(),
{
    let e = Set::<int>::empty();
    let all = l.cluster_bytes(cs);
    if cs.len() == 0 {
        lemma_touches_nothing(l, d.img, e, all);
    } else {
        let c = cs.first();
        let rest = cs.drop_first();
        assert(c == cs[0]);
        assert(l.is_cluster(cs[0] as int));
        let z = l.zeroed(d, c, 0);
        lemma_zeroed_effect(l, d, c);
        assert forall|i: int| 0 <= i < rest.len() implies (#[trigger] rest[i]) == cs[i + 1] && rest[i]
            != c && l.is_cluster(rest[i] as int) by {
            assert(cs[i + 1] != cs[0]);
            assert(l.is_cluster(cs[i + 1] as int));
        }
        assert forall|i: int, j: int|
            0 <= i < rest.len() && 0 <= j < rest.len() && i != j implies rest[i] != rest[j] by {
            assert(rest[i] == cs[i + 1] && rest[j] == cs[j + 1]);
        }
        lemma_all_zeroed(l, z.disk, rest);
        let a = l.all_zeroed(z.disk, rest).disk.img;
        let here = span(l.cluster_pos(c as int), l.props.cluster_size as int);
        assert(here.subset_of(all)) by {
            assert forall|b: int| here.contains(b) implies all.contains(b) by {
                assert(l.cluster_pos(cs[0] as int) <= b);
            }
        }
        assert(l.cluster_bytes(rest).subset_of(all)) by {
            assert forall|b: int| l.cluster_bytes(rest).contains(b) implies all.contains(b) by {
                let k = choose|k: int|
                    0 <= k < rest.len() && l.cluster_pos((#[trigger] rest[k]) as int) <= b
                        < l.cluster_pos(rest[k] as int) + l.props.cluster_size;
                assert(cs[k + 1] == rest[k]);
            }
        }
        lemma_touches_more(l, d.img, z.disk.img, e, here, e, all);
        lemma_touches_more(l, z.disk.img, a, e, l.cluster_bytes(rest), e, all);
        lemma_touches_then(l, d.img, z.disk.img, a, e, all);
        lemma_untouched(l, z.disk.img, a, e, l.cluster_bytes(rest), 0);
        assert forall|k: int, b: int| 0 <= k < cs.len() && 0 <= b < l.props.cluster_size implies #[trigger] a[l.cluster_pos(
            cs[k] as int,
        ) + b] == 0 by {
            if k > 0 {
                assert(rest[k - 1] == cs[k]);
                assert(a[l.cluster_pos(rest[k - 1] as int) + b] == 0);
            } else {
                let x = l.cluster_pos(c as int) + b;
                lemma_cluster_places(l, c as int, c as int);
                assert(!l.cluster_bytes(rest).contains(x)) by {
                    if l.cluster_bytes(rest).contains(x) {
                        let j = choose|j: int|
                            0 <= j < rest.len() && l.cluster_pos((#[trigger] rest[j]) as int) <= x
                                < l.cluster_pos(rest[j] as int) + l.props.cluster_size;
                        lemma_cluster_places(l, c as int, rest[j] as int);
                    }
                }
                lemma_untouched(l, z.disk.img, a, e, l.cluster_bytes(rest), x);
            }
        }
    }
}

/// Clusters of a sound directory are in use.
pub proof fn lemma_dir_in_use(l: FatLayout, img: Seq<u8>, dir: FatDir, cs: Seq<u32>, i: int)
    requires
        l.dir_sound(img, dir, cs),
        0 <= i < cs.len(),
    ensures
        l.in_use(img, cs[i] as int),
        l.sound(),
        l.distinct_clusters(cs),
        l.volume_end() <= img.len(),
{
    reveal(FatLayout::dir_sound);
    assert(l.is_cluster(cs[i] as int));
    if i < cs.len() - 1 {
        assert(l.fat_read(img, cs[i] as int) == Ok::<FatEntry, FsError<()>>(
            FatEntry::Next(cs[i + 1]),
        ));
    } else {
        assert(cs[i] == cs.last());
    }
}

/// Free clusters are none of a directory's.
pub proof fn lemma_free_apart(
    l: FatLayout,
    img: Seq<u8>,
    dir: FatDir,
    cs: Seq<u32>,
    free: Seq<u32>,
)
    requires
        l.dir_sound(img, dir, cs),
        l.all_free(img, free),
    ensures
        members(cs).disjoint(members(free)),
{
    assert forall|c: int| !(members(cs).contains(c) && members(free).contains(c)) by {
        if members(cs).contains(c) && members(free).contains(c) {
            let i = choose|i: int| 0 <= i < cs.len() && cs[i] == c as u32;
            let j = choose|j: int| 0 <= j < free.len() && free[j] == c as u32;
            lemma_dir_in_use(l, img, dir, cs, i);
            assert(l.fat_read(img, free[j] as int) == Ok::<FatEntry, FsError<()>>(FatEntry::Free));
        }
    }
}

/// A directory's chain with new clusters linked behind it is a chain.
pub proof fn lemma_chain_joined(
    l: FatLayout,
    x: Seq<u8>,
    a: Seq<u8>,
    first: u32,
    cs: Seq<u32>,
    new: Seq<u32>,
)
    requires
        l.dir_sound(x, FatDir::Clusters(first), cs),
        new.len() > 0,
        l.distinct_clusters(new),
        l.all_free(x, new),
        l.touches_only(x, a, members(new).union(link_cell(Some(cs.last()))), set![]),
        l.linked_behind(a, Some(cs.last()), new),
    ensures
        l.dir_sound(a, FatDir::Clusters(first), cs + new),
{
    let e = Set::<int>::empty();
    let dir = FatDir::Clusters(first);
    let all = cs + new;
    let k = cs.len() as int;
    let cells = members(new).union(link_cell(Some(cs.last())));
    assert(k > 0) by {
        reveal(FatLayout::dir_sound);
    }
    lemma_dir_in_use(l, x, dir, cs, k - 1);
    lemma_free_apart(l, x, dir, cs, new);
    lemma_untouched(l, x, a, cells, e, 0);
    assert(cs.last() == cs[k - 1]);
    assert forall|i: int| 0 <= i < k implies #[trigger] all[i] == cs[i] by {}
    assert forall|i: int| k <= i < all.len() implies #[trigger] all[i] == new[i - k] by {}
    assert forall|i: int, j: int| 0 <= i < all.len() && 0 <= j < all.len() && i != j implies all[i]
        != all[j] by {
        if i < k && j >= k {
            assert(members(cs).contains(cs[i] as int));
            assert(members(new).contains(new[j - k] as int));
        } else if i >= k && j < k {
            assert(members(cs).contains(cs[j] as int));
            assert(members(new).contains(new[i - k] as int));
        }
    }
    assert forall|i: int| 0 <= i < all.len() implies l.is_cluster((#[trigger] all[i]) as int) by {
        if i < k {
            assert(l.is_cluster(cs[i] as int));
        } else {
            assert(l.is_cluster(new[i - k] as int));
        }
    }
    assert forall|i: int| 0 <= i < all.len() - 1 implies #[trigger] l.fat_read(a, all[i] as int)
        == Ok::<FatEntry, FsError<()>>(FatEntry::Next(all[i + 1])) by {
        if i < k - 1 {
            reveal(FatLayout::dir_sound);
            assert(members(cs).contains(cs[i] as int));
            assert(cs[i] != cs[k - 1]);
            lemma_untouched(l, x, a, cells, e, cs[i] as int);
            assert(l.fat_read(x, cs[i] as int) == Ok::<FatEntry, FsError<()>>(
                FatEntry::Next(cs[i + 1]),
            ));
            assert(all[i + 1] == cs[i + 1]);
        } else if i == k - 1 {
            assert(all[k] == new[0]);
        } else {
            let j = i - k;
            assert(l.fat_read(a, new[j] as int) == Ok::<FatEntry, FsError<()>>(
                FatEntry::Next(new[j + 1]),
            ));
            assert(all[i + 1] == new[j + 1]);
        }
    }
    assert(all.last() == new.last());
    assert(l.chained(a, all));
    assert(all[0] == first && l.dir_sound(a, dir, all)) by {
        reveal(FatLayout::dir_sound);
    }
}

/// A slot of zeros.
pub open spec fn zero_slot() -> Seq<u8> {
    Seq::new(32, |i: int| 0u8)
}

/// The slots of a lengthened directory: the old ones, then slots of zeros.
proof fn lemma_slots_joined(
    l: FatLayout,
    x: Seq<u8>,
    z: Seq<u8>,
    cells: Set<int>,
    first: u32,
    cs: Seq<u32>,
    new: Seq<u32>,
)
    requires
        l.dir_sound(x, FatDir::Clusters(first), cs),
        l.dir_sound(z, FatDir::Clusters(first), cs + new),
        members(cs).disjoint(members(new)),
        l.touches_only(x, z, cells, l.cluster_bytes(new)),
        forall|k: int, b: int|
            0 <= k < new.len() && 0 <= b < l.props.cluster_size ==> #[trigger] z[l.cluster_pos(
                new[k] as int,
            ) + b] == 0,
    ensures
        ({
            let dir = FatDir::Clusters(first);
            let (ps, qs) = (l.places(dir, cs), l.places(dir, cs + new));
            &&& qs.len() == ps.len() + new.len() * l.slots_in_cluster()
            &&& qs.subrange(0, ps.len() as int) == ps
            &&& l.slots_of(z, qs) == l.slots_of(x, ps) + Seq::new(
                (new.len() * l.slots_in_cluster()) as nat,
                |i: int| zero_slot(),
            )
        }),
{
    let dir = FatDir::Clusters(first);
    let all = cs + new;
    let (ps, qs) = (l.places(dir, cs), l.places(dir, all));
    lemma_places_walked(l, x, dir, cs);
    lemma_places_walked(l, z, dir, all);
    assert(cs.len() > 0) by {
        reveal(FatLayout::dir_sound);
    }
    lemma_dir_in_use(l, x, dir, cs, 0);
    assert(all[0] == cs[0]);
    lemma_dir_in_use(l, z, dir, all, 0);
    lemma_slot_units(l);
    let (k, m, n) = (cs.len() as int, new.len() as int, l.slots_in_cluster());
    assert((k + m) * n == k * n + m * n && 0 <= k * n && 0 <= m * n) by (nonlinear_arith)
        requires
            0 <= k,
            0 <= m,
            0 < n,
    ;
    assert forall|i: int| 0 <= i < ps.len() implies #[trigger] qs[i] == ps[i] by {
        lemma_slot_cluster(l, cs, i);
        assert(all[i / n] == cs[i / n]);
    }
    assert(qs.subrange(0, ps.len() as int) =~= ps);
    let want = l.slots_of(x, ps) + Seq::new((m * n) as nat, |i: int| zero_slot());
    assert forall|i: int| 0 <= i < qs.len() implies l.slots_of(z, qs)[i] == want[i] by {
        lemma_place_apart(l, z, dir, all, i, i);
        lemma_slot_cluster(l, all, i);
        let off = l.place_offset(dir, all, i);
        assert(qs[i].offset == off);
        let q = i / n;
        if i < k * n {
            lemma_slot_cluster(l, cs, i);
            assert(qs[i] == ps[i]);
            assert(l.cluster_bytes(new).disjoint(span(off, 32))) by {
                assert forall|b: int| !(l.cluster_bytes(new).contains(b) && span(off, 32).contains(
                    b,
                )) by {
                    if l.cluster_bytes(new).contains(b) && span(off, 32).contains(b) {
                        let j = choose|j: int|
                            0 <= j < new.len() && l.cluster_pos((#[trigger] new[j]) as int) <= b
                                < l.cluster_pos(new[j] as int) + l.props.cluster_size;
                        assert(all[k + j] == new[j]);
                        assert(l.is_cluster(all[k + j] as int) && l.is_cluster(cs[q] as int));
                        assert(all[q] == cs[q]);
                        assert(all[q] != all[k + j]);
                        lemma_cluster_places(l, cs[q] as int, new[j] as int);
                    }
                }
            }
            super::effects::lemma_range_untouched(
                l,
                x,
                z,
                cells,
                l.cluster_bytes(new),
                off,
                32,
            );
        } else {
            assert(q >= k) by (nonlinear_arith)
                requires
                    i >= k * n,
                    q == i / n,
                    n > 0,
            ;
            assert(all[q] == new[q - k]);
            let slot = z.subrange(off, off + 32);
            assert forall|b: int| 0 <= b < 32 implies #[trigger] slot[b] == 0 by {
                assert(z[l.cluster_pos(new[q - k] as int) + (32 * (i % n) + b)] == 0);
            }
            assert(slot =~= zero_slot());
        }
    }
    assert(l.slots_of(z, qs) =~= want);
}

/// Growing a directory made of clusters: the chain is longer, the old slots
/// stay, the new ones are zeros; nothing else is touched.
pub proof fn law_dir_grown(l: FatLayout, d: FatDisk, first: u32, cs: Seq<u32>, n: int)
    requires
        l.dir_sound(d.img, FatDir::Clusters(first), cs),
        n > 0,
        l.allocated(d, n, Some(cs.last())).out is Ok,
        l.all_zeroed(
            l.allocated(d, n, Some(cs.last())).disk,
            l.allocated(d, n, Some(cs.last())).out->Ok_0,
        ).out is Ok,
    ensures
        ({
            let dir = FatDir::Clusters(first);
            let a = l.allocated(d, n, Some(cs.last()));
            let new = a.out->Ok_0;
            let z = l.all_zeroed(a.disk, new).disk.img;
            let (ps, qs) = (l.places(dir, cs), l.places(dir, cs + new));
            &&& new.len() == n
            &&& l.all_free(d.img, new)
            &&& l.distinct_clusters(new)
            &&& l.dir_sound(z, dir, cs + new)
            &&& l.touches_only(
                d.img,
                z,
                members(new).union(link_cell(Some(cs.last()))),
                l.cluster_bytes(new),
            )
            &&& qs.len() == ps.len() + n * l.slots_in_cluster()
            &&& qs.subrange(0, ps.len() as int) == ps
            &&& l.slots_of(z, qs) == l.slots_of(d.img, ps) + Seq::new(
                (n * l.slots_in_cluster()) as nat,
                |i: int| zero_slot(),
            )
        }),
{
    let e = Set::<int>::empty();
    let dir = FatDir::Clusters(first);
    let a = l.allocated(d, n, Some(cs.last()));
    let new = a.out->Ok_0;
    let z = l.all_zeroed(a.disk, new).disk.img;
    let cells = members(new).union(link_cell(Some(cs.last())));
    assert(cs.len() > 0) by {
        reveal(FatLayout::dir_sound);
    }
    lemma_dir_in_use(l, d.img, dir, cs, cs.len() - 1);
    assert(cs.last() == cs[cs.len() - 1]);
    law_allocated(l, d, n, Some(cs.last()));
    lemma_chain_joined(l, d.img, a.disk.img, first, cs, new);
    lemma_all_zeroed(l, a.disk, new);
    super::dir_laws::lemma_dir_kept(l, a.disk.img, z, e, l.cluster_bytes(new), dir, cs + new);
    lemma_touches_more(l, d.img, a.disk.img, cells, e, cells, l.cluster_bytes(new));
    lemma_touches_more(l, a.disk.img, z, e, l.cluster_bytes(new), cells, l.cluster_bytes(new));
    lemma_touches_then(l, d.img, a.disk.img, z, cells, l.cluster_bytes(new));
    lemma_free_apart(l, d.img, dir, cs, new);
    lemma_slots_joined(l, d.img, z, cells, first, cs, new);
}

} // verus!
