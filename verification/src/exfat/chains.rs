//! Directory streams as wholes: a walk never meets a cluster twice, and a
//! write to a stream changes exactly the bytes it covers.

use vstd::prelude::*;

use super::direntry::{FatEntry, SetLoc};
use super::effects::{
    lemma_bit_effect, lemma_cell_effect, lemma_cluster_effect, lemma_touches_more,
    lemma_touches_then,
};
use super::layout::{lemma_unit_sizes, Disk, ExfatLayout};
use super::regions::{law_bit_marked, law_fat_cell_written};
use crate::bytes::spliced;
use crate::error::FsError;

verus! {

/// The clusters of a list, as a set.
pub open spec fn members(cs: Seq<u32>) -> Set<int> {
    Set::new(|c: int| 0 <= c <= u32::MAX && cs.contains(c as u32))
}

impl ExfatLayout {
    /// Every cluster of the list holds data and lies within the device, and
    /// none comes twice.
    pub open spec fn stream_sound(self, img: Seq<u8>, cs: Seq<u32>) -> bool {
        &&& cs.no_duplicates()
        &&& self.on_device(img, cs)
        &&& forall|i: int| 0 <= i < cs.len() ==> self.data_cluster((#[trigger] cs[i]) as int)
    }
}

/// Two chain walks from the same cluster that both end collect the same.
proof fn lemma_walk_unique(
    l: ExfatLayout,
    img: Seq<u8>,
    cur: Option<u32>,
    max: int,
    walked: int,
    again: int,
)
    requires
        l.dir_walk(img, cur, false, max, walked) is Ok,
        l.dir_walk(img, cur, false, max, again) is Ok,
    ensures
        l.dir_walk(img, cur, false, max, walked) == l.dir_walk(img, cur, false, max, again),
    decreases l.boot.cluster_count - walked,
{
    if let Some(c) = cur {
        let next = l.successor(img, c as int, false)->Ok_0;
        lemma_walk_unique(l, img, next, max, walked + 1, again + 1);
    }
}

/// A walk goes on from each of its clusters as it did the first time.
pub proof fn lemma_walk_suffix(
    l: ExfatLayout,
    img: Seq<u8>,
    cur: Option<u32>,
    no_fat_chain: bool,
    max: int,
    walked: int,
    i: int,
)
    requires
        l.dir_walk(img, cur, no_fat_chain, max, walked) matches Ok(v) && 0 <= i < v.len(),
    ensures
        l.dir_walk(img, cur, no_fat_chain, max, walked) matches Ok(v) && l.dir_walk(
            img,
            Some(v[i]),
            no_fat_chain,
            max,
            walked + i,
        ) == Ok::<Seq<u32>, FsError<()>>(v.subrange(i, v.len() as int)),
    decreases i,
{
    let v = l.dir_walk(img, cur, no_fat_chain, max, walked)->Ok_0;
    let c = cur->0;
    let next = l.successor(img, c as int, no_fat_chain)->Ok_0;
    let rest = l.dir_walk(img, next, no_fat_chain, max, walked + 1)->Ok_0;
    assert(v == seq![c] + rest);
    if i == 0 {
        assert(v.subrange(0, v.len() as int) =~= v);
    } else {
        lemma_walk_suffix(l, img, next, no_fat_chain, max, walked + 1, i - 1);
        assert(v[i] == rest[i - 1]);
        assert(v.subrange(i, v.len() as int) =~= rest.subrange(i - 1, rest.len() as int));
    }
}

/// The clusters of a contiguous walk are consecutive.
pub proof fn lemma_walk_contiguous(
    l: ExfatLayout,
    img: Seq<u8>,
    cur: Option<u32>,
    max: int,
    walked: int,
)
    requires
        l.boot.cluster_count < u32::MAX,
    ensures
        l.dir_walk(img, cur, true, max, walked) matches Ok(v) ==> forall|i: int|
            0 <= i < v.len() ==> cur is Some && (#[trigger] v[i]) == cur->0 + i,
    decreases max - walked,
{
    if let Some(c) = cur {
        if walked < max {
            let next = l.successor(img, c as int, true)->Ok_0;
            lemma_walk_contiguous(l, img, next, max, walked + 1);
            if let Ok(v) = l.dir_walk(img, cur, true, max, walked) {
                let rest = l.dir_walk(img, next, true, max, walked + 1)->Ok_0;
                assert(v == seq![c] + rest);
                assert forall|i: int| 0 <= i < v.len() implies (#[trigger] v[i]) == c + i by {
                    if i > 0 {
                        assert(v[i] == rest[i - 1]);
                    }
                }
            }
        }
    }
}

/// A walk that starts in the heap stays in it and never meets a cluster
/// twice.
pub proof fn lemma_walk_distinct(
    l: ExfatLayout,
    img: Seq<u8>,
    cur: Option<u32>,
    no_fat_chain: bool,
    max: int,
    walked: int,
)
    requires
        l.boot.cluster_count < u32::MAX,
        cur matches Some(c) ==> l.in_heap(c as int),
    ensures
        l.dir_walk(img, cur, no_fat_chain, max, walked) matches Ok(v) ==> {
            &&& v.no_duplicates()
            &&& forall|i: int| 0 <= i < v.len() ==> l.in_heap((#[trigger] v[i]) as int)
        },
    decreases
            (if no_fat_chain {
                max
            } else {
                l.boot.cluster_count as int
            }) - walked,
{
    if let (Some(c), Ok(v)) = (cur, l.dir_walk(img, cur, no_fat_chain, max, walked)) {
        if no_fat_chain && walked >= max {
        } else {
            let next = l.successor(img, c as int, no_fat_chain)->Ok_0;
            let rest = l.dir_walk(img, next, no_fat_chain, max, walked + 1)->Ok_0;
            assert(v == seq![c] + rest);
            lemma_walk_distinct(l, img, next, no_fat_chain, max, walked + 1);
            assert forall|i: int| 0 <= i < v.len() implies l.in_heap((#[trigger] v[i]) as int) by {
                if i > 0 {
                    assert(v[i] == rest[i - 1]);
                }
            }
            assert forall|i: int| 0 <= i < rest.len() implies #[trigger] rest[i] != c by {
                if no_fat_chain {
                    lemma_walk_contiguous(l, img, cur, max, walked);
                    assert(v[i + 1] == rest[i]);
                } else if rest[i] == c {
                    lemma_walk_suffix(l, img, next, false, max, walked + 1, i);
                    lemma_walk_unique(l, img, cur, max, walked, walked + 1 + i);
                    assert(rest.subrange(i, rest.len() as int).len() == rest.len() - i);
                }
            }
            assert forall|i: int, j: int|
                0 <= i < v.len() && 0 <= j < v.len() && i != j implies v[i] != v[j] by {
                if i > 0 && j > 0 {
                    assert(v[i] == rest[i - 1] && v[j] == rest[j - 1]);
                } else if i > 0 {
                    assert(v[i] == rest[i - 1]);
                } else {
                    assert(v[j] == rest[j - 1]);
                }
            }
        }
    }
}

/// A walk depends on the FAT cells of its own clusters only.
pub proof fn lemma_walk_kept(
    l: ExfatLayout,
    a: Seq<u8>,
    b: Seq<u8>,
    cur: Option<u32>,
    no_fat_chain: bool,
    max: int,
    walked: int,
)
    requires
        l.dir_walk(a, cur, no_fat_chain, max, walked) matches Ok(v) && (no_fat_chain || forall|i: int|
            0 <= i < v.len() ==> l.fat_read(b, (#[trigger] v[i]) as int) == l.fat_read(
                a,
                v[i] as int,
            )),
    ensures
        l.dir_walk(b, cur, no_fat_chain, max, walked) == l.dir_walk(
            a,
            cur,
            no_fat_chain,
            max,
            walked,
        ),
    decreases
            (if no_fat_chain {
                max
            } else {
                l.boot.cluster_count as int
            }) - walked,
{
    if let Some(c) = cur {
        if no_fat_chain && walked >= max {
        } else {
            let v = l.dir_walk(a, cur, no_fat_chain, max, walked)->Ok_0;
            let next = l.successor(a, c as int, no_fat_chain)->Ok_0;
            let rest = l.dir_walk(a, next, no_fat_chain, max, walked + 1)->Ok_0;
            assert(v == seq![c] + rest);
            assert(v[0] == c);
            assert forall|i: int| !no_fat_chain && 0 <= i < rest.len() implies l.fat_read(
                b,
                (#[trigger] rest[i]) as int,
            ) == l.fat_read(a, rest[i] as int) by {
                assert(v[i + 1] == rest[i]);
            }
            lemma_walk_kept(l, a, b, next, no_fat_chain, max, walked + 1);
        }
    }
}

/// Freeing a chain clears the bit and the FAT cell of each of its clusters,
/// a bad cluster excepted, and touches no other bit, cell or cluster.
pub proof fn law_chain_freed(l: ExfatLayout, d: Disk, cur: u32, visited: int)
    requires
        l.wf(),
        l.regions_apart(),
        l.in_heap(cur as int),
        l.dir_walk(d.img, Some(cur), false, 0, visited) is Ok,
        l.chain_freed(d, cur as int, visited).out is Ok,
    ensures
        ({
            let v = l.dir_walk(d.img, Some(cur), false, 0, visited)->Ok_0;
            let a = l.chain_freed(d, cur as int, visited).disk.img;
            &&& l.touches_only(d.img, a, members(v), members(v), set![])
            &&& forall|i: int|
                0 <= i < v.len() && l.fat_entry(d.img, v[i] as int) != FatEntry::Bad ==> !l.allocated(
                    a,
                    (#[trigger] v[i]) as int,
                ) && l.fat_entry(a, v[i] as int) == FatEntry::Free
        }),
    decreases l.boot.cluster_count - visited,
{
    reveal(ExfatLayout::touches_only);
    let v = l.dir_walk(d.img, Some(cur), false, 0, visited)->Ok_0;
    let next = l.successor(d.img, cur as int, false)->Ok_0;
    let rest = l.dir_walk(d.img, next, false, 0, visited + 1)->Ok_0;
    assert(v == seq![cur] + rest);
    assert(v[0] == cur);
    assert(members(v).contains(cur as int));
    lemma_walk_distinct(l, d.img, Some(cur), false, 0, visited);
    if l.fat_entry(d.img, cur as int) == FatEntry::Bad {
        assert(rest.len() == 0);
    } else {
        let m = l.marked(d, cur as int, false);
        let w = l.fat_written(m.disk, cur as int, 0);
        law_bit_marked(l, d, cur as int, false);
        law_fat_cell_written(l, m.disk, cur as int, 0);
        lemma_bit_effect(l, d, cur as int, false);
        lemma_cell_effect(l, m.disk, cur as int, 0);
        let (x, y, z) = (d.img, m.disk.img, w.disk.img);
        let e = Set::<int>::empty();
        let one = set![cur as int];
        lemma_touches_more(l, x, y, e, one, e, one, one, e);
        lemma_touches_more(l, y, z, one, e, e, one, one, e);
        lemma_touches_then(l, x, y, z, one, one, e);
        assert(l.allocated(z, cur as int) == l.allocated(y, cur as int));
        if let Some(n) = next {
            assert forall|i: int| 0 <= i < rest.len() implies l.fat_read(
                z,
                (#[trigger] rest[i]) as int,
            ) == l.fat_read(x, rest[i] as int) by {
                assert(v[i + 1] == rest[i]);
                assert(v[i + 1] != v[0]);
            }
            lemma_walk_kept(l, x, z, next, false, 0, visited + 1);
            law_chain_freed(l, w.disk, n, visited + 1);
            let a = l.chain_freed(w.disk, n as int, visited + 1).disk.img;
            assert(members(rest).subset_of(members(v))) by {
                assert forall|c: int| members(rest).contains(c) implies members(v).contains(c) by {
                    let i = choose|i: int| 0 <= i < rest.len() && rest[i] == c as u32;
                    assert(v[i + 1] == c as u32);
                }
            }
            lemma_touches_more(l, z, a, members(rest), members(rest), e, members(v), members(v), e);
            lemma_touches_more(l, x, z, one, one, e, members(v), members(v), e);
            lemma_touches_then(l, x, z, a, members(v), members(v), e);
            assert(!members(rest).contains(cur as int)) by {
                if members(rest).contains(cur as int) {
                    let i = choose|i: int| 0 <= i < rest.len() && rest[i] == cur;
                    assert(v[i + 1] == v[0]);
                }
            }
            assert forall|i: int|
                0 <= i < v.len() && l.fat_entry(d.img, v[i] as int) != FatEntry::Bad implies !l.allocated(
                a,
                (#[trigger] v[i]) as int,
            ) && l.fat_entry(a, v[i] as int) == FatEntry::Free by {
                if i == 0 {
                    assert(l.has_bit_on(z, cur as int));
                    assert(l.allocated(a, cur as int) == l.allocated(z, cur as int));
                    assert(l.fat_read(a, cur as int) == l.fat_read(z, cur as int));
                } else {
                    assert(v[i] == rest[i - 1]);
                    assert(l.fat_read(z, rest[i - 1] as int) == l.fat_read(x, rest[i - 1] as int));
                    lemma_walk_reads(l, x, next, 0, visited + 1, i - 1);
                }
            }
        } else {
            assert(rest.len() == 0);
            lemma_touches_more(l, x, z, one, one, e, members(v), members(v), e);
        }
    }
}

/// A chain walk that ends has read the cell of each of its clusters.
proof fn lemma_walk_reads(
    l: ExfatLayout,
    img: Seq<u8>,
    cur: Option<u32>,
    max: int,
    walked: int,
    i: int,
)
    requires
        l.dir_walk(img, cur, false, max, walked) matches Ok(v) && 0 <= i < v.len(),
    ensures
        l.dir_walk(img, cur, false, max, walked) matches Ok(v) && l.fat_read(img, v[i] as int)
            == Ok::<FatEntry, FsError<()>>(l.fat_entry(img, v[i] as int)),
{
    lemma_walk_suffix(l, img, cur, false, max, walked, i);
}

/// A byte of a stream is a byte of one of its clusters.
pub proof fn lemma_stream_byte(l: ExfatLayout, img: Seq<u8>, cs: Seq<u32>, i: int)
    requires
        l.boot.valid_shifts(),
        l.on_device(img, cs),
        0 <= i < cs.len() * l.boot.cluster_bytes(),
    ensures
        0 <= i / l.boot.cluster_bytes() < cs.len(),
        0 <= i % l.boot.cluster_bytes() < l.boot.cluster_bytes(),
        l.stream_of(img, cs)[i] == l.cluster_data(img, cs[i / l.boot.cluster_bytes()] as int)[i
            % l.boot.cluster_bytes()],
{
    lemma_unit_sizes(l.boot);
    let cb = l.boot.cluster_bytes();
    let n = cs.len() as int;
    let q = i / cb;
    assert(0 <= q < n && 0 <= i % cb < cb) by (nonlinear_arith)
        requires
            0 <= i < n * cb,
            0 < cb,
            q == i / cb,
    ;
    let c = cs[q] as int;
    assert(l.boot.cluster_pos(c) + cb <= img.len());
    let (h, s) = (l.boot.cluster_heap_offset as int, l.boot.sector_bytes());
    let x = if c < 2 {
        0
    } else {
        c - 2
    };
    assert(0 <= h * s + x * cb) by (nonlinear_arith)
        requires
            0 <= h,
            0 <= s,
            0 <= x,
            0 <= cb,
    ;
}

/// A stream whose clusters were not touched reads as before.
pub proof fn lemma_stream_kept(l: ExfatLayout, a: Seq<u8>, b: Seq<u8>, cs: Seq<u32>)
    requires
        l.boot.valid_shifts(),
        a.len() == b.len(),
        l.on_device(a, cs),
        forall|i: int|
            0 <= i < cs.len() ==> l.cluster_data(b, (#[trigger] cs[i]) as int) == l.cluster_data(
                a,
                cs[i] as int,
            ),
    ensures
        l.stream_of(b, cs) == l.stream_of(a, cs),
{
    assert forall|i: int| 0 <= i < cs.len() * l.boot.cluster_bytes() implies l.stream_of(b, cs)[i]
        == l.stream_of(a, cs)[i] by {
        lemma_stream_byte(l, a, cs, i);
        lemma_stream_byte(l, b, cs, i);
    }
    assert(l.stream_of(b, cs) =~= l.stream_of(a, cs));
}

/// A directory of which nothing was touched reads as before.
pub proof fn lemma_dir_kept(
    l: ExfatLayout,
    a: Seq<u8>,
    b: Seq<u8>,
    first: u32,
    no_fat_chain: bool,
    max: int,
    cells: Set<int>,
    bits: Set<int>,
    clusters: Set<int>,
)
    requires
        l.wf(),
        l.touches_only(a, b, cells, bits, clusters),
        l.dir_read(a, first, no_fat_chain, max) matches Ok((cs, _)) && l.stream_sound(a, cs)
            && cells.disjoint(members(cs)) && clusters.disjoint(members(cs)),
    ensures
        l.dir_read(b, first, no_fat_chain, max) == l.dir_read(a, first, no_fat_chain, max),
{
    reveal(ExfatLayout::touches_only);
    let cs = l.dir_clusters(a, first, no_fat_chain, max)->Ok_0;
    assert forall|i: int| 0 <= i < cs.len() implies l.fat_read(b, (#[trigger] cs[i]) as int)
        == l.fat_read(a, cs[i] as int) && l.cluster_data(b, cs[i] as int) == l.cluster_data(
        a,
        cs[i] as int,
    ) by {
        assert(members(cs).contains(cs[i] as int));
        assert(l.cluster_on(a, cs[i] as int));
    }
    lemma_walk_kept(l, a, b, Some(first), no_fat_chain, max, 0);
    lemma_stream_kept(l, a, b, cs);
}

/// Writing within one cluster of a sound stream changes the stream there.
proof fn lemma_chunk_written(l: ExfatLayout, d: Disk, cs: Seq<u32>, logical: int, bytes: Seq<u8>)
    requires
        l.wf(),
        l.regions_apart(),
        l.stream_sound(d.img, cs),
        0 <= logical,
        logical + bytes.len() <= cs.len() * l.boot.cluster_bytes(),
        0 < bytes.len(),
        logical % l.boot.cluster_bytes() + bytes.len() <= l.boot.cluster_bytes(),
    ensures
        ({
            let w = l.written(d, l.stream_pos(cs, logical), bytes);
            &&& w.out is Ok
            &&& l.touches_only(d.img, w.disk.img, set![], set![], members(cs))
            &&& l.stream_of(w.disk.img, cs) == spliced(l.stream_of(d.img, cs), logical, bytes)
            &&& l.stream_sound(w.disk.img, cs)
        }),
{
    reveal(ExfatLayout::touches_only);
    let cb = l.boot.cluster_bytes();
    let w = l.written(d, l.stream_pos(cs, logical), bytes);
    let a = w.disk.img;
    lemma_unit_sizes(l.boot);
    lemma_stream_byte(l, d.img, cs, logical);
    let k = logical / cb;
    let off = logical % cb;
    let c = cs[k] as int;
    assert(l.cluster_on(d.img, c));
    lemma_cluster_effect(l, d, c, off, bytes);
    assert(members(cs).contains(c));
    lemma_touches_more(
        l,
        d.img,
        a,
        set![],
        set![],
        set![c],
        set![],
        set![],
        members(cs),
    );
    assert forall|i: int| 0 <= i < cs.len() * cb implies l.stream_of(a, cs)[i] == spliced(
        l.stream_of(d.img, cs),
        logical,
        bytes,
    )[i] by {
        lemma_stream_byte(l, d.img, cs, i);
        lemma_stream_byte(l, a, cs, i);
        vstd::arithmetic::div_mod::lemma_fundamental_div_mod(i, cb);
        vstd::arithmetic::div_mod::lemma_fundamental_div_mod(logical, cb);
        let q = i / cb;
        if q == k {
            assert(i - logical == i % cb - off);
        } else {
            assert(cs[q] != cs[k]);
            assert(l.cluster_on(d.img, cs[q] as int));
            assert(l.data_cluster(cs[q] as int));
            assert(l.cluster_data(a, cs[q] as int) == l.cluster_data(d.img, cs[q] as int));
            assert(!(logical <= i < logical + bytes.len())) by (nonlinear_arith)
                requires
                    i == cb * q + i % cb,
                    logical == cb * k + off,
                    0 <= i % cb < cb,
                    0 <= off,
                    off + bytes.len() <= cb,
                    q != k,
                    0 < cb,
            ;
        }
    }
    assert(l.stream_of(a, cs) =~= spliced(l.stream_of(d.img, cs), logical, bytes));
    assert forall|i: int| 0 <= i < cs.len() implies l.boot.cluster_pos((#[trigger] cs[i]) as int)
        + cb <= a.len() by {
        assert(l.boot.cluster_pos(cs[i] as int) + cb <= d.img.len());
    }
}

/// Writing to a sound stream succeeds, changes exactly the bytes of the
/// stream that it covers, and touches nothing but the stream's clusters.
pub proof fn law_stream_written(l: ExfatLayout, d: Disk, cs: Seq<u32>, logical: int, bytes: Seq<u8>)
    requires
        l.wf(),
        l.regions_apart(),
        l.stream_sound(d.img, cs),
        0 <= logical,
        logical + bytes.len() <= cs.len() * l.boot.cluster_bytes(),
    ensures
        ({
            let w = l.stream_written(d, cs, logical, bytes);
            &&& w.out is Ok
            &&& l.touches_only(d.img, w.disk.img, set![], set![], members(cs))
            &&& l.stream_of(w.disk.img, cs) == spliced(l.stream_of(d.img, cs), logical, bytes)
            &&& l.stream_sound(w.disk.img, cs)
        }),
    decreases bytes.len(),
{
    reveal(ExfatLayout::touches_only);
    let cb = l.boot.cluster_bytes();
    lemma_unit_sizes(l.boot);
    let chunk = l.span_at(logical, bytes.len() as int);
    if bytes.len() == 0 {
        assert(spliced(l.stream_of(d.img, cs), logical, bytes) =~= l.stream_of(d.img, cs));
    } else {
        vstd::arithmetic::div_mod::lemma_mod_bound(logical, cb);
        let head = bytes.subrange(0, chunk);
        let tail = bytes.subrange(chunk, bytes.len() as int);
        lemma_stream_byte(l, d.img, cs, logical);
        lemma_chunk_written(l, d, cs, logical, head);
        let w = l.written(d, l.stream_pos(cs, logical), head);
        law_stream_written(l, w.disk, cs, logical + chunk, tail);
        let a = l.stream_written(w.disk, cs, logical + chunk, tail).disk.img;
        lemma_touches_then(l, d.img, w.disk.img, a, set![], set![], members(cs));
        let s = l.stream_of(d.img, cs);
        assert(spliced(spliced(s, logical, head), logical + chunk, tail) =~= spliced(
            s,
            logical,
            bytes,
        ));
    }
}

/// Reading from a stream on the device gives the bytes of the stream.
pub proof fn law_stream_read(l: ExfatLayout, img: Seq<u8>, cs: Seq<u32>, logical: int, len: int)
    requires
        l.boot.valid_shifts(),
        l.on_device(img, cs),
        0 <= logical,
        0 <= len,
        logical + len <= cs.len() * l.boot.cluster_bytes(),
    ensures
        l.stream_read(img, cs, logical, len) == Ok::<Seq<u8>, FsError<()>>(
            l.stream_of(img, cs).subrange(logical, logical + len),
        ),
    decreases len,
{
    let cb = l.boot.cluster_bytes();
    lemma_unit_sizes(l.boot);
    let s = l.stream_of(img, cs);
    let chunk = l.span_at(logical, len);
    if len == 0 {
        assert(s.subrange(logical, logical) =~= Seq::<u8>::empty());
    } else {
        lemma_stream_byte(l, img, cs, logical);
        let k = logical / cb;
        let pos = l.stream_pos(cs, logical);
        assert(l.boot.cluster_pos(cs[k] as int) + cb <= img.len());
        law_stream_read(l, img, cs, logical + chunk, len - chunk);
        let head = img.subrange(pos, pos + chunk);
        assert forall|i: int| 0 <= i < chunk implies head[i] == s[logical + i] by {
            lemma_stream_byte(l, img, cs, logical + i);
            vstd::arithmetic::div_mod::lemma_fundamental_div_mod(logical, cb);
            vstd::arithmetic::div_mod::lemma_fundamental_div_mod_converse(
                logical + i,
                cb,
                k,
                logical % cb + i,
            );
        }
        assert(head + s.subrange(logical + chunk, logical + len) =~= s.subrange(
            logical,
            logical + len,
        ));
    }
}

/// An entry set that was written reads back as it was written.
pub proof fn law_set_read_back(l: ExfatLayout, d: Disk, loc: SetLoc, bytes: Seq<u8>)
    requires
        l.wf(),
        l.regions_apart(),
        bytes.len() == loc.len,
        l.dir_clusters(
            d.img,
            loc.dir_first_cluster,
            loc.dir_no_fat_chain,
            loc.dir_max_clusters as int,
        ) matches Ok(cs) && l.stream_sound(d.img, cs) && loc.logical + loc.len <= cs.len()
            * l.boot.cluster_bytes(),
    ensures
        ({
            let w = l.set_written(d, loc, bytes);
            &&& w.out is Ok
            &&& l.set_read(w.disk.img, loc) == Ok::<Seq<u8>, FsError<()>>(bytes)
        }),
{
    reveal(ExfatLayout::touches_only);
    let (first, nfc, max) = (loc.dir_first_cluster, loc.dir_no_fat_chain, loc.dir_max_clusters as int);
    let cs = l.dir_clusters(d.img, first, nfc, max)->Ok_0;
    let w = l.set_written(d, loc, bytes);
    law_stream_written(l, d, cs, loc.logical as int, bytes);
    let a = w.disk.img;
    assert forall|i: int| 0 <= i < cs.len() implies l.fat_read(a, (#[trigger] cs[i]) as int)
        == l.fat_read(d.img, cs[i] as int) by {
        assert(l.data_cluster(cs[i] as int));
    }
    lemma_walk_kept(l, d.img, a, Some(first), nfc, max, 0);
    law_stream_read(l, a, cs, loc.logical as int, loc.len as int);
    assert(spliced(l.stream_of(d.img, cs), loc.logical as int, bytes).subrange(
        loc.logical as int,
        loc.logical + loc.len,
    ) =~= bytes);
}

} // verus!
