//! What a file gives back of what was written to it.

use vstd::prelude::*;

use super::alloc_laws::link_cell;
use super::dir_laws::lemma_dir_kept;
use super::dir_slots::FatDir;
use super::effects::{
    lemma_bytes_effect, lemma_touches_more, lemma_touches_nothing, lemma_touches_then,
    lemma_untouched, members, span,
};
use super::file::FatFileRun;
use super::layout::{lemma_cluster_size, FatDisk, FatLayout};
use super::regions::lemma_cluster_places;
use super::stream_laws::{law_file_cut, law_file_extended, law_file_started, lemma_file_chain};
use crate::bytes::spliced;
use crate::calendar::PrimitiveDateTime;
use crate::codec::fat::fat_entry::FatEntry;
use crate::error::FsError;
use crate::exfat::cluster_map::real_cluster;
use crate::exfat::file::zeros;
use crate::file::FileState;

verus! {

impl FatLayout {
    /// The bytes of the stream that `cs` form.
    pub open spec fn stream_of(self, img: Seq<u8>, cs: Seq<u32>) -> Seq<u8> {
        Seq::new(
            (cs.len() * self.props.cluster_size) as nat,
            |i: int| img[self.stream_pos(cs, i)],
        )
    }

    /// The contents of a file: its initialized prefix, then zeros.
    pub open spec fn file_content(self, img: Seq<u8>, s: FileState, cs: Seq<u32>) -> Seq<u8> {
        Seq::new(
            s.len as nat,
            |i: int|
                if i < s.valid_len {
                    self.stream_of(img, cs)[i]
                } else {
                    0
                },
        )
    }

    /// The file's clusters `cs` form its chain and hold all of it. A file
    /// without clusters is empty.
    pub open spec fn file_sound(self, img: Seq<u8>, s: FileState, allocated: u64, cs: Seq<u32>) -> bool {
        &&& self.sound()
        &&& self.volume_end() <= img.len()
        &&& s.valid_len <= s.len <= allocated
        &&& allocated == cs.len() * self.props.cluster_size
        &&& cs.len() == 0 ==> s.first_cluster < 2
        &&& cs.len() > 0 ==> s.first_cluster == cs[0] && self.file_chain(img, cs[0], cs)
    }
}

/// Walking a chain from its cluster number `i` on gives the rest of it.
proof fn lemma_chain_walked(l: FatLayout, img: Seq<u8>, cs: Seq<u32>, i: int)
    requires
        l.chained(img, cs),
        0 <= i < cs.len(),
        cs.len() <= l.props.max_cluster,
    ensures
        l.chain_walk(img, cs[i], i) == Ok::<Seq<u32>, FsError<()>>(
            cs.subrange(i, cs.len() as int),
        ),
    decreases cs.len() - i,
{
    let n = cs.len() as int;
    if i < n - 1 {
        assert(l.fat_read(img, cs[i] as int) == Ok::<FatEntry, FsError<()>>(
            FatEntry::Next(cs[i + 1]),
        ));
        lemma_chain_walked(l, img, cs, i + 1);
        assert(seq![cs[i]] + cs.subrange(i + 1, n) =~= cs.subrange(i, n));
    } else {
        assert(cs[i] == cs.last());
        assert(seq![cs[i]] =~= cs.subrange(i, n));
    }
}

/// Where a byte of a stream lies.
pub proof fn lemma_stream_place(l: FatLayout, img: Seq<u8>, cs: Seq<u32>, i: int)
    requires
        l.sound(),
        l.volume_end() <= img.len(),
        l.distinct_clusters(cs),
        0 <= i < cs.len() * l.props.cluster_size,
    ensures
        ({
            let size = l.props.cluster_size as int;
            let q = i / size;
            &&& 0 <= q < cs.len()
            &&& 0 <= i % size < size
            &&& i == size * q + i % size
            &&& l.is_cluster(cs[q] as int)
            &&& l.stream_pos(cs, i) == l.cluster_pos(cs[q] as int) + i % size
            &&& l.root_pos() <= l.cluster_pos(cs[q] as int)
            &&& 0 <= l.root_pos()
            &&& l.cluster_pos(cs[q] as int) + size <= l.volume_end()
        }),
{
    lemma_cluster_size(l);
    super::dir_laws::lemma_slot_units(l);
    let (size, n) = (l.props.cluster_size as int, cs.len() as int);
    let q = i / size;
    vstd::arithmetic::div_mod::lemma_fundamental_div_mod(i, size);
    assert(0 <= q < n && 0 <= i % size < size) by (nonlinear_arith)
        requires
            0 <= i < n * size,
            size > 0,
            q == i / size,
    ;
    assert(l.is_cluster(cs[q] as int));
    lemma_cluster_places(l, cs[q] as int, cs[q] as int);
}

/// Different bytes of a stream lie at different places.
proof fn lemma_stream_apart(l: FatLayout, img: Seq<u8>, cs: Seq<u32>, i: int, j: int)
    requires
        l.sound(),
        l.volume_end() <= img.len(),
        l.distinct_clusters(cs),
        0 <= i < cs.len() * l.props.cluster_size,
        0 <= j < cs.len() * l.props.cluster_size,
        i / (l.props.cluster_size as int) != j / (l.props.cluster_size as int),
    ensures
        ({
            let size = l.props.cluster_size as int;
            let (p, q) = (
                l.cluster_pos(cs[i / size] as int),
                l.cluster_pos(cs[j / size] as int),
            );
            p + size <= q || q + size <= p
        }),
{
    lemma_stream_place(l, img, cs, i);
    lemma_stream_place(l, img, cs, j);
    let size = l.props.cluster_size as int;
    assert(cs[i / size] != cs[j / size]);
    lemma_cluster_places(l, cs[i / size] as int, cs[j / size] as int);
}

/// Writing within one cluster of a stream changes the stream there.
proof fn lemma_chunk_written(l: FatLayout, d: FatDisk, cs: Seq<u32>, at: int, bytes: Seq<u8>)
    requires
        l.sound(),
        l.volume_end() <= d.img.len(),
        l.distinct_clusters(cs),
        0 <= at,
        at + bytes.len() <= cs.len() * l.props.cluster_size,
        0 < bytes.len(),
        at % (l.props.cluster_size as int) + bytes.len() <= l.props.cluster_size,
    ensures
        ({
            let w = l.written(d, l.stream_pos(cs, at), bytes);
            &&& w.out is Ok
            &&& l.touches_only(d.img, w.disk.img, set![], l.cluster_bytes(cs))
            &&& l.stream_of(w.disk.img, cs) == spliced(l.stream_of(d.img, cs), at, bytes)
            &&& w.disk.img.len() == d.img.len()
        }),
{
    let size = l.props.cluster_size as int;
    lemma_cluster_size(l);
    lemma_stream_place(l, d.img, cs, at);
    let p = l.stream_pos(cs, at);
    let w = l.written(d, p, bytes);
    let a = w.disk.img;
    let e = Set::<int>::empty();
    lemma_bytes_effect(l, d, p, bytes);
    let here = span(p, bytes.len() as int);
    let area = l.cluster_bytes(cs);
    let k = at / size;
    assert(here.subset_of(area)) by {
        assert forall|b: int| here.contains(b) implies area.contains(b) by {
            assert(l.cluster_pos(cs[k] as int) <= b < l.cluster_pos(cs[k] as int) + size);
        }
    }
    lemma_touches_more(l, d.img, a, e, here, e, area);
    lemma_untouched(l, d.img, a, e, area, 0);
    assert forall|i: int| 0 <= i < cs.len() * size implies l.stream_of(a, cs)[i] == spliced(
        l.stream_of(d.img, cs),
        at,
        bytes,
    )[i] by {
        lemma_stream_place(l, d.img, cs, i);
        let q = i / size;
        if q != k {
            lemma_stream_apart(l, d.img, cs, i, at);
            assert(!(at <= i < at + bytes.len())) by (nonlinear_arith)
                requires
                    i == size * q + i % size,
                    at == size * k + at % size,
                    0 <= i % size < size,
                    0 <= at % size,
                    at % size + bytes.len() <= size,
                    q != k,
                    0 < size,
            ;
        } else {
            assert(i - at == i % size - at % size);
        }
    }
    assert(l.stream_of(a, cs) =~= spliced(l.stream_of(d.img, cs), at, bytes));
}

/// Writing to the stream of a chain succeeds, changes exactly the bytes of the
/// stream that it covers, and touches nothing but the chain's clusters.
pub proof fn law_stream_written(l: FatLayout, d: FatDisk, cs: Seq<u32>, at: int, bytes: Seq<u8>)
    requires
        l.sound(),
        l.volume_end() <= d.img.len(),
        l.distinct_clusters(cs),
        0 <= at,
        at + bytes.len() <= cs.len() * l.props.cluster_size,
    ensures
        ({
            let w = l.stream_written(d, cs, at, bytes);
            &&& w.out is Ok
            &&& l.touches_only(d.img, w.disk.img, set![], l.cluster_bytes(cs))
            &&& l.stream_of(w.disk.img, cs) == spliced(l.stream_of(d.img, cs), at, bytes)
            &&& w.disk.img.len() == d.img.len()
        }),
    decreases bytes.len(),
{
    let e = Set::<int>::empty();
    lemma_cluster_size(l);
    let size = l.props.cluster_size as int;
    let chunk = l.span_at(at, bytes.len() as int);
    if bytes.len() == 0 {
        lemma_touches_nothing(l, d.img, e, l.cluster_bytes(cs));
        assert(spliced(l.stream_of(d.img, cs), at, bytes) =~= l.stream_of(d.img, cs));
    } else {
        vstd::arithmetic::div_mod::lemma_mod_bound(at, size);
        let head = bytes.subrange(0, chunk);
        let tail = bytes.subrange(chunk, bytes.len() as int);
        lemma_stream_place(l, d.img, cs, at);
        lemma_chunk_written(l, d, cs, at, head);
        let w = l.written(d, l.stream_pos(cs, at), head);
        law_stream_written(l, w.disk, cs, at + chunk, tail);
        let a = l.stream_written(w.disk, cs, at + chunk, tail).disk.img;
        lemma_touches_then(l, d.img, w.disk.img, a, e, l.cluster_bytes(cs));
        let s = l.stream_of(d.img, cs);
        assert(spliced(spliced(s, at, head), at + chunk, tail) =~= spliced(s, at, bytes));
    }
}

/// Reading from the stream of a chain gives the bytes of the stream.
pub proof fn law_stream_read(l: FatLayout, img: Seq<u8>, cs: Seq<u32>, at: int, len: int)
    requires
        l.sound(),
        l.volume_end() <= img.len(),
        l.distinct_clusters(cs),
        0 <= at,
        0 <= len,
        at + len <= cs.len() * l.props.cluster_size,
    ensures
        l.stream_read(img, cs, at, len) == Ok::<Seq<u8>, FsError<()>>(
            l.stream_of(img, cs).subrange(at, at + len),
        ),
    decreases len,
{
    lemma_cluster_size(l);
    let size = l.props.cluster_size as int;
    let s = l.stream_of(img, cs);
    let chunk = l.span_at(at, len);
    if len == 0 {
        assert(s.subrange(at, at) =~= Seq::<u8>::empty());
    } else {
        vstd::arithmetic::div_mod::lemma_mod_bound(at, size);
        lemma_stream_place(l, img, cs, at);
        let pos = l.stream_pos(cs, at);
        law_stream_read(l, img, cs, at + chunk, len - chunk);
        let head = img.subrange(pos, pos + chunk);
        assert forall|i: int| 0 <= i < chunk implies head[i] == s[at + i] by {
            lemma_stream_place(l, img, cs, at + i);
            vstd::arithmetic::div_mod::lemma_fundamental_div_mod_converse(
                at + i,
                size,
                at / size,
                at % size + i,
            );
        }
        assert(head + s.subrange(at + chunk, at + len) =~= s.subrange(at, at + len));
    }
}

/// A sound file's clusters are what its chain gives.
proof fn lemma_file_clusters(
    l: FatLayout,
    img: Seq<u8>,
    s: FileState,
    allocated: u64,
    cs: Seq<u32>,
)
    requires
        l.file_sound(img, s, allocated, cs),
        cs.len() > 0,
    ensures
        l.chain_walk(img, s.first_cluster, 0) == Ok::<Seq<u32>, FsError<()>>(cs),
        l.distinct_clusters(cs),
{
    lemma_file_chain(l, img, cs[0], cs);
    lemma_chain_walked(l, img, cs, 0);
    assert(cs.subrange(0, cs.len() as int) =~= cs);
}

/// Reading gives the contents from the cursor on, as far as they go.
pub proof fn law_read_gives_content(
    l: FatLayout,
    img: Seq<u8>,
    s: FileState,
    allocated: u64,
    cs: Seq<u32>,
    n: int,
)
    requires
        l.file_sound(img, s, allocated, cs),
        0 <= n,
        s.pos < s.len,
    ensures
        l.file_read(img, s, n) == Ok::<Seq<u8>, FsError<()>>(
            l.file_content(img, s, cs).subrange(s.pos as int, s.pos + s.readable(n)),
        ),
{
    let all = s.readable(n);
    let k = s.initialized(all);
    let want = l.file_content(img, s, cs).subrange(s.pos as int, s.pos + all);
    if k == 0 {
        assert(zeros(all) =~= want);
    } else {
        if cs.len() == 0 {
            assert(0 * l.props.cluster_size == 0);
        }
        lemma_file_clusters(l, img, s, allocated, cs);
        law_stream_read(l, img, cs, s.pos as int, k);
        assert(l.stream_of(img, cs).subrange(s.pos as int, s.pos + k) + zeros(all - k) =~= want);
    }
}

/// Each cluster of `all` is one of `cs` or was free.
pub open spec fn drawn_from(l: FatLayout, img: Seq<u8>, cs: Seq<u32>, all: Seq<u32>) -> bool {
    forall|i: int|
        0 <= i < all.len() ==> cs.contains(#[trigger] all[i]) || l.fat_read(img, all[i] as int)
            == Ok::<FatEntry, FsError<()>>(FatEntry::Free)
}

/// What making room leaves: a sound file with room, and the contents as they
/// were.
pub open spec fn room_left(
    l: FatLayout,
    d: FatDisk,
    s: FileState,
    cs: Seq<u32>,
    needed: int,
    r: FatFileRun<()>,
    all: Seq<u32>,
) -> bool {
    &&& l.file_sound(r.disk.img, r.state, r.allocated, all)
    &&& l.file_content(r.disk.img, r.state, all) == l.file_content(d.img, s, cs)
    &&& r.allocated >= needed
    &&& r.state == (FileState {
        first_cluster: r.state.first_cluster,
        dirty: r.state.dirty,
        ..s
    })
    &&& needed > 0 ==> all.len() > 0
    &&& drawn_from(l, d.img, cs, all)
    &&& l.touches_only(d.img, r.disk.img, members(all), set![])
}

/// Growing a sound file leaves it sound and its contents as they were.
pub proof fn lemma_room_made(
    l: FatLayout,
    d: FatDisk,
    s: FileState,
    allocated: u64,
    cs: Seq<u32>,
    needed: int,
) -> (all: Seq<u32>)
    requires
        l.file_sound(d.img, s, allocated, cs),
        0 <= needed,
        l.room_made(d, s, allocated, needed).out is Ok,
    ensures
        room_left(l, d, s, cs, needed, l.room_made(d, s, allocated, needed), all),
{
    let r = l.room_made(d, s, allocated, needed);
    lemma_cluster_size(l);
    if needed <= allocated {
        if cs.len() == 0 {
            assert(0 * l.props.cluster_size == 0);
        }
        lemma_touches_nothing(l, d.img, members(cs), set![]);
        cs
    } else if cs.len() == 0 {
        assert(0 * l.props.cluster_size == 0);
        assert(real_cluster(Some(s.first_cluster)) is None);
        assert(l.file_extended(d, allocated, Some(s.first_cluster), None, needed)
            == l.file_extended(d, allocated, None, None, needed));
        let all = law_file_started(l, d, allocated, None, needed);
        lemma_untouched(l, d.img, r.disk.img, members(all), set![], 0);
        assert(l.file_content(r.disk.img, r.state, all) =~= l.file_content(d.img, s, cs));
        all
    } else {
        let new = law_file_extended(l, d, allocated, cs, None, needed);
        let all = cs + new;
        assert(all[0] == cs[0]);
        lemma_file_chain(l, d.img, cs[0], cs);
        lemma_file_chain(l, r.disk.img, cs[0], all);
        if new.len() == 0 {
            assert(all =~= cs);
            lemma_touches_nothing(l, d.img, members(cs), set![]);
        } else {
            let cells = members(new).union(link_cell(Some(cs.last())));
            lemma_untouched(l, d.img, r.disk.img, cells, set![], 0);
            lemma_content_kept(l, d.img, r.disk.img, s, r.state, cs, new, cells);
            assert(cells.subset_of(members(all))) by {
                assert forall|c: int| cells.contains(c) implies members(all).contains(c) by {
                    if members(new).contains(c) {
                        let i = choose|i: int| 0 <= i < new.len() && new[i] == c as u32;
                        assert(all[cs.len() + i] == c as u32);
                    } else {
                        assert(all[cs.len() - 1] == cs.last());
                    }
                }
            }
            lemma_touches_more(l, d.img, r.disk.img, cells, set![], members(all), set![]);
        }
        assert forall|i: int| 0 <= i < all.len() implies cs.contains(#[trigger] all[i])
            || l.fat_read(d.img, all[i] as int) == Ok::<FatEntry, FsError<()>>(FatEntry::Free) by {
            if i < cs.len() {
                assert(all[i] == cs[i]);
            } else {
                assert(all[i] == new[i - cs.len()]);
            }
        }
        all
    }
}

/// Clusters added behind a file do not change its contents.
proof fn lemma_content_kept(
    l: FatLayout,
    a: Seq<u8>,
    b: Seq<u8>,
    s: FileState,
    t: FileState,
    cs: Seq<u32>,
    new: Seq<u32>,
    cells: Set<int>,
)
    requires
        l.sound(),
        l.volume_end() <= a.len(),
        l.distinct_clusters(cs),
        l.distinct_clusters(cs + new),
        l.touches_only(a, b, cells, set![]),
        s.valid_len <= s.len <= cs.len() * l.props.cluster_size,
        t.len == s.len,
        t.valid_len == s.valid_len,
    ensures
        l.file_content(b, t, cs + new) == l.file_content(a, s, cs),
{
    lemma_cluster_size(l);
    let all = cs + new;
    let size = l.props.cluster_size as int;
    let (n, m) = (cs.len() as int, new.len() as int);
    lemma_untouched(l, a, b, cells, set![], 0);
    assert((n + m) * size >= n * size) by (nonlinear_arith)
        requires
            m >= 0,
            size > 0,
    ;
    assert forall|i: int| 0 <= i < s.valid_len implies l.stream_of(b, all)[i] == l.stream_of(a, cs)[i] by {
        lemma_stream_place(l, a, cs, i);
        lemma_stream_place(l, b, all, i);
        assert(all[i / size] == cs[i / size]);
        lemma_untouched(l, a, b, cells, set![], l.stream_pos(cs, i));
    }
    assert(l.file_content(b, t, all) =~= l.file_content(a, s, cs));
}

/// Zeroing a gap and writing behind it, in a file that has room.
pub proof fn lemma_stream_put(
    l: FatLayout,
    d: FatDisk,
    s: FileState,
    allocated: u64,
    cs: Seq<u32>,
    from: int,
    to: int,
    bytes: Seq<u8>,
)
    requires
        l.file_sound(d.img, s, allocated, cs),
        cs.len() > 0,
        0 <= from <= to,
        to + bytes.len() <= allocated,
    ensures
        ({
            let w = l.stream_put(d, s.first_cluster, from, to, bytes);
            let a = w.disk.img;
            &&& w.out is Ok
            &&& a.len() == d.img.len()
            &&& l.file_chain(a, cs[0], cs)
            &&& l.touches_only(d.img, a, set![], l.cluster_bytes(cs))
            &&& l.stream_of(a, cs) == spliced(
                spliced(l.stream_of(d.img, cs), from, zeros(to - from)),
                to,
                bytes,
            )
        }),
{
    let e = Set::<int>::empty();
    lemma_file_clusters(l, d.img, s, allocated, cs);
    let z = l.stream_written(d, cs, from, zeros(to - from));
    law_stream_written(l, d, cs, from, zeros(to - from));
    let w = l.stream_written(z.disk, cs, to, bytes);
    law_stream_written(l, z.disk, cs, to, bytes);
    let area = l.cluster_bytes(cs);
    lemma_touches_then(l, d.img, z.disk.img, w.disk.img, e, area);
    lemma_dir_kept(l, d.img, w.disk.img, e, area, FatDir::Clusters(cs[0]), cs);
}

/// Linking clusters and then writing to them touches their cells and bytes.
proof fn lemma_touches_both(l: FatLayout, x: Seq<u8>, y: Seq<u8>, z: Seq<u8>, all: Seq<u32>)
    requires
        l.touches_only(x, y, members(all), set![]),
        l.touches_only(y, z, set![], l.cluster_bytes(all)),
    ensures
        l.touches_only(x, z, members(all), l.cluster_bytes(all)),
{
    let e = Set::<int>::empty();
    let (cells, area) = (members(all), l.cluster_bytes(all));
    lemma_touches_more(l, x, y, cells, e, cells, area);
    lemma_touches_more(l, y, z, e, area, cells, area);
    lemma_touches_then(l, x, y, z, cells, area);
}

/// Writing `bytes` at the cursor of a file: the contents are then what they
/// were, lengthened by zeros where the file grew, with the bytes in place; the
/// file stays sound; and only clusters of the file and clusters that were free
/// are touched.
pub proof fn law_write_then_content(
    l: FatLayout,
    d: FatDisk,
    s: FileState,
    allocated: u64,
    cs: Seq<u32>,
    bytes: Seq<u8>,
    now: PrimitiveDateTime,
) -> (all: Seq<u32>)
    requires
        l.file_sound(d.img, s, allocated, cs),
        s.writable,
        0 < bytes.len() <= usize::MAX,
        l.file_written(d, s, allocated, bytes, now).out is Ok,
    ensures
        ({
            let r = l.file_written(d, s, allocated, bytes, now);
            let grown = l.file_content(d.img, s, cs) + zeros(r.state.len - s.len);
            &&& r.out->Ok_0 == bytes.len()
            &&& l.file_sound(r.disk.img, r.state, r.allocated, all)
            &&& r.state.len == (if s.pos + bytes.len() > s.len {
                s.pos + bytes.len()
            } else {
                s.len as int
            })
            &&& r.state.pos == s.pos + bytes.len()
            &&& l.file_content(r.disk.img, r.state, all) == spliced(grown, s.pos as int, bytes)
            &&& drawn_from(l, d.img, cs, all)
            &&& l.touches_only(d.img, r.disk.img, members(all), l.cluster_bytes(all))
        }),
{
    let end = s.pos + bytes.len();
    let g = l.room_made(d, s, allocated, end);
    let all = lemma_room_made(l, d, s, allocated, cs, end);
    let from = if s.pos > s.valid_len {
        s.valid_len as int
    } else {
        s.pos as int
    };
    lemma_stream_put(l, g.disk, g.state, g.allocated, all, from, s.pos as int, bytes);
    let r = l.file_written(d, s, allocated, bytes, now);
    let old = l.file_content(d.img, s, cs);
    let grown = old + zeros(r.state.len - s.len);
    let a = r.disk.img;
    assert(l.file_content(g.disk.img, g.state, all) == old);
    assert forall|i: int| 0 <= i < r.state.len implies l.file_content(a, r.state, all)[i] == spliced(
        grown,
        s.pos as int,
        bytes,
    )[i] by {
        if i < s.len {
            assert(l.file_content(g.disk.img, g.state, all)[i] == old[i]);
        }
    }
    assert(l.file_content(a, r.state, all) =~= spliced(grown, s.pos as int, bytes));
    lemma_touches_both(l, d.img, g.disk.img, a, all);
    all
}

/// What was written is read back: a read of as many bytes from where the write
/// started gives the bytes written.
pub proof fn law_read_back(
    l: FatLayout,
    d: FatDisk,
    s: FileState,
    allocated: u64,
    cs: Seq<u32>,
    bytes: Seq<u8>,
    now: PrimitiveDateTime,
)
    requires
        l.file_sound(d.img, s, allocated, cs),
        s.writable,
        0 < bytes.len() <= usize::MAX,
        l.file_written(d, s, allocated, bytes, now).out is Ok,
    ensures
        ({
            let r = l.file_written(d, s, allocated, bytes, now);
            let back = FileState { pos: s.pos, ..r.state };
            l.file_read(r.disk.img, back, bytes.len() as int) == Ok::<Seq<u8>, FsError<()>>(bytes)
        }),
{
    let all = law_write_then_content(l, d, s, allocated, cs, bytes, now);
    let r = l.file_written(d, s, allocated, bytes, now);
    let back = FileState { pos: s.pos, ..r.state };
    assert(l.file_content(r.disk.img, back, all) =~= l.file_content(r.disk.img, r.state, all));
    law_read_gives_content(l, r.disk.img, back, r.allocated, all, bytes.len() as int);
    assert(l.file_content(r.disk.img, r.state, all).subrange(
        s.pos as int,
        s.pos + bytes.len(),
    ) =~= bytes);
}

/// Lengthening a file adds zeros behind its contents; the cursor stays, the
/// file stays sound, and only clusters of the file and clusters that were free
/// are touched.
pub proof fn law_lengthened_content(
    l: FatLayout,
    d: FatDisk,
    s: FileState,
    allocated: u64,
    cs: Seq<u32>,
    size: u64,
    now: PrimitiveDateTime,
) -> (all: Seq<u32>)
    requires
        l.file_sound(d.img, s, allocated, cs),
        s.writable,
        size > s.len,
        l.file_resized(d, s, allocated, size, now).out is Ok,
    ensures
        ({
            let r = l.file_resized(d, s, allocated, size, now);
            &&& l.file_sound(r.disk.img, r.state, r.allocated, all)
            &&& r.state.len == size
            &&& r.state.pos == s.pos
            &&& l.file_content(r.disk.img, r.state, all) == l.file_content(d.img, s, cs) + zeros(
                size - s.len,
            )
            &&& drawn_from(l, d.img, cs, all)
            &&& l.touches_only(d.img, r.disk.img, members(all), l.cluster_bytes(all))
        }),
{
    let g = l.room_made(d, s, allocated, size as int);
    let all = lemma_room_made(l, d, s, allocated, cs, size as int);
    let none = Seq::<u8>::empty();
    lemma_stream_put(l, g.disk, g.state, g.allocated, all, s.valid_len as int, size as int, none);
    let r = l.file_resized(d, s, allocated, size, now);
    let old = l.file_content(d.img, s, cs);
    let a = r.disk.img;
    assert forall|i: int| 0 <= i < size implies l.file_content(a, r.state, all)[i] == (old + zeros(
        size - s.len,
    ))[i] by {
        if i < s.len {
            assert(l.file_content(g.disk.img, g.state, all)[i] == old[i]);
        }
    }
    assert(l.file_content(a, r.state, all) =~= old + zeros(size - s.len));
    lemma_touches_both(l, d.img, g.disk.img, a, all);
    all
}

/// Shortening a file keeps the contents up to the new length; the cursor
/// stays, the clusters no longer needed are free again, and no other cluster is
/// touched. A file keeps its first cluster.
pub proof fn law_shortened_content(
    l: FatLayout,
    d: FatDisk,
    s: FileState,
    allocated: u64,
    cs: Seq<u32>,
    size: u64,
    now: PrimitiveDateTime,
)
    requires
        l.file_sound(d.img, s, allocated, cs),
        s.writable,
        size < s.len <= u32::MAX,
    ensures
        ({
            let r = l.file_resized(d, s, allocated, size, now);
            let keep = if size == 0 {
                1
            } else {
                crate::num::ceil_div(size as int, l.props.cluster_size as int)
            };
            &&& r.out is Ok
            &&& 1 <= keep <= cs.len()
            &&& l.file_sound(r.disk.img, r.state, r.allocated, cs.subrange(0, keep))
            &&& l.all_free(r.disk.img, cs.subrange(keep, cs.len() as int))
            &&& r.state.len == size
            &&& r.state.pos == s.pos
            &&& l.file_content(r.disk.img, r.state, cs.subrange(0, keep)) == l.file_content(
                d.img,
                s,
                cs,
            ).subrange(0, size as int)
            &&& l.touches_only(d.img, r.disk.img, members(cs), set![])
        }),
{
    let e = Set::<int>::empty();
    lemma_cluster_size(l);
    if cs.len() == 0 {
        assert(0 * l.props.cluster_size == 0);
    }
    lemma_file_chain(l, d.img, cs[0], cs);
    law_file_cut(l, d, allocated, cs, size as int);
    let keep = if size == 0 {
        1
    } else {
        crate::num::ceil_div(size as int, l.props.cluster_size as int)
    };
    let head = cs.subrange(0, keep);
    assert(head[0] == cs[0]);
    let r = l.file_resized(d, s, allocated, size, now);
    let (x, a) = (d.img, r.disk.img);
    lemma_untouched(l, x, a, members(cs), e, 0);
    lemma_file_chain(l, a, cs[0], head);
    let csize = l.props.cluster_size as int;
    let n = cs.len() as int;
    assert(keep * csize <= n * csize) by (nonlinear_arith)
        requires
            keep <= n,
            csize > 0,
    ;
    assert forall|i: int| 0 <= i < size && i < s.valid_len implies l.stream_of(a, head)[i]
        == l.stream_of(x, cs)[i] by {
        lemma_stream_place(l, x, cs, i);
        lemma_stream_place(l, a, head, i);
        assert(head[i / csize] == cs[i / csize]);
        lemma_untouched(l, x, a, members(cs), e, l.stream_pos(cs, i));
    }
    assert(l.file_content(a, r.state, head) =~= l.file_content(x, s, cs).subrange(0, size as int));
}

} // verus!
