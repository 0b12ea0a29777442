//! What a file gives back of what was written to it.

use vstd::prelude::*;

use super::chains::{law_stream_read, law_stream_written, lemma_stream_byte, members};
use super::cluster_map::{lemma_whole_clusters, real_cluster, ExfatClusterMap};
use super::dir_laws::{lemma_guard_kept, lemma_members_joined};
use super::effects::{
    lemma_touches_more, lemma_touches_nothing, lemma_touches_then, lemma_untouched,
};
use super::file::{zeros, ExfatFileRun};
use super::growth::{lemma_distinct_fit, lemma_links_walk};
use super::layout::{lemma_unit_sizes, Disk, ExfatLayout};
use super::stream_laws::{
    consecutive, law_stream_cut, law_stream_extended, law_stream_started, none_in_use,
};
use crate::bytes::spliced;
use crate::calendar::PrimitiveDateTime;
use crate::error::FsError;
use crate::file::FileState;

verus! {

impl ExfatLayout {
    /// The device holds every cluster of the heap.
    pub open spec fn heap_on(self, img: Seq<u8>) -> bool {
        forall|c: int| self.in_heap(c) ==> #[trigger] self.cluster_on(img, c)
    }

    /// The contents of a file: its initialized prefix, then zeros.
    pub open spec fn file_content(self, img: Seq<u8>, s: FileState, cs: Seq<u32>) -> Seq<u8> {
        Seq::new(
            s.len as nat,
            |i: int|
                if i < s.valid_len {
                    self.stream_of(img, cs)[i]
                } else {
                    0
                },
        )
    }

    /// The file's clusters `cs` are in use, hold all of it and are what it
    /// says of itself. A file without clusters is empty.
    pub open spec fn file_sound(self, img: Seq<u8>, s: FileState, m: ExfatClusterMap, cs: Seq<u32>) -> bool {
        &&& self.heap_on(img)
        &&& s.valid_len <= s.len <= m.allocated_len
        &&& m.cluster_size == self.boot.cluster_bytes()
        &&& m.allocated_len == cs.len() * self.boot.cluster_bytes()
        &&& cs.len() == 0 ==> s.first_cluster < 2 && !m.no_fat_chain
        &&& cs.len() > 0 ==> {
            &&& s.first_cluster == cs[0]
            &&& m.first == cs[0]
            &&& self.holds_stream(img, cs, m.no_fat_chain)
        }
    }
}

/// Walking a contiguous stream gives its clusters.
proof fn lemma_run_walk(l: ExfatLayout, img: Seq<u8>, cs: Seq<u32>, i: int)
    requires
        l.wf(),
        consecutive(cs),
        forall|k: int| 0 <= k < cs.len() ==> l.in_heap((#[trigger] cs[k]) as int),
        0 <= i < cs.len(),
    ensures
        l.dir_walk(img, Some(cs[i]), true, cs.len() as int, i) == Ok::<Seq<u32>, FsError<()>>(
            cs.subrange(i, cs.len() as int),
        ),
    decreases cs.len() - i,
{
    let n = cs.len() as int;
    assert(l.in_heap(cs[i] as int));
    let next = l.successor(img, cs[i] as int, true)->Ok_0;
    if i + 1 < n {
        assert(cs[i + 1] == cs[0] + (i + 1) && cs[i] == cs[0] + i);
        assert(l.in_heap(cs[i + 1] as int));
        lemma_run_walk(l, img, cs, i + 1);
        assert(seq![cs[i]] + cs.subrange(i + 1, n) =~= cs.subrange(i, n));
    } else {
        assert(l.dir_walk(img, next, true, n, i + 1) == Ok::<Seq<u32>, FsError<()>>(seq![]));
        assert(seq![cs[i]] + Seq::<u32>::empty() =~= cs.subrange(i, n));
    }
}

/// The clusters that a sound file walks are its clusters, a sound stream.
pub proof fn lemma_file_clusters(
    l: ExfatLayout,
    img: Seq<u8>,
    s: FileState,
    m: ExfatClusterMap,
    cs: Seq<u32>,
)
    requires
        l.wf(),
        l.file_sound(img, s, m, cs),
        cs.len() > 0,
    ensures
        l.file_clusters(img, s, m) == Ok::<Seq<u32>, FsError<()>>(cs),
        l.stream_sound(img, cs),
        cs.len() <= l.boot.cluster_count,
{
    lemma_unit_sizes(l.boot);
    assert forall|i: int| 0 <= i < cs.len() implies l.in_heap((#[trigger] cs[i]) as int)
        && l.data_cluster(cs[i] as int) by {
        assert(l.data_cluster(cs[i] as int));
    }
    lemma_distinct_fit(l, cs);
    lemma_whole_clusters(cs.len() as int, l.boot.cluster_bytes());
    if m.no_fat_chain {
        lemma_run_walk(l, img, cs, 0);
        assert(cs.subrange(0, cs.len() as int) =~= cs);
    } else {
        lemma_links_walk(l, img, cs, cs.len() as int, 0);
    }
    assert(l.on_device(img, cs)) by {
        assert forall|k: int| 0 <= k < cs.len() implies l.boot.cluster_pos(
            (#[trigger] cs[k]) as int,
        ) + l.boot.cluster_bytes() <= img.len() by {
            assert(l.cluster_on(img, cs[k] as int));
        }
    }
}

/// Reading gives the contents from the cursor on, as far as they go.
pub proof fn law_read_gives_content(
    l: ExfatLayout,
    img: Seq<u8>,
    s: FileState,
    m: ExfatClusterMap,
    cs: Seq<u32>,
    n: int,
)
    requires
        l.wf(),
        l.file_sound(img, s, m, cs),
        0 <= n,
        s.pos < s.len,
    ensures
        l.file_read(img, s, m, n) == Ok::<Seq<u8>, FsError<()>>(
            l.file_content(img, s, cs).subrange(s.pos as int, s.pos + s.readable(n)),
        ),
{
    let all = s.readable(n);
    let k = s.initialized(all);
    let want = l.file_content(img, s, cs).subrange(s.pos as int, s.pos + all);
    if k == 0 {
        assert(zeros(all) =~= want);
    } else {
        lemma_unit_sizes(l.boot);
        assert(cs.len() > 0) by {
            if cs.len() == 0 {
                assert(0 * l.boot.cluster_bytes() == 0);
            }
        }
        lemma_file_clusters(l, img, s, m, cs);
        law_stream_read(l, img, cs, s.pos as int, k);
        assert(l.stream_of(img, cs).subrange(s.pos as int, s.pos + k) + zeros(all - k) =~= want);
    }
}

/// Each cluster of `all` is one of `cs` or was free.
pub open spec fn drawn_from(l: ExfatLayout, img: Seq<u8>, cs: Seq<u32>, all: Seq<u32>) -> bool {
    forall|i: int|
        0 <= i < all.len() ==> cs.contains(#[trigger] all[i]) || !l.allocated(img, all[i] as int)
}

/// What making room leaves: a sound volume, a sound file with room, and the
/// contents as they were.
pub open spec fn room_left(
    l: ExfatLayout,
    d: Disk,
    s: FileState,
    cs: Seq<u32>,
    needed: int,
    r: ExfatFileRun<()>,
    all: Seq<u32>,
) -> bool {
    &&& l.volume_sound(r.disk.img)
    &&& l.file_sound(r.disk.img, r.state, r.map, all)
    &&& l.file_content(r.disk.img, r.state, all) == l.file_content(d.img, s, cs)
    &&& r.map.allocated_len >= needed
    &&& r.state == (FileState {
        first_cluster: r.state.first_cluster,
        dirty: r.state.dirty,
        ..s
    })
    &&& needed > 0 ==> all.len() > 0
    &&& drawn_from(l, d.img, cs, all)
    &&& l.touches_only(d.img, r.disk.img, members(all), members(all), set![])
}

/// Growing a sound file leaves it sound and its contents as they were.
pub proof fn lemma_room_made(
    l: ExfatLayout,
    d: Disk,
    s: FileState,
    m: ExfatClusterMap,
    cs: Seq<u32>,
    needed: int,
) -> (all: Seq<u32>)
    requires
        l.volume_sound(d.img),
        l.file_sound(d.img, s, m, cs),
        0 <= needed,
        l.room_made(d, s, m, needed).out is Ok,
    ensures
        room_left(l, d, s, cs, needed, l.room_made(d, s, m, needed), all),
{
    if needed <= m.allocated_len {
        lemma_unit_sizes(l.boot);
        if cs.len() == 0 {
            assert(0 * l.boot.cluster_bytes() == 0);
        }
        lemma_touches_nothing(l, d.img, members(cs), members(cs), set![]);
        cs
    } else if cs.len() == 0 {
        assert(cs =~= seq![]);
        lemma_room_started(l, d, s, m, needed)
    } else {
        lemma_room_extended(l, d, s, m, cs, needed)
    }
}

/// Growing an empty file.
proof fn lemma_room_started(
    l: ExfatLayout,
    d: Disk,
    s: FileState,
    m: ExfatClusterMap,
    needed: int,
) -> (all: Seq<u32>)
    requires
        l.volume_sound(d.img),
        l.file_sound(d.img, s, m, seq![]),
        needed > m.allocated_len,
        l.room_made(d, s, m, needed).out is Ok,
    ensures
        room_left(l, d, s, seq![], needed, l.room_made(d, s, m, needed), all),
{
    let r = l.room_made(d, s, m, needed);
    assert(0 * l.boot.cluster_bytes() == 0);
    let none = Seq::<u32>::empty();
    assert(real_cluster(Some(s.first_cluster)) is None);
    let all = law_stream_started(l, d, m, Some(s.first_cluster), None, needed);
    lemma_untouched(l, d.img, r.disk.img, members(all), members(all), set![], 2);
    lemma_heap_kept(l, d.img, r.disk.img);
    assert(l.file_content(r.disk.img, r.state, all) =~= l.file_content(d.img, s, none));
    all
}

/// Growing a file that has clusters.
proof fn lemma_room_extended(
    l: ExfatLayout,
    d: Disk,
    s: FileState,
    m: ExfatClusterMap,
    cs: Seq<u32>,
    needed: int,
) -> (all: Seq<u32>)
    requires
        l.volume_sound(d.img),
        l.file_sound(d.img, s, m, cs),
        cs.len() > 0,
        needed > m.allocated_len,
        l.room_made(d, s, m, needed).out is Ok,
    ensures
        room_left(l, d, s, cs, needed, l.room_made(d, s, m, needed), all),
{
    let r = l.room_made(d, s, m, needed);
    let new = law_stream_extended(l, d, m, cs, None, needed);
    let all = cs + new;
    let cells = members(new).union(members(cs));
    assert(all[0] == cs[0]);
    lemma_file_clusters(l, d.img, s, m, cs);
    lemma_untouched(l, d.img, r.disk.img, cells, members(new), set![], 2);
    lemma_heap_kept(l, d.img, r.disk.img);
    lemma_content_kept(l, d.img, r.disk.img, s, r.state, cs, new, cells, members(new));
    lemma_members_joined(cs, new);
    lemma_touches_more(
        l,
        d.img,
        r.disk.img,
        cells,
        members(new),
        set![],
        members(all),
        members(all),
        set![],
    );
    assert forall|i: int| 0 <= i < all.len() implies cs.contains(#[trigger] all[i]) || !l.allocated(
        d.img,
        all[i] as int,
    ) by {
        if i < cs.len() {
            assert(all[i] == cs[i]);
        } else {
            assert(all[i] == new[i - cs.len()]);
        }
    }
    all
}

/// The heap stays on a device of the same size.
pub proof fn lemma_heap_kept(l: ExfatLayout, a: Seq<u8>, b: Seq<u8>)
    requires
        l.heap_on(a),
        a.len() == b.len(),
    ensures
        l.heap_on(b),
{
    assert forall|c: int| l.in_heap(c) implies #[trigger] l.cluster_on(b, c) by {
        assert(l.cluster_on(a, c));
    }
}

/// Clusters added behind a file do not change its contents.
proof fn lemma_content_kept(
    l: ExfatLayout,
    a: Seq<u8>,
    b: Seq<u8>,
    s: FileState,
    t: FileState,
    cs: Seq<u32>,
    new: Seq<u32>,
    cells: Set<int>,
    bits: Set<int>,
)
    requires
        l.wf(),
        l.stream_sound(a, cs),
        l.heap_on(b),
        l.all_in_use(b, cs + new),
        l.touches_only(a, b, cells, bits, set![]),
        s.valid_len <= s.len <= cs.len() * l.boot.cluster_bytes(),
        t.len == s.len,
        t.valid_len == s.valid_len,
    ensures
        l.file_content(b, t, cs + new) == l.file_content(a, s, cs),
{
    lemma_unit_sizes(l.boot);
    let all = cs + new;
    let cb = l.boot.cluster_bytes();
    assert(l.on_device(b, all)) by {
        assert forall|k: int| 0 <= k < all.len() implies l.boot.cluster_pos(
            (#[trigger] all[k]) as int,
        ) + cb <= b.len() by {
            assert(l.data_cluster(all[k] as int));
            assert(l.cluster_on(b, all[k] as int));
        }
    }
    let (n, m) = (cs.len() as int, new.len() as int);
    assert((n + m) * cb >= n * cb) by (nonlinear_arith)
        requires
            m >= 0,
            cb > 0,
    ;
    assert forall|i: int| 0 <= i < s.valid_len implies l.stream_of(b, all)[i] == l.stream_of(a, cs)[i] by {
        lemma_stream_byte(l, a, cs, i);
        lemma_stream_byte(l, b, all, i);
        let q = i / cb;
        assert(all[q] == cs[q]);
        assert(l.data_cluster(cs[q] as int));
        assert(l.cluster_on(a, cs[q] as int));
        lemma_untouched(l, a, b, cells, bits, set![], cs[q] as int);
    }
    assert(l.file_content(b, t, all) =~= l.file_content(a, s, cs));
}

/// Writing `bytes` at the cursor of a file: the contents are then what they
/// were, lengthened by zeros where the file grew, with the bytes in place; the
/// file and the volume stay sound; and only clusters of the file and clusters
/// that were free are touched.
pub proof fn law_write_then_content(
    l: ExfatLayout,
    d: Disk,
    s: FileState,
    m: ExfatClusterMap,
    cs: Seq<u32>,
    bytes: Seq<u8>,
    now: PrimitiveDateTime,
) -> (all: Seq<u32>)
    requires
        l.volume_sound(d.img),
        l.file_sound(d.img, s, m, cs),
        s.writable,
        0 < bytes.len() <= usize::MAX,
        l.file_written(d, s, m, bytes, now).out is Ok,
    ensures
        ({
            let r = l.file_written(d, s, m, bytes, now);
            let old = l.file_content(d.img, s, cs);
            let grown = old + zeros(r.state.len - s.len);
            &&& r.out->Ok_0 == bytes.len()
            &&& l.volume_sound(r.disk.img)
            &&& l.file_sound(r.disk.img, r.state, r.map, all)
            &&& r.state.len == (if s.pos + bytes.len() > s.len {
                s.pos + bytes.len()
            } else {
                s.len as int
            })
            &&& r.state.pos == s.pos + bytes.len()
            &&& l.file_content(r.disk.img, r.state, all) == spliced(grown, s.pos as int, bytes)
            &&& drawn_from(l, d.img, cs, all)
            &&& l.touches_only(d.img, r.disk.img, members(all), members(all), members(all))
        }),
{
    let end = s.pos + bytes.len();
    let g = l.room_made(d, s, m, end);
    let all = lemma_room_made(l, d, s, m, cs, end);
    let r = l.bytes_put(g.disk, g.state, g.map, bytes, now);
    lemma_bytes_put(l, g.disk, g.state, g.map, all, bytes, now);
    let (e, of) = (Set::<int>::empty(), members(all));
    lemma_touches_more(l, d.img, g.disk.img, of, of, e, of, of, of);
    lemma_touches_more(l, g.disk.img, r.disk.img, e, e, of, of, of, of);
    lemma_touches_then(l, d.img, g.disk.img, r.disk.img, of, of, of);
    all
}

/// Writing into a file that has room.
proof fn lemma_bytes_put(
    l: ExfatLayout,
    d: Disk,
    s: FileState,
    m: ExfatClusterMap,
    cs: Seq<u32>,
    bytes: Seq<u8>,
    now: PrimitiveDateTime,
)
    requires
        l.volume_sound(d.img),
        l.file_sound(d.img, s, m, cs),
        cs.len() > 0,
        0 < bytes.len() <= usize::MAX,
        s.pos + bytes.len() <= m.allocated_len,
        l.bytes_put(d, s, m, bytes, now).out is Ok,
    ensures
        ({
            let r = l.bytes_put(d, s, m, bytes, now);
            let grown = l.file_content(d.img, s, cs) + zeros(r.state.len - s.len);
            &&& r.out->Ok_0 == bytes.len()
            &&& l.volume_sound(r.disk.img)
            &&& l.file_sound(r.disk.img, r.state, r.map, cs)
            &&& l.file_content(r.disk.img, r.state, cs) == spliced(grown, s.pos as int, bytes)
            &&& l.touches_only(d.img, r.disk.img, set![], set![], members(cs))
        }),
{
    let e = Set::<int>::empty();
    lemma_file_clusters(l, d.img, s, m, cs);
    let gap = if s.pos > s.valid_len {
        s.pos - s.valid_len
    } else {
        0
    };
    let z = l.stream_written(d, cs, s.valid_len as int, zeros(gap));
    law_stream_written(l, d, cs, s.valid_len as int, zeros(gap));
    let w = l.stream_written(z.disk, cs, s.pos as int, bytes);
    law_stream_written(l, z.disk, cs, s.pos as int, bytes);
    let (x, y, a) = (d.img, z.disk.img, w.disk.img);
    lemma_touches_then(l, x, y, a, e, e, members(cs));
    lemma_guard_kept(l, x, a, e, e, members(cs));
    lemma_untouched(l, x, a, e, e, members(cs), 2);
    lemma_heap_kept(l, x, a);
    lemma_stream_held(l, x, a, cs, m.no_fat_chain);
    let r = l.bytes_put(d, s, m, bytes, now);
    let grown = l.file_content(x, s, cs) + zeros(r.state.len - s.len);
    let stream = l.stream_of(x, cs);
    assert(l.stream_of(a, cs) == spliced(
        spliced(stream, s.valid_len as int, zeros(gap)),
        s.pos as int,
        bytes,
    ));
    assert(stream.len() == cs.len() * l.boot.cluster_bytes());
    assert(l.file_content(a, r.state, cs) =~= spliced(grown, s.pos as int, bytes));
}

/// A stream of which only the bytes were touched is still held.
proof fn lemma_stream_held(l: ExfatLayout, a: Seq<u8>, b: Seq<u8>, cs: Seq<u32>, no_fat_chain: bool)
    requires
        l.bitmap_guarded(a),
        l.holds_stream(a, cs, no_fat_chain),
        l.touches_only(a, b, set![], set![], members(cs)),
    ensures
        l.holds_stream(b, cs, no_fat_chain),
{
    let e = Set::<int>::empty();
    assert forall|i: int| 0 <= i < cs.len() implies l.data_cluster((#[trigger] cs[i]) as int)
        && l.allocated(b, cs[i] as int) && l.fat_read(b, cs[i] as int) == l.fat_read(
        a,
        cs[i] as int,
    ) by {
        assert(l.data_cluster(cs[i] as int));
        assert(l.has_bit_on(a, cs[i] as int));
        lemma_untouched(l, a, b, e, e, members(cs), cs[i] as int);
    }
    if !no_fat_chain {
        assert(cs.last() == cs[cs.len() - 1]);
        assert forall|i: int| 0 <= i < cs.len() - 1 implies #[trigger] l.fat_read(b, cs[i] as int)
            == Ok::<super::direntry::FatEntry, FsError<()>>(
            super::direntry::FatEntry::Next(cs[i + 1]),
        ) by {
            assert(l.fat_read(a, cs[i] as int) == Ok::<super::direntry::FatEntry, FsError<()>>(
                super::direntry::FatEntry::Next(cs[i + 1]),
            ));
        }
    }
}

/// What was written is read back: a read of as many bytes from where the write
/// started gives the bytes written.
pub proof fn law_read_back(
    l: ExfatLayout,
    d: Disk,
    s: FileState,
    m: ExfatClusterMap,
    cs: Seq<u32>,
    bytes: Seq<u8>,
    now: PrimitiveDateTime,
)
    requires
        l.volume_sound(d.img),
        l.file_sound(d.img, s, m, cs),
        s.writable,
        0 < bytes.len() <= usize::MAX,
        l.file_written(d, s, m, bytes, now).out is Ok,
    ensures
        ({
            let r = l.file_written(d, s, m, bytes, now);
            let back = FileState { pos: s.pos, ..r.state };
            l.file_read(r.disk.img, back, r.map, bytes.len() as int) == Ok::<Seq<u8>, FsError<()>>(
                bytes,
            )
        }),
{
    let all = law_write_then_content(l, d, s, m, cs, bytes, now);
    let r = l.file_written(d, s, m, bytes, now);
    let back = FileState { pos: s.pos, ..r.state };
    assert(l.file_content(r.disk.img, back, all) =~= l.file_content(r.disk.img, r.state, all));
    law_read_gives_content(l, r.disk.img, back, r.map, all, bytes.len() as int);
    assert(l.file_content(r.disk.img, r.state, all).subrange(
        s.pos as int,
        s.pos + bytes.len(),
    ) =~= bytes);
}

/// Lengthening a file adds zeros behind its contents; the cursor stays, the
/// file and the volume stay sound, and only clusters of the file and clusters
/// that were free are touched.
pub proof fn law_lengthened_content(
    l: ExfatLayout,
    d: Disk,
    s: FileState,
    m: ExfatClusterMap,
    cs: Seq<u32>,
    size: u64,
    now: PrimitiveDateTime,
) -> (all: Seq<u32>)
    requires
        l.volume_sound(d.img),
        l.file_sound(d.img, s, m, cs),
        s.writable,
        size > s.len,
        l.file_resized(d, s, m, size, now).out is Ok,
    ensures
        ({
            let r = l.file_resized(d, s, m, size, now);
            &&& l.volume_sound(r.disk.img)
            &&& l.file_sound(r.disk.img, r.state, r.map, all)
            &&& r.state.len == size
            &&& r.state.pos == s.pos
            &&& l.file_content(r.disk.img, r.state, all) == l.file_content(d.img, s, cs) + zeros(
                size - s.len,
            )
            &&& drawn_from(l, d.img, cs, all)
            &&& l.touches_only(d.img, r.disk.img, members(all), members(all), set![])
        }),
{
    let g = l.room_made(d, s, m, size as int);
    let all = lemma_room_made(l, d, s, m, cs, size as int);
    let r = l.file_resized(d, s, m, size, now);
    let old = l.file_content(d.img, s, cs);
    assert(l.file_content(r.disk.img, r.state, all) =~= old + zeros(size - s.len)) by {
        assert forall|i: int| 0 <= i < size implies l.file_content(r.disk.img, r.state, all)[i]
            == (old + zeros(size - s.len))[i] by {
            if i < s.len {
                assert(l.file_content(g.disk.img, g.state, all)[i] == old[i]);
            }
        }
    }
    all
}

/// Shortening a file keeps the contents up to the new length; the cursor
/// stays, the clusters no longer needed are free again, and no other cluster is
/// touched. The file's last cluster must not be marked bad.
pub proof fn law_shortened_content(
    l: ExfatLayout,
    d: Disk,
    s: FileState,
    m: ExfatClusterMap,
    cs: Seq<u32>,
    size: u64,
    now: PrimitiveDateTime,
)
    requires
        l.volume_sound(d.img),
        l.file_sound(d.img, s, m, cs),
        s.writable,
        size < s.len,
        cs.len() > 0 && !m.no_fat_chain ==> l.fat_entry(d.img, cs.last() as int)
            != super::direntry::FatEntry::Bad,
        l.file_resized(d, s, m, size, now).out is Ok,
    ensures
        ({
            let r = l.file_resized(d, s, m, size, now);
            let keep = crate::num::ceil_div(size as int, l.boot.cluster_bytes());
            &&& 0 <= keep <= cs.len()
            &&& l.file_sound(r.disk.img, r.state, r.map, cs.subrange(0, keep))
            &&& none_in_use(l, r.disk.img, cs.subrange(keep, cs.len() as int))
            &&& r.state.len == size
            &&& r.state.pos == s.pos
            &&& l.file_content(r.disk.img, r.state, cs.subrange(0, keep)) == l.file_content(
                d.img,
                s,
                cs,
            ).subrange(0, size as int)
            &&& l.touches_only(d.img, r.disk.img, members(cs), members(cs), set![])
        }),
{
    lemma_unit_sizes(l.boot);
    let cb = l.boot.cluster_bytes();
    let n = cs.len() as int;
    if n == 0 {
        assert(0 * cb == 0);
    }
    law_stream_cut(l, d, m, cs, size as int);
    lemma_file_clusters(l, d.img, s, m, cs);
    let r = l.file_resized(d, s, m, size, now);
    let keep = crate::num::ceil_div(size as int, cb);
    assert(size <= keep * cb) by (nonlinear_arith)
        requires
            keep == (size + cb - 1) / cb,
            cb > 0,
    ;
    let head = cs.subrange(0, keep);
    let (x, a) = (d.img, r.disk.img);
    lemma_untouched(l, x, a, members(cs), members(cs), set![], 2);
    lemma_heap_kept(l, x, a);
    lemma_cut_map(l, d, m, cs, size as int, keep);
    if keep > 0 {
        assert(head[0] == cs[0]);
        lemma_file_clusters(l, a, r.state, r.map, head);
        assert forall|i: int| 0 <= i < size && i < s.valid_len implies l.stream_of(a, head)[i]
            == l.stream_of(x, cs)[i] by {
            assert(keep * cb <= n * cb) by (nonlinear_arith)
                requires
                    keep <= n,
                    cb > 0,
            ;
            lemma_stream_byte(l, x, cs, i);
            lemma_stream_byte(l, a, head, i);
            let q = i / cb;
            assert(head[q] == cs[q]);
            assert(l.data_cluster(cs[q] as int));
            assert(l.cluster_on(x, cs[q] as int));
            lemma_untouched(l, x, a, members(cs), members(cs), set![], cs[q] as int);
        }
    }
    assert(l.file_content(a, r.state, head) =~= l.file_content(x, s, cs).subrange(0, size as int));
}

/// What cutting a stream leaves of its map.
proof fn lemma_cut_map(
    l: ExfatLayout,
    d: Disk,
    m: ExfatClusterMap,
    cs: Seq<u32>,
    keep_len: int,
    keep: int,
)
    requires
        cs.len() > 0,
        cs[0] >= 2,
        m.cluster_size == l.boot.cluster_bytes(),
        m.cluster_size > 0,
        m.allocated_len == cs.len() * l.boot.cluster_bytes(),
        cs.len() <= u32::MAX,
        0 <= keep_len <= m.allocated_len,
        keep == crate::num::ceil_div(keep_len, l.boot.cluster_bytes()),
        0 <= keep <= cs.len(),
        l.tail_freed(d, m, cs[0], keep_len).out is Ok,
    ensures
        ({
            let r = l.tail_freed(d, m, cs[0], keep_len);
            &&& r.map.cluster_size == m.cluster_size
            &&& r.map.first == m.first
            &&& keep == 0 ==> !r.map.no_fat_chain
        }),
{
    lemma_whole_clusters(cs.len() as int, l.boot.cluster_bytes());
}

} // verus!
