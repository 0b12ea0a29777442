//! What entry sets that were written read back as, wherever their directory lies.

use vstd::prelude::*;

use super::chains::{lemma_stream_byte, lemma_walk_distinct, lemma_walk_kept};
use super::dir_edit::end_slot;
use super::dir_slot::{
    law_patched_set_decodes, law_replaced_user_bits, patched_fields, patched_set, USER_BITS,
};
use super::direntry::{decoded_set, DirExtent, EntryFields, SetLoc};
use super::entry_laws::{clean_end, walk_of};
use super::layout::{lemma_unit_sizes, Disk, ExfatLayout};
use super::listing_laws::{law_append_adds_entry, shown};
use super::readdir::{fits_volume, listed, placed};
use super::regions::{is_flag_place, lemma_cluster_places, lemma_written_frame};
use crate::attrs::{has_bits, DIRECTORY};
use crate::bytes::spliced;
use crate::entry_times::EntryTimes;
use crate::error::FsError;
use crate::vfs::EntryPatch;

verus! {

impl ExfatLayout {
    /// Every cluster of the list is one of the volume's, and none comes twice.
    pub open spec fn apart_in_heap(self, cs: Seq<u32>) -> bool {
        &&& cs.no_duplicates()
        &&& forall|i: int| 0 <= i < cs.len() ==> self.in_heap((#[trigger] cs[i]) as int)
    }

    /// The `len` bytes from byte `logical` of the stream that `cs` form lie in
    /// the stream's clusters and within the device.
    spec fn reaches(self, img: Seq<u8>, cs: Seq<u32>, logical: int, len: int) -> bool {
        forall|i: int| logical <= i < logical + len ==> #[trigger] self.has_byte(img, cs, i)
    }

    /// Byte `i` of the stream that `cs` form lies in one of the stream's
    /// clusters and within the device.
    spec fn has_byte(self, img: Seq<u8>, cs: Seq<u32>, i: int) -> bool {
        i / self.boot.cluster_bytes() < cs.len() && self.stream_pos(cs, i) < img.len()
    }
}

/// A byte of a stream lies in the heap, and two bytes lie at two places.
proof fn lemma_stream_places(l: ExfatLayout, cs: Seq<u32>, i: int, j: int)
    requires
        l.boot.valid_shifts(),
        l.apart_in_heap(cs),
        0 <= i,
        0 <= j,
        i / l.boot.cluster_bytes() < cs.len(),
        j / l.boot.cluster_bytes() < cs.len(),
    ensures
        l.heap_start() <= l.stream_pos(cs, i),
        i != j ==> l.stream_pos(cs, i) != l.stream_pos(cs, j),
{
    lemma_unit_sizes(l.boot);
    let cb = l.boot.cluster_bytes();
    vstd::arithmetic::div_mod::lemma_fundamental_div_mod(i, cb);
    vstd::arithmetic::div_mod::lemma_fundamental_div_mod(j, cb);
    vstd::arithmetic::div_mod::lemma_mod_bound(i, cb);
    vstd::arithmetic::div_mod::lemma_mod_bound(j, cb);
    vstd::arithmetic::div_mod::lemma_div_pos_is_pos(i, cb);
    vstd::arithmetic::div_mod::lemma_div_pos_is_pos(j, cb);
    let (x, y) = (cs[i / cb] as int, cs[j / cb] as int);
    assert(l.in_heap(x) && l.in_heap(y));
    lemma_cluster_places(l, x, y);
}

/// The bytes of one chunk lie side by side.
proof fn lemma_chunk_places(l: ExfatLayout, cs: Seq<u32>, logical: int, len: int, i: int)
    requires
        l.boot.valid_shifts(),
        0 <= logical,
        0 <= i < l.span_at(logical, len),
    ensures
        (logical + i) / l.boot.cluster_bytes() == logical / l.boot.cluster_bytes(),
        l.stream_pos(cs, logical + i) == l.stream_pos(cs, logical) + i,
{
    lemma_unit_sizes(l.boot);
    let cb = l.boot.cluster_bytes();
    vstd::arithmetic::div_mod::lemma_fundamental_div_mod(logical, cb);
    vstd::arithmetic::div_mod::lemma_mod_bound(logical, cb);
    vstd::arithmetic::div_mod::lemma_fundamental_div_mod_converse(
        logical + i,
        cb,
        logical / cb,
        logical % cb + i,
    );
}

/// A successful write to a stream puts the bytes where the stream has them, and
/// changes nothing else but the boot fields that change in place.
proof fn lemma_stream_bytes_written(
    l: ExfatLayout,
    d: Disk,
    cs: Seq<u32>,
    logical: int,
    bytes: Seq<u8>,
)
    requires
        l.boot.valid_shifts(),
        l.regions_apart(),
        l.apart_in_heap(cs),
        0 <= logical,
        l.stream_written(d, cs, logical, bytes).out is Ok,
    ensures
        ({
            let a = l.stream_written(d, cs, logical, bytes).disk.img;
            let n = logical + bytes.len();
            &&& a.len() == d.img.len()
            &&& l.reaches(a, cs, logical, bytes.len() as int)
            &&& forall|i: int|
                logical <= i < n ==> a[#[trigger] l.stream_pos(cs, i)] == bytes[i - logical]
            &&& forall|j: int|
                0 <= j < a.len() && !is_flag_place(j) && (forall|i: int|
                    logical <= i < n ==> #[trigger] l.stream_pos(cs, i) != j) ==> #[trigger] a[j]
                    == d.img[j]
        }),
    decreases bytes.len(),
{
    lemma_unit_sizes(l.boot);
    let cb = l.boot.cluster_bytes();
    vstd::arithmetic::div_mod::lemma_mod_bound(logical, cb);
    let chunk = l.span_at(logical, bytes.len() as int);
    if bytes.len() > 0 {
        let pos = l.stream_pos(cs, logical);
        let head = bytes.subrange(0, chunk);
        let tail = bytes.subrange(chunk, bytes.len() as int);
        let w = l.written(d, pos, head);
        lemma_stream_places(l, cs, logical, logical);
        lemma_cluster_places(l, 2, 2);
        lemma_written_frame(l, d, pos, head);
        lemma_stream_bytes_written(l, w.disk, cs, logical + chunk, tail);
        let a = l.stream_written(w.disk, cs, logical + chunk, tail).disk.img;
        let n = logical + bytes.len();
        assert forall|i: int| logical <= i < n implies #[trigger] l.has_byte(a, cs, i) && a[l.stream_pos(
            cs,
            i,
        )] == bytes[i - logical] by {
            if i < logical + chunk {
                lemma_chunk_places(l, cs, logical, bytes.len() as int, i - logical);
                let p = l.stream_pos(cs, i);
                lemma_stream_places(l, cs, i, i);
                assert forall|k: int| logical + chunk <= k < n implies #[trigger] l.stream_pos(cs, k)
                    != p by {
                    assert(l.has_byte(a, cs, k));
                    lemma_stream_places(l, cs, k, i);
                }
                assert(a[p] == w.disk.img[p]);
                assert(w.disk.img[p] == head[p - pos]);
            } else {
                assert(tail[i - (logical + chunk)] == bytes[i - logical]);
            }
        }
        assert forall|i: int| logical <= i < n implies a[#[trigger] l.stream_pos(cs, i)] == bytes[i
            - logical] by {
            assert(l.has_byte(a, cs, i));
        }
        assert forall|j: int|
            0 <= j < a.len() && !is_flag_place(j) && (forall|i: int|
                logical <= i < n ==> #[trigger] l.stream_pos(cs, i) != j) implies #[trigger] a[j]
            == d.img[j] by {
            if pos <= j < pos + chunk {
                lemma_chunk_places(l, cs, logical, bytes.len() as int, j - pos);
                assert(l.stream_pos(cs, logical + (j - pos)) == j);
            }
            assert(a[j] == w.disk.img[j]);
        }
    }
}

/// Reading from a stream gives the bytes that the stream has there.
proof fn lemma_stream_bytes_read(l: ExfatLayout, img: Seq<u8>, cs: Seq<u32>, logical: int, len: int)
    requires
        l.boot.valid_shifts(),
        0 <= logical,
        0 <= len,
        l.reaches(img, cs, logical, len),
    ensures
        l.stream_read(img, cs, logical, len) == Ok::<Seq<u8>, FsError<()>>(
            Seq::new(len as nat, |i: int| img[l.stream_pos(cs, logical + i)]),
        ),
    decreases len,
{
    lemma_unit_sizes(l.boot);
    let cb = l.boot.cluster_bytes();
    vstd::arithmetic::div_mod::lemma_mod_bound(logical, cb);
    let chunk = l.span_at(logical, len);
    let all = Seq::new(len as nat, |i: int| img[l.stream_pos(cs, logical + i)]);
    if len > 0 {
        let pos = l.stream_pos(cs, logical);
        lemma_chunk_places(l, cs, logical, len, chunk - 1);
        assert(l.has_byte(img, cs, logical + (chunk - 1)));
        lemma_stream_bytes_read(l, img, cs, logical + chunk, len - chunk);
        let head = img.subrange(pos, pos + chunk);
        let rest = Seq::new((len - chunk) as nat, |i: int| img[l.stream_pos(cs, logical + chunk + i)]);
        assert forall|i: int| 0 <= i < chunk implies #[trigger] head[i] == all[i] by {
            lemma_chunk_places(l, cs, logical, len, i);
        }
        assert(head + rest =~= all);
        vstd::arithmetic::div_mod::lemma_div_pos_is_pos(logical, cb);
    } else {
        assert(all =~= Seq::<u8>::empty());
    }
}

/// What a successful read from a stream gives has the length asked for.
proof fn lemma_stream_read_len(l: ExfatLayout, img: Seq<u8>, cs: Seq<u32>, logical: int, len: int)
    requires
        l.boot.valid_shifts(),
        0 <= len,
    ensures
        l.stream_read(img, cs, logical, len) matches Ok(s) ==> s.len() == len,
    decreases len,
{
    lemma_unit_sizes(l.boot);
    vstd::arithmetic::div_mod::lemma_mod_bound(logical, l.boot.cluster_bytes());
    let chunk = l.span_at(logical, len);
    if len > 0 {
        lemma_stream_read_len(l, img, cs, logical + chunk, len - chunk);
    }
}

/// Writing to a stream leaves the FAT as it was.
proof fn lemma_cell_kept(
    l: ExfatLayout,
    d: Disk,
    cs: Seq<u32>,
    logical: int,
    bytes: Seq<u8>,
    c: int,
)
    requires
        l.boot.valid_shifts(),
        l.regions_apart(),
        l.apart_in_heap(cs),
        l.in_heap(c),
        0 <= logical,
        l.stream_written(d, cs, logical, bytes).out is Ok,
    ensures
        l.fat_read(l.stream_written(d, cs, logical, bytes).disk.img, c) == l.fat_read(d.img, c),
{
    let a = l.stream_written(d, cs, logical, bytes).disk.img;
    lemma_stream_bytes_written(l, d, cs, logical, bytes);
    let p = l.boot.fat_pos(c);
    assert(113 <= p && p + 4 <= l.heap_start());
    assert forall|j: int| p <= j < p + 4 && j < a.len() implies #[trigger] a[j] == d.img[j] by {
        assert forall|k: int| logical <= k < logical + bytes.len() implies #[trigger] l.stream_pos(
            cs,
            k,
        ) != j by {
            assert(l.has_byte(a, cs, k));
            lemma_stream_places(l, cs, k, k);
        }
    }
    if p + 4 <= a.len() {
        assert(a[p] == d.img[p] && a[p + 1] == d.img[p + 1] && a[p + 2] == d.img[p + 2] && a[p + 3]
            == d.img[p + 3]);
    }
}

/// What was written to a stream is read back from it.
proof fn lemma_stream_read_back(l: ExfatLayout, d: Disk, cs: Seq<u32>, logical: int, bytes: Seq<u8>)
    requires
        l.boot.valid_shifts(),
        l.regions_apart(),
        l.apart_in_heap(cs),
        0 <= logical,
        l.stream_written(d, cs, logical, bytes).out is Ok,
    ensures
        l.stream_read(
            l.stream_written(d, cs, logical, bytes).disk.img,
            cs,
            logical,
            bytes.len() as int,
        ) == Ok::<Seq<u8>, FsError<()>>(bytes),
{
    let a = l.stream_written(d, cs, logical, bytes).disk.img;
    lemma_stream_bytes_written(l, d, cs, logical, bytes);
    lemma_stream_bytes_read(l, a, cs, logical, bytes.len() as int);
    let back = Seq::new(bytes.len(), |i: int| a[l.stream_pos(cs, logical + i)]);
    assert(back =~= bytes);
}

/// A directory walk goes as before once its stream was written to.
pub proof fn lemma_walk_after_write(
    l: ExfatLayout,
    d: Disk,
    first: u32,
    no_fat_chain: bool,
    max: int,
    logical: int,
    bytes: Seq<u8>,
)
    requires
        l.boot.valid_shifts(),
        l.regions_apart(),
        0 <= logical,
        l.dir_clusters(d.img, first, no_fat_chain, max) matches Ok(cs) && l.apart_in_heap(cs)
            && l.stream_written(d, cs, logical, bytes).out is Ok,
    ensures
        ({
            let cs = l.dir_clusters(d.img, first, no_fat_chain, max)->Ok_0;
            let a = l.stream_written(d, cs, logical, bytes).disk.img;
            l.dir_clusters(a, first, no_fat_chain, max) == Ok::<Seq<u32>, FsError<()>>(cs)
        }),
{
    let cs = l.dir_clusters(d.img, first, no_fat_chain, max)->Ok_0;
    let a = l.stream_written(d, cs, logical, bytes).disk.img;
    assert forall|i: int| 0 <= i < cs.len() implies l.fat_read(a, (#[trigger] cs[i]) as int)
        == l.fat_read(d.img, cs[i] as int) by {
        lemma_cell_kept(l, d, cs, logical, bytes, cs[i] as int);
    }
    lemma_walk_kept(l, d.img, a, Some(first), no_fat_chain, max, 0);
}

/// An entry set that was written reads back as it was written, in any directory
/// that starts at one of the volume's clusters.
pub proof fn law_written_set_reads_back(l: ExfatLayout, d: Disk, loc: SetLoc, bytes: Seq<u8>)
    requires
        l.wf(),
        l.regions_apart(),
        l.in_heap(loc.dir_first_cluster as int),
        bytes.len() == loc.len,
        l.set_written(d, loc, bytes).out is Ok,
    ensures
        l.set_read(l.set_written(d, loc, bytes).disk.img, loc) == Ok::<Seq<u8>, FsError<()>>(bytes),
{
    let (first, nfc, max) = (loc.dir_first_cluster, loc.dir_no_fat_chain, loc.dir_max_clusters as int);
    let cs = l.dir_clusters(d.img, first, nfc, max)->Ok_0;
    lemma_walk_distinct(l, d.img, Some(first), nfc, max, 0);
    lemma_walk_after_write(l, d, first, nfc, max, loc.logical as int, bytes);
    lemma_stream_read_back(l, d, cs, loc.logical as int, bytes);
}

/// Patching the entry set at `loc`, in any directory that starts at one of the
/// volume's clusters: the set there then reads back as patched and decodes to
/// the entry with the patch applied. Its name, its directory bit and its
/// reserved attribute bits are as before, and its valid length is within its
/// data length where that was so before.
pub proof fn law_patch_read_back(
    l: ExfatLayout,
    d: Disk,
    loc: SetLoc,
    set: Seq<u8>,
    e: EntryFields,
    patch: EntryPatch,
    times: EntryTimes,
)
    requires
        l.wf(),
        l.regions_apart(),
        l.in_heap(loc.dir_first_cluster as int),
        l.set_read(d.img, loc) == Ok::<Seq<u8>, FsError<()>>(set),
        decoded_set(set) == Some(e),
        times.wf(),
        l.entry_patched(d, loc, patch, times).out is Ok,
    ensures
        ({
            let a = l.entry_patched(d, loc, patch, times).disk.img;
            let p = patched_fields(e, patch, times);
            &&& l.set_read(a, loc) == Ok::<Seq<u8>, FsError<()>>(patched_set(set, patch, times))
            &&& decoded_set(patched_set(set, patch, times)) == Some(p)
            &&& p.name == e.name
            &&& has_bits(p.attributes, DIRECTORY) == has_bits(e.attributes, DIRECTORY)
            &&& p.attributes & !USER_BITS == e.attributes & !USER_BITS
            &&& e.valid_data_length <= e.data_length ==> p.valid_data_length <= p.data_length
        }),
{
    let cs = l.dir_clusters(
        d.img,
        loc.dir_first_cluster,
        loc.dir_no_fat_chain,
        loc.dir_max_clusters as int,
    )->Ok_0;
    lemma_stream_read_len(l, d.img, cs, loc.logical as int, loc.len as int);
    law_patched_set_decodes(set, e, patch, times);
    law_written_set_reads_back(l, d, loc, patched_set(set, patch, times));
    if let Some(a) = patch.attrs {
        law_replaced_user_bits(e.attributes, a);
    }
}

/// A write within a stream that lies on the device succeeds.
pub proof fn lemma_stream_write_succeeds(
    l: ExfatLayout,
    d: Disk,
    cs: Seq<u32>,
    logical: int,
    bytes: Seq<u8>,
)
    requires
        l.boot.valid_shifts(),
        l.regions_apart(),
        l.apart_in_heap(cs),
        l.on_device(d.img, cs),
        0 <= logical,
        logical + bytes.len() <= cs.len() * l.boot.cluster_bytes(),
    ensures
        l.stream_written(d, cs, logical, bytes).out is Ok,
    decreases bytes.len(),
{
    lemma_unit_sizes(l.boot);
    let cb = l.boot.cluster_bytes();
    vstd::arithmetic::div_mod::lemma_mod_bound(logical, cb);
    let chunk = l.span_at(logical, bytes.len() as int);
    if bytes.len() > 0 {
        lemma_stream_byte(l, d.img, cs, logical);
        let c = cs[logical / cb] as int;
        assert(l.boot.cluster_pos(c) + cb <= d.img.len());
        assert(l.in_heap(c));
        lemma_cluster_places(l, c, c);
        let pos = l.stream_pos(cs, logical);
        let w = l.written(d, pos, bytes.subrange(0, chunk));
        lemma_written_frame(l, d, pos, bytes.subrange(0, chunk));
        lemma_stream_write_succeeds(
            l,
            w.disk,
            cs,
            logical + chunk,
            bytes.subrange(chunk, bytes.len() as int),
        );
    }
}

/// A stream on the device after a write to it.
pub proof fn lemma_stream_after_write(
    l: ExfatLayout,
    d: Disk,
    cs: Seq<u32>,
    logical: int,
    bytes: Seq<u8>,
)
    requires
        l.boot.valid_shifts(),
        l.regions_apart(),
        l.apart_in_heap(cs),
        l.on_device(d.img, cs),
        0 <= logical,
        logical + bytes.len() <= cs.len() * l.boot.cluster_bytes(),
        l.stream_written(d, cs, logical, bytes).out is Ok,
    ensures
        ({
            let a = l.stream_written(d, cs, logical, bytes).disk.img;
            &&& l.on_device(a, cs)
            &&& l.stream_of(a, cs) == spliced(l.stream_of(d.img, cs), logical, bytes)
        }),
{
    lemma_unit_sizes(l.boot);
    let cb = l.boot.cluster_bytes();
    let a = l.stream_written(d, cs, logical, bytes).disk.img;
    let before = l.stream_of(d.img, cs);
    lemma_stream_bytes_written(l, d, cs, logical, bytes);
    lemma_cluster_places(l, 2, 2);
    assert forall|i: int| 0 <= i < cs.len() * cb implies #[trigger] l.stream_of(a, cs)[i] == spliced(
        before,
        logical,
        bytes,
    )[i] by {
        lemma_stream_byte(l, d.img, cs, i);
        let p = l.stream_pos(cs, i);
        assert(l.boot.cluster_pos(cs[i / cb] as int) + cb <= d.img.len());
        lemma_stream_places(l, cs, i, i);
        if !(logical <= i < logical + bytes.len()) {
            assert forall|k: int| logical <= k < logical + bytes.len() implies #[trigger] l.stream_pos(
                cs,
                k,
            ) != p by {
                assert(l.has_byte(a, cs, k));
                lemma_stream_places(l, cs, k, i);
            }
            assert(a[p] == d.img[p]);
        }
    }
    assert(l.stream_of(a, cs) =~= spliced(before, logical, bytes));
}

/// Appending an entry set that fits in what a directory has, in any directory
/// that starts at one of the volume's clusters: it succeeds, the directory has
/// the same clusters, and its stream is as before but for the set at its old
/// end. Where nothing is left behind that end, the listing is the old one
/// followed by the new entry.
pub proof fn law_append_in_place(
    l: ExfatLayout,
    d: Disk,
    ext: DirExtent,
    cs: Seq<u32>,
    buf: Seq<u8>,
    set: Seq<u8>,
    e: EntryFields,
)
    requires
        l.wf(),
        l.regions_apart(),
        l.in_heap(ext.first_cluster as int),
        l.dir_read(d.img, ext.first_cluster, ext.no_fat_chain, ext.max_clusters as int) == Ok::<
            (Seq<u32>, Seq<u8>),
            FsError<()>,
        >((cs, buf)),
        end_slot(buf, 0) + set.len() <= buf.len(),
        decoded_set(set) == Some(e),
        fits_volume(l.boot, e),
    ensures
        ({
            let r = l.set_appended(d, ext, set);
            let end = end_slot(buf, 0);
            &&& r.out is Ok
            &&& l.dir_read(r.disk.img, ext.first_cluster, ext.no_fat_chain, ext.max_clusters as int)
                == Ok::<(Seq<u32>, Seq<u8>), FsError<()>>((cs, spliced(buf, end, set)))
            &&& clean_end(buf, set.len() as int) ==> l.listing(r.disk.img, ext) == Ok::<
                Seq<EntryFields>,
                FsError<()>,
            >(l.listing(d.img, ext)->Ok_0.push(placed(e, walk_of(ext), end)))
        }),
{
    let (first, nfc, max) = (ext.first_cluster, ext.no_fat_chain, ext.max_clusters as int);
    let end = end_slot(buf, 0);
    super::dir_edit::lemma_end_slot_bounds(buf, 0);
    lemma_walk_distinct(l, d.img, Some(first), nfc, max, 0);
    lemma_stream_write_succeeds(l, d, cs, end, set);
    lemma_stream_after_write(l, d, cs, end, set);
    lemma_walk_after_write(l, d, first, nfc, max, end, set);
    lemma_unit_sizes(l.boot);
    let (n, cb) = (cs.len() as int, l.boot.cluster_bytes());
    let k = cb / 32;
    assert(n * cb == (n * k) * 32) by (nonlinear_arith)
        requires
            cb == 32 * k,
    ;
    vstd::arithmetic::div_mod::lemma_mod_multiples_basic(n * k, 32);
    law_append_adds_entry(l.boot, walk_of(ext), buf, 0, set, e);
    assert(buf + Seq::new(0, |i: int| 0u8) =~= buf);
    let old = listed(l.boot, walk_of(ext), buf);
    assert(old + shown(l.boot, walk_of(ext), e, end) + Seq::<EntryFields>::empty() =~= old.push(
        placed(e, walk_of(ext), end),
    ));
}

} // verus!
