//! Allocation-bitmap helpers.

use vstd::prelude::*;

use super::direntry::FatEntry;
use super::layout::{beyond_device, ends_as, reads_as, Disk, ExfatLayout, Run};
use super::volume::ExfatVfs;
use crate::device::Device;
use crate::error::{CorruptKind, FsError};
use crate::num::{ceil_div, div_ceil_u64};

verus! {

/// Window size for streaming allocation-bitmap scans, so a multi-TB
/// volume's bitmap (tens of MB) is never loaded whole.
pub const BITMAP_WINDOW: usize = 512;

/// Bit `k` of `b`, lowest first.
pub open spec fn bit_of(b: u8, k: u8) -> bool {
    (b >> k) & 1 == 1
}

/// `b` with bit `k` set or cleared.
pub open spec fn with_bit(b: u8, k: u8, on: bool) -> u8 {
    if on {
        b | (1u8 << k)
    } else {
        b & !(1u8 << k)
    }
}

/// Setting or clearing a bit makes it read so and leaves the other bits.
pub proof fn law_with_bit(b: u8, k: u8, j: u8, on: bool)
    requires
        k < 8,
        j < 8,
    ensures
        bit_of(with_bit(b, k, on), j) == (if j == k {
            on
        } else {
            bit_of(b, j)
        }),
{
    assert(k < 8 && j < 8 ==> (((b | (1u8 << k)) >> j) & 1 == 1) == (j == k || (b >> j) & 1 == 1)
        && (((b & !(1u8 << k)) >> j) & 1 == 1) == (j != k && (b >> j) & 1 == 1)) by (bit_vector);
}

/// A byte without a clear bit is `0xFF`.
proof fn lemma_full_byte(b: u8)
    ensures
        b == 0xFF <==> (forall|k: u8| k < 8 ==> bit_of(b, k)),
{
    if b == 0xFF {
        assert forall|k: u8| k < 8 implies bit_of(b, k) by {
            assert(b == 0xFF && k < 8 ==> (b >> k) & 1 == 1) by (bit_vector);
        }
    } else {
        assert(b != 0xFF ==> (b >> 0) & 1 != 1 || (b >> 1) & 1 != 1 || (b >> 2) & 1 != 1 || (b >> 3)
            & 1 != 1 || (b >> 4) & 1 != 1 || (b >> 5) & 1 != 1 || (b >> 6) & 1 != 1 || (b >> 7) & 1
            != 1) by (bit_vector);
        assert(!bit_of(b, 0) || !bit_of(b, 1) || !bit_of(b, 2) || !bit_of(b, 3) || !bit_of(b, 4)
            || !bit_of(b, 5) || !bit_of(b, 6) || !bit_of(b, 7));
    }
}

impl ExfatLayout {
    /// Byte offset of the bitmap.
    pub open spec fn bitmap_pos(self) -> int {
        self.boot.cluster_pos(self.bitmap.first_cluster as int)
    }

    /// Number of bitmap bytes that cover the cluster heap.
    pub open spec fn bitmap_span(self) -> int {
        ceil_div(self.boot.cluster_count as int, 8)
    }

    /// Byte offset of the bitmap byte that holds the bit of `cluster`.
    pub open spec fn bit_pos(self, cluster: int) -> int {
        self.bitmap_pos() + (cluster - 2) / 8
    }

    /// The bitmap says that `cluster` is in use.
    pub open spec fn allocated(self, img: Seq<u8>, cluster: int) -> bool {
        bit_of(img[self.bit_pos(cluster)], ((cluster - 2) % 8) as u8)
    }

    /// The first cluster from `from` on that the bitmap says is free.
    pub open spec fn free_from(self, img: Seq<u8>, from: int) -> Option<int>
        decreases self.boot.cluster_count + 2 - from,
    {
        if from > self.boot.cluster_count + 1 {
            None
        } else if !self.allocated(img, from) {
            Some(from)
        } else {
            self.free_from(img, from + 1)
        }
    }

    /// The clusters `s..s + count` are all free.
    pub open spec fn run_free(self, img: Seq<u8>, s: int, count: int) -> bool {
        &&& s + count - 1 <= self.boot.cluster_count + 1
        &&& forall|c: int| s <= c < s + count ==> !#[trigger] self.allocated(img, c)
    }

    /// The first run of `count` free clusters that starts at `from` or later.
    pub open spec fn run_from(self, img: Seq<u8>, from: int, count: int) -> Option<int>
        decreases self.boot.cluster_count + 2 - from,
    {
        if from + count - 1 > self.boot.cluster_count + 1 || from > self.boot.cluster_count + 1 {
            None
        } else if self.run_free(img, from, count) {
            Some(from)
        } else {
            self.run_from(img, from + 1, count)
        }
    }

    /// How many bitmap bytes a scan reads that stops at `last`, or at the
    /// end of the bitmap.
    pub open spec fn scanned(self, last: Option<int>) -> int {
        match last {
            None => self.bitmap_span(),
            Some(c) => {
                let end = ((c - 2) / 8 / 512 + 1) * 512;
                if end < self.bitmap_span() {
                    end
                } else {
                    self.bitmap_span()
                }
            },
        }
    }

    /// Searching for a free cluster.
    pub open spec fn free_search(self, img: Seq<u8>) -> Result<Option<u32>, FsError<()>> {
        let found = self.free_from(img, 2);
        if self.bitmap_span() > 0 && self.bitmap_pos() + self.scanned(found) > img.len() {
            Err(beyond_device())
        } else {
            match found {
                Some(c) => Ok(Some(c as u32)),
                None => Ok(None),
            }
        }
    }

    /// Searching for a run of free clusters.
    pub open spec fn run_search(self, img: Seq<u8>, count: int) -> Result<
        Option<u32>,
        FsError<()>,
    > {
        if count == 0 {
            Ok(None)
        } else {
            let found = self.run_from(img, 2, count);
            let last = match found {
                Some(s) => Some(s + count - 1),
                None => None,
            };
            if self.bitmap_span() > 0 && self.bitmap_pos() + self.scanned(last) > img.len() {
                Err(beyond_device())
            } else {
                match found {
                    Some(s) => Ok(Some(s as u32)),
                    None => Ok(None),
                }
            }
        }
    }

    /// The bitmap has a bit for `cluster`.
    pub open spec fn has_bit(self, cluster: int) -> bool {
        2 <= cluster && (cluster - 2) / 8 < self.bitmap.byte_length
    }

    /// Setting or clearing the bit of `cluster`.
    pub open spec fn marked(self, d: Disk, cluster: int, on: bool) -> Run<()> {
        if !self.has_bit(cluster) {
            Run { out: Err(FsError::Unsupported), disk: d }
        } else if self.bit_pos(cluster) + 1 > d.img.len() {
            Run { out: Err(beyond_device()), disk: d }
        } else {
            self.written(
                d,
                self.bit_pos(cluster),
                seq![with_bit(d.img[self.bit_pos(cluster)], ((cluster - 2) % 8) as u8, on)],
            )
        }
    }

    /// Marking the clusters `from..to`, one after the other.
    pub open spec fn range_marked(self, d: Disk, from: int, to: int, on: bool) -> Run<()>
        decreases to - from,
    {
        if from >= to {
            Run { out: Ok(()), disk: d }
        } else {
            let r = self.marked(d, from, on);
            match r.out {
                Ok(_) => self.range_marked(r.disk, from + 1, to, on),
                Err(e) => r,
            }
        }
    }

    /// Freeing the chain from `cur` on after `visited` steps: each cluster's
    /// bit and FAT cell are cleared, up to the chain's end. A bad cluster is
    /// left as it is.
    pub open spec fn chain_freed(self, d: Disk, cur: int, visited: int) -> Run<()>
        decreases self.boot.cluster_count + 1 - visited,
    {
        if visited > self.boot.cluster_count {
            Run { out: Err(FsError::Corrupt(CorruptKind::ClusterChain)), disk: d }
        } else {
            match self.fat_read(d.img, cur) {
                Err(e) => Run { out: Err(e), disk: d },
                Ok(FatEntry::Bad) => Run { out: Ok(()), disk: d },
                Ok(next) => {
                    let m = self.marked(d, cur, false);
                    if m.out is Err {
                        m
                    } else {
                        let w = self.fat_written(m.disk, cur, 0);
                        if w.out is Err {
                            w
                        } else {
                            match next {
                                FatEntry::Next(n) => self.chain_freed(
                                    w.disk,
                                    n as int,
                                    visited + 1,
                                ),
                                _ => w,
                            }
                        }
                    }
                },
            }
        }
    }

    /// Freeing `count` contiguous clusters, or a chain.
    pub open spec fn clusters_freed(
        self,
        d: Disk,
        first: int,
        count: int,
        no_fat_chain: bool,
    ) -> Run<()> {
        if no_fat_chain {
            self.range_marked(d, first, first + count, false)
        } else {
            self.chain_freed(d, first, 0)
        }
    }
}

/// A scan that starts later finds the same free cluster if none lies between.
proof fn lemma_free_from_skip(l: ExfatLayout, img: Seq<u8>, from: int, to: int)
    requires
        from <= to,
        forall|c: int|
            from <= c < to && c <= l.boot.cluster_count + 1 ==> #[trigger] l.allocated(img, c),
    ensures
        l.free_from(img, from) == l.free_from(img, to),
    decreases to - from,
{
    if from < to && from <= l.boot.cluster_count + 1 {
        assert(l.allocated(img, from));
        lemma_free_from_skip(l, img, from + 1, to);
    }
}

/// What a search finds is free, within the heap, and the first such cluster.
pub proof fn lemma_free_from_found(l: ExfatLayout, img: Seq<u8>, from: int)
    ensures
        match l.free_from(img, from) {
            Some(c) => {
                &&& from <= c <= l.boot.cluster_count + 1
                &&& !l.allocated(img, c)
                &&& forall|x: int| from <= x < c ==> #[trigger] l.allocated(img, x)
            },
            None => forall|x: int|
                from <= x <= l.boot.cluster_count + 1 ==> #[trigger] l.allocated(img, x),
        },
    decreases l.boot.cluster_count + 2 - from,
{
    if from <= l.boot.cluster_count + 1 && l.allocated(img, from) {
        lemma_free_from_found(l, img, from + 1);
    }
}

/// What a run search finds is a run of free clusters, the first there is.
pub proof fn lemma_run_from_found(l: ExfatLayout, img: Seq<u8>, from: int, count: int)
    requires
        count >= 1,
    ensures
        match l.run_from(img, from, count) {
            Some(s) => {
                &&& from <= s
                &&& l.run_free(img, s, count)
                &&& forall|x: int| from <= x < s ==> !#[trigger] l.run_free(img, x, count)
            },
            None => forall|x: int| from <= x ==> !#[trigger] l.run_free(img, x, count),
        },
    decreases l.boot.cluster_count + 2 - from,
{
    if from + count - 1 > l.boot.cluster_count + 1 || from > l.boot.cluster_count + 1 {
    } else if l.run_free(img, from, count) {
    } else {
        lemma_run_from_found(l, img, from + 1, count);
    }
}

/// Runs that start before an allocated cluster and reach it are not free.
proof fn lemma_run_from_skip(l: ExfatLayout, img: Seq<u8>, from: int, to: int, count: int)
    requires
        count >= 1,
        from <= to,
        forall|x: int| from <= x < to ==> !#[trigger] l.run_free(img, x, count),
    ensures
        l.run_from(img, from, count) == l.run_from(img, to, count),
    decreases to - from,
{
    if from < to {
        assert(!l.run_free(img, from, count));
        if from + count - 1 <= l.boot.cluster_count + 1 && from <= l.boot.cluster_count + 1 {
            lemma_run_from_skip(l, img, from + 1, to, count);
        }
    }
}

impl<D: Device> ExfatVfs<D> {
    /// Byte offset of the bitmap's first byte. The bitmap is a single
    /// contiguous run (as every real formatter lays it out).
    fn bitmap_base(&self) -> (r: u64)
        requires
            self.wf(),
        ensures
            r == self.layout.bitmap_pos(),
            r <= 0xFFFF_FFFF * 0x201_0000,
    {
        self.layout.boot.cluster_offset(self.layout.bitmap.first_cluster)
    }

    /// Bitmap bytes actually covering the cluster heap — one bit per
    /// cluster (`2..=cluster_count+1`), capped at the on-disk length.
    fn bitmap_scan_bytes(&self) -> (r: u64)
        requires
            self.wf(),
        ensures
            r == self.layout.bitmap_span(),
            r <= 0x2000_0000,
    {
        let cover: u64 = div_ceil_u64(self.layout.boot.cluster_count as u64, 8);
        if cover < self.layout.bitmap.byte_length {
            cover
        } else {
            self.layout.bitmap.byte_length
        }
    }

    /// Disk byte offset and bit position of `cluster`'s bitmap bit.
    fn bitmap_byte_offset_for_cluster(&self, cluster: u32) -> (r: Option<(u64, u8)>)
        requires
            self.wf(),
        ensures
            match r {
                Some((off, bit)) => {
                    &&& self.layout.has_bit(cluster as int)
                    &&& off == self.layout.bit_pos(cluster as int)
                    &&& bit == ((cluster - 2) % 8) as u8
                    &&& bit < 8
                },
                None => !self.layout.has_bit(cluster as int),
            },
    {
        if cluster < 2 {
            return None;
        }
        let bit_idx: u32 = cluster - 2;
        let byte_in_bitmap: u64 = (bit_idx / 8) as u64;
        if byte_in_bitmap >= self.layout.bitmap.byte_length {
            return None;
        }
        let bit_in_byte: u8 = (bit_idx % 8) as u8;
        Some((self.bitmap_base() + byte_in_bitmap, bit_in_byte))
    }

    /// Set or clear the bitmap bit of `cluster`.
    fn mark_cluster(&mut self, cluster: u32, on: bool) -> (r: Result<(), FsError<D::Error>>)
        requires
            old(self).wf(),
        ensures
            final(self).wf(),
            final(self).keeps(*old(self)),
            ends_as(
                r,
                old(self).layout.marked(old(self).disk(), cluster as int, on),
                final(self).disk(),
                old(self).dev.reliable(),
            ),
    {
        let (byte_off, bit) = match self.bitmap_byte_offset_for_cluster(cluster) {
            Some(p) => p,
            None => {
                return Err(FsError::Unsupported);
            },
        };
        let mut b: [u8; 1] = [0u8;1];
        match self.read_at(byte_off, &mut b) {
            Ok(_) => {},
            Err(e) => {
                return Err(e);
            },
        }
        let ghost img = self.dev.contents();
        assert(b@[0] == img[byte_off as int]) by {
            assert(b@ == img.subrange(byte_off as int, byte_off + 1));
        }
        if on {
            b[0] = b[0] | (1u8 << bit);
        } else {
            b[0] = b[0] & !(1u8 << bit);
        }
        assert(b@ =~= seq![with_bit(img[byte_off as int], bit, on)]);
        self.write_at(byte_off, &b)
    }

    /// Set the bitmap bit for `cluster` to mark it allocated.
    pub fn mark_cluster_allocated(&mut self, cluster: u32) -> (r: Result<(), FsError<D::Error>>)
        requires
            old(self).wf(),
        ensures
            final(self).wf(),
            final(self).keeps(*old(self)),
            ends_as(
                r,
                old(self).layout.marked(old(self).disk(), cluster as int, true),
                final(self).disk(),
                old(self).dev.reliable(),
            ),
    {
        self.mark_cluster(cluster, true)
    }

    /// Clear the bitmap bit for `cluster`, marking it free. Idempotent.
    pub fn mark_cluster_free(&mut self, cluster: u32) -> (r: Result<(), FsError<D::Error>>)
        requires
            old(self).wf(),
        ensures
            final(self).wf(),
            final(self).keeps(*old(self)),
            ends_as(
                r,
                old(self).layout.marked(old(self).disk(), cluster as int, false),
                final(self).disk(),
                old(self).dev.reliable(),
            ),
    {
        self.mark_cluster(cluster, false)
    }

    /// Mark `count` clusters starting at `first` as allocated.
    pub fn mark_cluster_range_allocated(&mut self, first: u32, count: u32) -> (r: Result<
        (),
        FsError<D::Error>,
    >)
        requires
            old(self).wf(),
            first + count <= u32::MAX + 1,
        ensures
            final(self).wf(),
            final(self).keeps(*old(self)),
            ends_as(
                r,
                old(self).layout.range_marked(
                    old(self).disk(),
                    first as int,
                    first + count,
                    true,
                ),
                final(self).disk(),
                old(self).dev.reliable(),
            ),
    {
        self.mark_cluster_range(first, count, true)
    }

    fn mark_cluster_range(&mut self, first: u32, count: u32, on: bool) -> (r: Result<
        (),
        FsError<D::Error>,
    >)
        requires
            old(self).wf(),
            first + count <= u32::MAX + 1,
        ensures
            final(self).wf(),
            final(self).keeps(*old(self)),
            ends_as(
                r,
                old(self).layout.range_marked(old(self).disk(), first as int, first + count, on),
                final(self).disk(),
                old(self).dev.reliable(),
            ),
    {
        let ghost l = self.layout;
        let ghost start = self.disk();
        let mut i: u32 = 0;
        while i < count
            invariant
                i <= count,
                first + count <= u32::MAX + 1,
                self.wf(),
                self.keeps(*old(self)),
                l == old(self).layout,
                start == old(self).disk(),
                l.range_marked(start, first as int, first + count, on) == l.range_marked(
                    self.disk(),
                    first + i,
                    first + count,
                    on,
                ),
            decreases count - i,
        {
            match self.mark_cluster(first + i, on) {
                Ok(_) => {},
                Err(e) => {
                    return Err(e);
                },
            }
            i += 1;
        }
        Ok(())
    }

    /// Scan the bitmap for the first free cluster, in bounded windows so
    /// memory stays flat on multi-TB volumes. `None` = volume full.
    pub fn find_free_cluster(&self) -> (r: Result<Option<u32>, FsError<D::Error>>)
        requires
            self.wf(),
        ensures
            reads_as(r, self.layout.free_search(self.dev.contents()), self.dev.reliable()),
    {
        let base: u64 = self.bitmap_base();
        let scan_bytes: u64 = self.bitmap_scan_bytes();
        let last_cluster: u64 = self.layout.boot.cluster_count as u64 + 1;
        let ghost img = self.dev.contents();
        let ghost l = self.layout;
        proof {
            lemma_free_from_found(l, img, 2);
        }
        let mut byte_idx: u64 = 0;
        while byte_idx < scan_bytes
            invariant
                self.wf(),
                l == self.layout,
                img == self.dev.contents(),
                base == l.bitmap_pos(),
                base <= 0xFFFF_FFFF * 0x201_0000,
                scan_bytes == l.bitmap_span(),
                scan_bytes <= 0x2000_0000,
                last_cluster == l.boot.cluster_count + 1,
                byte_idx <= scan_bytes,
                byte_idx < scan_bytes ==> byte_idx % 512 == 0,
                byte_idx > 0 ==> base + byte_idx <= img.len(),
                forall|c: int|
                    2 <= c < 2 + 8 * byte_idx && c <= l.boot.cluster_count + 1
                        ==> #[trigger] l.allocated(img, c),
            decreases scan_bytes - byte_idx,
        {
            let left: u64 = scan_bytes - byte_idx;
            let chunk: usize = if left < BITMAP_WINDOW as u64 {
                left as usize
            } else {
                BITMAP_WINDOW
            };
            let mut window: Vec<u8> = vec![0u8; chunk];
            proof {
                lemma_free_from_found(l, img, 2);
                lemma_scan_reaches(l, img, byte_idx as int, l.free_from(img, 2));
            }
            match self.read_at(base + byte_idx, window.as_mut_slice()) {
                Ok(_) => {},
                Err(e) => {
                    return Err(e);
                },
            }
            proof {
                assert(window@ == img.subrange(base + byte_idx, base + byte_idx + chunk));
            }
            let mut i: usize = 0;
            while i < chunk
                invariant
                    self.wf(),
                    l == self.layout,
                    img == self.dev.contents(),
                    base == l.bitmap_pos(),
                    scan_bytes == l.bitmap_span(),
                    scan_bytes <= 0x2000_0000,
                    last_cluster == l.boot.cluster_count + 1,
                    byte_idx % 512 == 0,
                    byte_idx + chunk <= scan_bytes,
                    chunk <= 512,
                    chunk == 512 || byte_idx + chunk == scan_bytes,
                    base + byte_idx + chunk <= img.len(),
                    window@ == img.subrange(base + byte_idx, base + byte_idx + chunk),
                    i <= chunk,
                    forall|c: int|
                        2 <= c < 2 + 8 * (byte_idx + i) && c <= l.boot.cluster_count + 1
                            ==> #[trigger] l.allocated(img, c),
                decreases chunk - i,
            {
                let b: u8 = window[i];
                proof {
                    assert(b == img[base + byte_idx + i]);
                    lemma_full_byte(b);
                }
                let mut bit: u8 = 0;
                while bit < 8
                    invariant
                        self.wf(),
                        l == self.layout,
                        img == self.dev.contents(),
                        base == l.bitmap_pos(),
                        scan_bytes == l.bitmap_span(),
                        scan_bytes <= 0x2000_0000,
                        last_cluster == l.boot.cluster_count + 1,
                        byte_idx % 512 == 0,
                        byte_idx + chunk <= scan_bytes,
                        chunk <= 512,
                        chunk == 512 || byte_idx + chunk == scan_bytes,
                        base + byte_idx + chunk <= img.len(),
                        i < chunk,
                        b == img[base + byte_idx + i],
                        bit <= 8,
                        forall|c: int|
                            2 <= c < 2 + 8 * (byte_idx + i) + bit && c <= l.boot.cluster_count + 1
                                ==> #[trigger] l.allocated(img, c),
                    decreases 8 - bit,
                {
                    let ghost c = 2 + 8 * (byte_idx + i) + bit;
                    proof {
                        assert((c - 2) / 8 == byte_idx + i);
                        assert((c - 2) % 8 == bit);
                        assert(l.allocated(img, c) == bit_of(b, bit));
                    }
                    if (b >> bit) & 1 == 0 {
                        proof {
                            assert((b >> bit) & 1 == 0);
                            lemma_free_from_skip(l, img, 2, c);
                        }
                        let cluster: u64 = 2 + (byte_idx + i as u64) * 8 + bit as u64;
                        if cluster > last_cluster {
                            return Ok(None);
                        }
                        proof {
                            lemma_window_end(byte_idx as int, i as int, l.bitmap_span());
                        }
                        return Ok(Some(cluster as u32));
                    }
                    proof {
                        assert((b >> bit) & 1 == 0 || (b >> bit) & 1 == 1) by (bit_vector);
                    }
                    bit += 1;
                }
                i += 1;
            }
            byte_idx += chunk as u64;
        }
        proof {
            assert(8 * l.bitmap_span() >= l.boot.cluster_count);
            lemma_free_from_skip(l, img, 2, l.boot.cluster_count + 2);
        }
        Ok(None)
    }

    /// Scan the bitmap (in bounded windows) for a run of `count`
    /// consecutive free clusters; `None` when no such run exists.
    pub fn find_free_contiguous_run(&self, count: u32) -> (r: Result<
        Option<u32>,
        FsError<D::Error>,
    >)
        requires
            self.wf(),
        ensures
            reads_as(
                r,
                self.layout.run_search(self.dev.contents(), count as int),
                self.dev.reliable(),
            ),
    {
        if count == 0 {
            return Ok(None);
        }
        let base: u64 = self.bitmap_base();
        let scan_bytes: u64 = self.bitmap_scan_bytes();
        let last_cluster: u64 = self.layout.boot.cluster_count as u64 + 1;
        let ghost img = self.dev.contents();
        let ghost l = self.layout;
        let mut run_start: Option<u32> = None;
        let mut run_len: u32 = 0;
        let mut byte_idx: u64 = 0;
        while byte_idx < scan_bytes
            invariant
                self.wf(),
                l == self.layout,
                img == self.dev.contents(),
                base == l.bitmap_pos(),
                base <= 0xFFFF_FFFF * 0x201_0000,
                scan_bytes == l.bitmap_span(),
                scan_bytes <= 0x2000_0000,
                last_cluster == l.boot.cluster_count + 1,
                count > 0,
                byte_idx <= scan_bytes,
                byte_idx < scan_bytes ==> byte_idx % 512 == 0,
                byte_idx > 0 ==> base + byte_idx <= img.len(),
                l.run_pending(img, 2 + 8 * byte_idx, run_len as int, count as int),
                run_start == l.pending_start(2 + 8 * byte_idx, run_len as int),
            decreases scan_bytes - byte_idx,
        {
            let left: u64 = scan_bytes - byte_idx;
            let chunk: usize = if left < BITMAP_WINDOW as u64 {
                left as usize
            } else {
                BITMAP_WINDOW
            };
            let mut window: Vec<u8> = vec![0u8; chunk];
            proof {
                lemma_run_from_found(l, img, 2, count as int);
                let found = l.run_from(img, 2, count as int);
                let last = match found {
                    Some(s) => Some(s + count - 1),
                    None => None,
                };
                lemma_scan_reaches(l, img, byte_idx as int, last);
            }
            match self.read_at(base + byte_idx, window.as_mut_slice()) {
                Ok(_) => {},
                Err(e) => {
                    return Err(e);
                },
            }
            proof {
                assert(window@ == img.subrange(base + byte_idx, base + byte_idx + chunk));
            }
            let mut i: usize = 0;
            while i < chunk
                invariant
                    self.wf(),
                    l == self.layout,
                    img == self.dev.contents(),
                    base == l.bitmap_pos(),
                    scan_bytes == l.bitmap_span(),
                    scan_bytes <= 0x2000_0000,
                    last_cluster == l.boot.cluster_count + 1,
                    count > 0,
                    byte_idx % 512 == 0,
                    byte_idx + chunk <= scan_bytes,
                    chunk <= 512,
                    chunk == 512 || byte_idx + chunk == scan_bytes,
                    base + byte_idx + chunk <= img.len(),
                    window@ == img.subrange(base + byte_idx, base + byte_idx + chunk),
                    i <= chunk,
                    l.run_pending(img, 2 + 8 * (byte_idx + i), run_len as int, count as int),
                    run_start == l.pending_start(2 + 8 * (byte_idx + i), run_len as int),
                decreases chunk - i,
            {
                let b: u8 = window[i];
                assert(b == img[base + byte_idx + i]);
                let mut bit: u8 = 0;
                while bit < 8
                    invariant
                        self.wf(),
                        l == self.layout,
                        img == self.dev.contents(),
                        base == l.bitmap_pos(),
                        scan_bytes == l.bitmap_span(),
                        scan_bytes <= 0x2000_0000,
                        last_cluster == l.boot.cluster_count + 1,
                        count > 0,
                        byte_idx % 512 == 0,
                        byte_idx + chunk <= scan_bytes,
                        chunk <= 512,
                        chunk == 512 || byte_idx + chunk == scan_bytes,
                        base + byte_idx + chunk <= img.len(),
                        i < chunk,
                        b == img[base + byte_idx + i],
                        bit <= 8,
                        l.run_pending(
                            img,
                            2 + 8 * (byte_idx + i) + bit,
                            run_len as int,
                            count as int,
                        ),
                        run_start == l.pending_start(2 + 8 * (byte_idx + i) + bit, run_len as int),
                    decreases 8 - bit,
                {
                    let ghost c = 2 + 8 * (byte_idx + i) + bit;
                    proof {
                        assert((c - 2) / 8 == byte_idx + i);
                        assert((c - 2) % 8 == bit);
                        assert(l.allocated(img, c) == bit_of(b, bit));
                        assert((b >> bit) & 1 == 0 || (b >> bit) & 1 == 1) by (bit_vector);
                    }
                    let cluster_u64: u64 = 2 + (byte_idx + i as u64) * 8 + bit as u64;
                    if cluster_u64 > last_cluster {
                        proof {
                            lemma_run_exhausted(l, img, c, run_len as int, count as int);
                        }
                        return Ok(None);
                    }
                    let cluster: u32 = cluster_u64 as u32;
                    if (b >> bit) & 1 == 0 {
                        if run_start.is_none() {
                            run_start = Some(cluster);
                            run_len = 1;
                        } else {
                            run_len += 1;
                        }
                        if run_len == count {
                            proof {
                                let s = c + 1 - count;
                                assert(l.run_free(img, s, count as int));
                                lemma_run_from_skip(l, img, 2, s, count as int);
                                lemma_window_end(byte_idx as int, i as int, l.bitmap_span());
                            }
                            return Ok(run_start);
                        }
                    } else {
                        proof {
                            lemma_run_broken(l, img, c, run_len as int, count as int);
                        }
                        run_start = None;
                        run_len = 0;
                    }
                    bit += 1;
                }
                i += 1;
            }
            byte_idx += chunk as u64;
        }
        proof {
            assert(8 * l.bitmap_span() >= l.boot.cluster_count);
            lemma_run_exhausted(l, img, 2 + 8 * byte_idx, run_len as int, count as int);
        }
        Ok(None)
    }

    /// Free every cluster reachable from `first_cluster` — a contiguous
    /// run of `count` clusters (NoFatChain) or a FAT-linked chain.
    pub fn free_cluster_chain(
        &mut self,
        first_cluster: u32,
        count: u32,
        no_fat_chain: bool,
    ) -> (r: Result<(), FsError<D::Error>>)
        requires
            old(self).wf(),
            no_fat_chain ==> first_cluster + count <= u32::MAX + 1,
        ensures
            final(self).wf(),
            final(self).keeps(*old(self)),
            ends_as(
                r,
                old(self).layout.clusters_freed(
                    old(self).disk(),
                    first_cluster as int,
                    count as int,
                    no_fat_chain,
                ),
                final(self).disk(),
                old(self).dev.reliable(),
            ),
    {
        if no_fat_chain {
            return self.mark_cluster_range(first_cluster, count, false);
        }
        // Cap the walk at `cluster_count` so a malformed FAT cycle still
        // terminates.
        let cap: u32 = self.layout.boot.cluster_count;
        let ghost l = self.layout;
        let ghost start = self.disk();
        let mut cur: u32 = first_cluster;
        let mut visited: u32 = 0;
        while visited <= cap
            invariant
                self.wf(),
                self.keeps(*old(self)),
                l == old(self).layout,
                start == old(self).disk(),
                !no_fat_chain,
                cap == l.boot.cluster_count,
                cap < u32::MAX,
                visited <= cap + 1,
                l.chain_freed(start, first_cluster as int, 0) == l.chain_freed(
                    self.disk(),
                    cur as int,
                    visited as int,
                ),
            decreases cap + 1 - visited,
        {
            let next = match self.read_fat_entry(cur) {
                Ok(next) => next,
                Err(e) => {
                    return Err(e);
                },
            };
            // A BAD marker means `cur` itself is a bad cluster that a
            // corrupt chain led us to: leave it allocated and stop.
            if next == FatEntry::Bad {
                return Ok(());
            }
            match self.mark_cluster_free(cur) {
                Ok(_) => {},
                Err(e) => {
                    return Err(e);
                },
            }
            match self.write_fat_entry(cur, 0) {
                Ok(_) => {},
                Err(e) => {
                    return Err(e);
                },
            }
            match next {
                FatEntry::Next(n) => {
                    cur = n;
                    visited += 1;
                },
                _ => {
                    return Ok(());
                },
            }
        }
        Err(FsError::Corrupt(CorruptKind::ClusterChain))
    }
}

impl ExfatLayout {
    /// Scanning up to `c` found no run of `count` free clusters; the last
    /// `run_len` clusters before `c` are free and may start one.
    pub open spec fn run_pending(self, img: Seq<u8>, c: int, run_len: int, count: int) -> bool {
        &&& 0 <= run_len < count
        &&& run_len <= c - 2
        &&& c - 2 <= u32::MAX
        &&& forall|x: int| c - run_len <= x < c ==> !#[trigger] self.allocated(img, x)
        &&& forall|x: int| 2 <= x < c - run_len ==> !#[trigger] self.run_free(img, x, count)
    }

    /// Where the pending run starts, if there is one.
    pub open spec fn pending_start(self, c: int, run_len: int) -> Option<u32> {
        if run_len == 0 {
            None
        } else {
            Some((c - run_len) as u32)
        }
    }
}

/// Past the last cluster no pending run can be completed.
proof fn lemma_run_exhausted(l: ExfatLayout, img: Seq<u8>, c: int, run_len: int, count: int)
    requires
        l.run_pending(img, c, run_len, count),
        c > l.boot.cluster_count + 1,
    ensures
        l.run_from(img, 2, count) is None,
{
    lemma_run_from_found(l, img, 2, count);
    match l.run_from(img, 2, count) {
        Some(s) => {
            assert(l.run_free(img, s, count));
        },
        None => {},
    }
}

/// An allocated cluster breaks every run that would contain it.
proof fn lemma_run_broken(l: ExfatLayout, img: Seq<u8>, c: int, run_len: int, count: int)
    requires
        l.run_pending(img, c, run_len, count),
        c - 1 <= u32::MAX,
        l.allocated(img, c),
    ensures
        l.run_pending(img, c + 1, 0, count),
{
    assert forall|x: int| 2 <= x < c + 1 implies !#[trigger] l.run_free(img, x, count) by {
        if x >= c - run_len {
            if l.run_free(img, x, count) {
                assert(!l.allocated(img, c));
            }
        }
    }
}

/// The window that holds bitmap byte `byte_idx + i` ends where a scan that
/// stops in it ends.
proof fn lemma_window_end(byte_idx: int, i: int, span: int)
    requires
        byte_idx >= 0,
        byte_idx % 512 == 0,
        0 <= i < 512,
    ensures
        (byte_idx + i) / 512 == byte_idx / 512,
        ((byte_idx + i) / 512 + 1) * 512 == byte_idx + 512,
{
}

/// While nothing was found before byte `byte_idx`, the scan reads at least
/// one more window.
proof fn lemma_scan_reaches(l: ExfatLayout, img: Seq<u8>, byte_idx: int, found: Option<int>)
    requires
        0 <= byte_idx < l.bitmap_span(),
        byte_idx % 512 == 0,
        found matches Some(c) ==> c >= 2 + 8 * byte_idx,
    ensures
        l.scanned(found) >= (if byte_idx + 512 < l.bitmap_span() {
            byte_idx + 512
        } else {
            l.bitmap_span()
        }),
{
    match found {
        Some(c) => {
            let q = (c - 2) / 8;
            assert(q >= byte_idx);
            assert(q / 512 >= byte_idx / 512);
        },
        None => {},
    }
}

} // verus!
