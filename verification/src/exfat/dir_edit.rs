//! Changing directories: appending, locating and unlinking entry sets.

use vstd::prelude::*;

use super::direntry::{
    entry_set_checksum, next_entry, set_checksum_of, DirEntryDecoder, DirExtent, EntryFields,
    SetLoc,
};
use super::layout::{
    cluster_count_for, clusters_for, done, ends_as, failed, le_bytes16, le_bytes64,
    lemma_unit_sizes, set_u16, set_u64, Disk, ExfatLayout, Run,
};
use super::volume::ExfatVfs;
use crate::bytes::{le64, spliced};
use crate::codec::le_u64;
use crate::codec::exfat::consts::{
    END_OF_DIRECTORY, ENTRY_IN_USE, ENTRY_TYPE_STREAM_EXTENSION, EXFAT_ENTRY_SIZE, FAT_EOC,
    STREAM_FLAG_NO_FAT_CHAIN,
};
use crate::codec::exfat::raw_entry::with_no_fat_chain;
use crate::device::Device;
use crate::error::{CorruptKind, FsError};
use crate::name::NamePolicy;
use crate::num::{ceil_div, div_ceil_u64};

verus! {

/// The first slot at or after `pos` that ends the directory, or the end of
/// the stream.
pub open spec fn end_slot(buf: Seq<u8>, pos: int) -> int
    decreases buf.len() - pos,
{
    if pos + 32 > buf.len() {
        buf.len() as int
    } else if buf[pos] == END_OF_DIRECTORY {
        pos
    } else {
        end_slot(buf, pos + 32)
    }
}

/// The entry set with the checksum field set to its checksum.
pub open spec fn resummed(set: Seq<u8>) -> Seq<u8> {
    spliced(set, 2, le_bytes16(set_checksum_of(set) as u16))
}

/// A directory's entry set after the directory grew by `added` bytes: longer,
/// and no longer contiguous.
pub open spec fn grown_set(set: Seq<u8>, added: int) -> Seq<u8> {
    let length = ((le64(set, 56) + added) % 0x1_0000_0000_0000_0000) as u64;
    let a = set.update(33, with_no_fat_chain(set[33], false));
    let b = spliced(a, 40, le_bytes64(length));
    resummed(spliced(b, 56, le_bytes64(length)))
}

/// The entry set with the `InUse` bit of every entry cleared.
pub open spec fn unlinked_set(set: Seq<u8>) -> Seq<u8> {
    Seq::new(
        set.len(),
        |i: int|
            if i % 32 == 0 {
                set[i] & !ENTRY_IN_USE
            } else {
                set[i]
            },
    )
}

/// The place of the first entry set from `pos` on that decodes and goes by
/// `name`.
pub open spec fn located_from(p: NamePolicy, buf: Seq<u8>, pos: int, name: Seq<char>) -> Option<
    (int, u32),
>
    decreases buf.len() - pos,
{
    match next_entry(buf, pos) {
        Some((e, q)) => if p.same_name(e.name, name) {
            Some((q - e.entry_set_len, e.entry_set_len))
        } else if pos < q <= buf.len() {
            located_from(p, buf, q, name)
        } else {
            None
        },
        None => None,
    }
}

impl ExfatLayout {
    /// Filling `cluster` with `data` and then zeros.
    pub open spec fn cluster_filled(self, d: Disk, cluster: int, data: Seq<u8>) -> Run<()> {
        let cb = self.boot.cluster_bytes();
        let pos = self.boot.cluster_pos(cluster);
        if data.len() > cb {
            failed(FsError::InvalidInput, d)
        } else {
            let w = self.written(d, pos, data);
            if w.out is Err || data.len() == cb {
                w
            } else {
                self.written(
                    w.disk,
                    pos + data.len(),
                    Seq::new((cb - data.len()) as nat, |i: int| 0u8),
                )
            }
        }
    }

    /// Linking each cluster of the list from place `i` on to the next.
    pub open spec fn chain_linked(self, d: Disk, clusters: Seq<u32>, i: int) -> Run<()>
        decreases clusters.len() - i,
    {
        if i + 1 >= clusters.len() {
            done((), d)
        } else {
            let w = self.fat_written(d, clusters[i] as int, clusters[i + 1]);
            if w.out is Err {
                w
            } else {
                self.chain_linked(w.disk, clusters, i + 1)
            }
        }
    }

    /// Appending `n` fresh, zeroed clusters to the chain that ends at `tail`.
    pub open spec fn dir_grown(self, d: Disk, tail: u32, n: int) -> Run<Seq<u32>>
        decreases n,
    {
        if n <= 0 {
            done(seq![], d)
        } else {
            match self.free_search(d.img) {
                Err(e) => failed(e, d),
                Ok(None) => failed(FsError::StorageFull, d),
                Ok(Some(c)) => {
                    let w = self.cluster_taken(d, tail, c);
                    match w.out {
                        Err(e) => failed(e, w.disk),
                        Ok(_) => {
                            let rest = self.dir_grown(w.disk, c, n - 1);
                            match rest.out {
                                Err(e) => rest,
                                Ok(more) => done(seq![c] + more, rest.disk),
                            }
                        },
                    }
                },
            }
        }
    }

    /// Marking `c` allocated, linking it behind `tail` as the new end of the
    /// chain, and zeroing it.
    pub open spec fn cluster_taken(self, d: Disk, tail: u32, c: u32) -> Run<()> {
        let m = self.marked(d, c as int, true);
        if m.out is Err {
            m
        } else {
            let w = self.fat_written(m.disk, tail as int, c);
            if w.out is Err {
                w
            } else {
                let e = self.fat_written(w.disk, c as int, FAT_EOC);
                if e.out is Err {
                    e
                } else {
                    self.cluster_filled(
                        e.disk,
                        c as int,
                        Seq::new(self.boot.cluster_bytes() as nat, |i: int| 0u8),
                    )
                }
            }
        }
    }

    /// Recording in its entry set that a directory grew.
    pub open spec fn growth_recorded(self, d: Disk, loc: SetLoc, added: int) -> Run<()> {
        match self.set_read(d.img, loc) {
            Err(e) => failed(e, d),
            Ok(set) => if set[32] != ENTRY_TYPE_STREAM_EXTENSION {
                failed(FsError::Corrupt(CorruptKind::DirEntry), d)
            } else {
                self.set_written(d, loc, grown_set(set, added))
            },
        }
    }

    /// Appending an entry set to the directory `ext`, whose walk parameters
    /// are up to date: at the first end-of-directory slot, growing the
    /// directory where the set does not fit.
    pub open spec fn set_appended(self, d: Disk, ext: DirExtent, set: Seq<u8>) -> Run<()> {
        let cb = self.boot.cluster_bytes();
        match self.dir_read(d.img, ext.first_cluster, ext.no_fat_chain, ext.max_clusters as int) {
            Err(e) => failed(e, d),
            Ok((clusters, buf)) => {
                let insert = end_slot(buf, 0);
                if insert + set.len() <= buf.len() {
                    self.stream_written(d, clusters, insert, set)
                } else if clusters.len() == 0 {
                    failed(FsError::Corrupt(CorruptKind::ClusterChain), d)
                } else {
                    let extra = ceil_div(insert + set.len() - buf.len(), cb);
                    let linked = if ext.no_fat_chain {
                        self.chain_linked(d, clusters, 0)
                    } else {
                        done((), d)
                    };
                    match linked.out {
                        Err(e) => linked,
                        Ok(_) => {
                            let grown = self.dir_grown(linked.disk, clusters.last(), extra);
                            match grown.out {
                                Err(e) => failed(e, grown.disk),
                                Ok(more) => {
                                    let w = self.stream_written(
                                        grown.disk,
                                        clusters + more,
                                        insert,
                                        set,
                                    );
                                    match (w.out, ext.parent_entry) {
                                        (Ok(_), Some(loc)) => self.growth_recorded(
                                            w.disk,
                                            loc,
                                            extra * cb,
                                        ),
                                        _ => w,
                                    }
                                },
                            }
                        },
                    }
                }
            },
        }
    }

    /// Locating the entry set of `name` in the directory `ext`, whose walk
    /// parameters are up to date.
    pub open spec fn set_located(
        self,
        p: NamePolicy,
        img: Seq<u8>,
        ext: DirExtent,
        name: Seq<char>,
    ) -> Result<Option<SetLoc>, FsError<()>> {
        match self.dir_read(img, ext.first_cluster, ext.no_fat_chain, ext.max_clusters as int) {
            Err(e) => Err(e),
            Ok((_, buf)) => match located_from(p, buf, 0, name) {
                None => Ok(None),
                Some((pos, len)) => Ok(
                    Some(
                        SetLoc {
                            dir_first_cluster: ext.first_cluster,
                            dir_no_fat_chain: ext.no_fat_chain,
                            dir_max_clusters: ext.max_clusters,
                            logical: pos as u64,
                            len,
                        },
                    ),
                ),
            },
        }
    }

    /// Unlinking `name` from the directory `ext`.
    pub open spec fn set_unlinked(
        self,
        p: NamePolicy,
        d: Disk,
        ext: DirExtent,
        name: Seq<char>,
    ) -> Run<()> {
        match self.set_located(p, d.img, ext, name) {
            Err(e) => failed(e, d),
            Ok(None) => failed(FsError::NotFound, d),
            Ok(Some(loc)) => match self.set_read(d.img, loc) {
                Err(e) => failed(e, d),
                Ok(set) => self.set_written(d, loc, unlinked_set(set)),
            },
        }
    }

    /// Giving back the clusters that hold the data of `e`.
    pub open spec fn entry_freed(self, d: Disk, e: EntryFields) -> Run<()> {
        self.stream_freed(d, e.first_cluster as int, e.data_length as int, e.no_fat_chain)
    }

    /// Freeing the clusters of a stream of `data_length` bytes.
    pub open spec fn stream_freed(
        self,
        d: Disk,
        first: int,
        data_length: int,
        no_fat_chain: bool,
    ) -> Run<()> {
        if data_length == 0 || first < 2 {
            done((), d)
        } else {
            self.clusters_freed(
                d,
                first,
                clusters_for(data_length, self.boot.cluster_bytes()),
                no_fat_chain,
            )
        }
    }
}

/// A directory walk collects at most as many clusters as its limit.
pub proof fn lemma_dir_walk_len(
    l: ExfatLayout,
    img: Seq<u8>,
    cur: Option<u32>,
    no_fat_chain: bool,
    max: int,
    walked: int,
)
    requires
        0 <= walked,
        walked <= (if no_fat_chain {
            max
        } else {
            l.boot.cluster_count as int
        }),
    ensures
        l.dir_walk(img, cur, no_fat_chain, max, walked) matches Ok(v) ==> walked + v.len() <= (
        if no_fat_chain {
            max
        } else {
            l.boot.cluster_count as int
        }),
    decreases
            (if no_fat_chain {
                max
            } else {
                l.boot.cluster_count as int
            }) - walked,
{
    match cur {
        None => {},
        Some(c) => {
            if no_fat_chain && walked >= max || !no_fat_chain && walked >= l.boot.cluster_count {
            } else {
                match l.successor(img, c as int, no_fat_chain) {
                    Err(_) => {},
                    Ok(next) => {
                        lemma_dir_walk_len(l, img, next, no_fat_chain, max, walked + 1);
                    },
                }
            }
        },
    }
}

/// A directory stream stays far below the largest 64-bit offset.
pub proof fn lemma_dir_stream_len(
    l: ExfatLayout,
    img: Seq<u8>,
    first: u32,
    no_fat_chain: bool,
    max: u32,
)
    requires
        l.boot.valid_shifts(),
    ensures
        l.dir_read(img, first, no_fat_chain, max as int) matches Ok((c, b)) ==> {
            &&& c.len() <= u32::MAX
            &&& b.len() == c.len() * l.boot.cluster_bytes()
            &&& b.len() <= 0xFFFF_FFFF * 0x200_0000
        },
{
    lemma_unit_sizes(l.boot);
    lemma_dir_walk_len(l, img, Some(first), no_fat_chain, max as int, 0);
    if let Ok((c, b)) = l.dir_read(img, first, no_fat_chain, max as int) {
        let n = c.len() as int;
        let cb = l.boot.cluster_bytes();
        assert(0 <= n * cb <= 0xFFFF_FFFF * 0x200_0000) by (nonlinear_arith)
            requires
                0 <= n <= 0xFFFF_FFFF,
                0 <= cb <= 0x200_0000,
        ;
    }
}

/// The end slot lies within the stream.
pub proof fn lemma_end_slot_bounds(buf: Seq<u8>, pos: int)
    requires
        0 <= pos <= buf.len(),
    ensures
        pos <= end_slot(buf, pos) <= buf.len(),
    decreases buf.len() - pos,
{
    if pos + 32 > buf.len() || buf[pos] == END_OF_DIRECTORY {
    } else {
        lemma_end_slot_bounds(buf, pos + 32);
    }
}

/// The place of the first entry set of a directory stream that goes by
/// `name`.
fn locate_in_stream(policy: &NamePolicy, buf: Vec<u8>, name: &str) -> (r: Option<(usize, u32)>)
    requires
        policy.wf(),
    ensures
        match r {
            Some((pos, len)) => {
                &&& located_from(*policy, buf@, 0, name@) == Some((pos as int, len))
                &&& len >= 64
                &&& pos + len <= buf@.len()
            },
            None => located_from(*policy, buf@, 0, name@) is None,
        },
        buf@.len() <= usize::MAX,
{
    let ghost b = buf@;
    let total: usize = buf.len();
    let mut decoder = DirEntryDecoder::new(buf);
    loop
        invariant
            policy.wf(),
            b == buf@,
            total == b.len(),
            decoder.wf(),
            decoder.buf@ == b,
            located_from(*policy, b, 0, name@) == located_from(
                *policy,
                b,
                decoder.pos as int,
                name@,
            ),
        ensures
            located_from(*policy, b, 0, name@) is None,
        decreases b.len() - decoder.pos,
    {
        proof {
            super::readdir::lemma_next_entry_bounds(b, decoder.pos as int);
        }
        match decoder.next() {
            None => {
                break ;
            },
            Some(entry) => {
                if policy.names_equal(entry.name.as_str(), name) {
                    let pos: usize = decoder.pos - entry.entry_set_len as usize;
                    return Some((pos, entry.entry_set_len));
                }
            },
        }
    }
    None
}

/// Record in a directory's entry set that the directory grew. Growth always
/// FAT-chains; both length fields go up.
fn grow_entry_set(set: &mut Vec<u8>, added_bytes: u64)
    requires
        old(set)@.len() >= 64,
    ensures
        final(set)@ == grown_set(old(set)@, added_bytes as int),
        final(set)@.len() == old(set)@.len(),
{
    let ghost start = set@;
    let length: u64 = le_u64(set.as_slice(), 56).wrapping_add(added_bytes);
    proof {
        assert(0 <= le64(start, 56) <= u64::MAX);
        assert(length == (le64(start, 56) + added_bytes) % 0x1_0000_0000_0000_0000);
    }
    let flags: u8 = set[33] & !STREAM_FLAG_NO_FAT_CHAIN;
    set.set(33, flags);
    set_u64(set, 40, length);
    set_u64(set, 56, length);
    let sum: u16 = entry_set_checksum(set.as_slice());
    set_u16(set, 2, sum);
}

/// Clear the `InUse` bit of every slot of an entry set.
fn clear_in_use(set: &mut Vec<u8>)
    ensures
        final(set)@ == unlinked_set(old(set)@),
{
    let ghost old_set = set@;
    let n: usize = set.len();
    let mut i: usize = 0;
    while i < n
        invariant
            i <= n,
            n == set@.len(),
            n == old_set.len(),
            i % 32 == 0 || i == n,
            forall|k: int| i <= k < n ==> set@[k] == old_set[k],
            forall|k: int| 0 <= k < i ==> #[trigger] set@[k] == unlinked_set(old_set)[k],
        decreases n - i,
    {
        let byte: u8 = set[i] & !ENTRY_IN_USE;
        set.set(i, byte);
        let next: usize = if n - i < 32 {
            n
        } else {
            i + 32
        };
        assert forall|k: int| 0 <= k < next implies #[trigger] set@[k] == unlinked_set(
            old_set,
        )[k] by {
            if k > i {
                assert(k % 32 != 0);
            }
        }
        i = next;
    }
    assert(set@ =~= unlinked_set(old_set));
}

impl<D: Device> ExfatVfs<D> {
    /// Write `data` into `cluster`, zero-padding the rest of the cluster.
    pub fn write_cluster(&mut self, cluster: u32, data: &[u8]) -> (r: Result<
        (),
        FsError<D::Error>,
    >)
        requires
            old(self).wf(),
        ensures
            final(self).wf(),
            final(self).keeps(*old(self)),
            ends_as(
                r,
                old(self).layout.cluster_filled(old(self).disk(), cluster as int, data@),
                final(self).disk(),
                old(self).dev.reliable(),
            ),
    {
        proof {
            lemma_unit_sizes(self.layout.boot);
        }
        let cluster_bytes: usize = self.layout.boot.bytes_per_cluster() as usize;
        let n: usize = data.len();
        if n > cluster_bytes {
            return Err(FsError::InvalidInput);
        }
        let offset: u64 = self.layout.boot.cluster_offset(cluster);
        match self.write_at(offset, data) {
            Ok(_) => {},
            Err(e) => {
                return Err(e);
            },
        }
        // Zero-pad so stale data from prior occupants doesn't leak.
        if n < cluster_bytes {
            let rest: usize = cluster_bytes - n;
            let pad: Vec<u8> = vec![0u8; rest];
            assert(pad@ =~= Seq::new((cluster_bytes - n) as nat, |i: int| 0u8));
            return self.write_at(offset + n as u64, pad.as_slice());
        }
        Ok(())
    }

    /// Link each of `clusters` to the next in the FAT.
    pub(crate) fn link_chain(&mut self, clusters: &Vec<u32>) -> (r: Result<(), FsError<D::Error>>)
        requires
            old(self).wf(),
        ensures
            final(self).wf(),
            final(self).keeps(*old(self)),
            ends_as(
                r,
                old(self).layout.chain_linked(old(self).disk(), clusters@, 0),
                final(self).disk(),
                old(self).dev.reliable(),
            ),
    {
        let ghost l = self.layout;
        let ghost start = self.disk();
        let n: usize = clusters.len();
        let mut i: usize = 0;
        while n > 0 && i < n - 1
            invariant
                self.wf(),
                self.keeps(*old(self)),
                l == old(self).layout,
                start == old(self).disk(),
                n == clusters@.len(),
                n > 0 ==> i <= n - 1,
                n == 0 ==> i == 0,
                l.chain_linked(start, clusters@, 0) == l.chain_linked(
                    self.disk(),
                    clusters@,
                    i as int,
                ),
            decreases n - i,
        {
            match self.write_fat_entry(clusters[i], clusters[i + 1]) {
                Ok(_) => {},
                Err(e) => {
                    return Err(e);
                },
            }
            i += 1;
        }
        Ok(())
    }

    /// Take the free cluster `c` as the new, zeroed end of a chain.
    fn take_cluster(&mut self, tail: u32, c: u32) -> (r: Result<(), FsError<D::Error>>)
        requires
            old(self).wf(),
        ensures
            final(self).wf(),
            final(self).keeps(*old(self)),
            ends_as(
                r,
                old(self).layout.cluster_taken(old(self).disk(), tail, c),
                final(self).disk(),
                old(self).dev.reliable(),
            ),
    {
        proof {
            lemma_unit_sizes(self.layout.boot);
        }
        match self.mark_cluster_allocated(c) {
            Ok(_) => {},
            Err(e) => {
                return Err(e);
            },
        }
        match self.write_fat_entry(tail, c) {
            Ok(_) => {},
            Err(e) => {
                return Err(e);
            },
        }
        match self.write_fat_entry(c, FAT_EOC) {
            Ok(_) => {},
            Err(e) => {
                return Err(e);
            },
        }
        // Zero the new cluster so the slot after the set terminates the
        // directory (and stale data can't decode as entries).
        let zeros: Vec<u8> = vec![0u8; self.layout.boot.bytes_per_cluster() as usize];
        assert(zeros@ =~= Seq::new(self.layout.boot.cluster_bytes() as nat, |i: int| 0u8));
        self.write_cluster(c, zeros.as_slice())
    }

    /// Append `extra` fresh, zeroed clusters to the directory whose clusters
    /// are listed, and make them durable.
    fn grow_dir(&mut self, clusters: &mut Vec<u32>, extra: u64) -> (r: Result<
        (),
        FsError<D::Error>,
    >)
        requires
            old(self).wf(),
            old(clusters)@.len() > 0,
        ensures
            final(self).wf(),
            final(self).keeps(*old(self)),
            match r {
                Ok(_) => {
                    let run = old(self).layout.dir_grown(
                        old(self).disk(),
                        old(clusters)@.last(),
                        extra as int,
                    );
                    &&& run.out is Ok
                    &&& final(clusters)@ == old(clusters)@ + run.out->Ok_0
                    &&& final(self).disk() == run.disk
                    &&& final(self).dev.durable() == final(self).dev.contents()
                },
                Err(FsError::Io(_)) => !old(self).dev.reliable(),
                Err(e) => {
                    let run = old(self).layout.dir_grown(
                        old(self).disk(),
                        old(clusters)@.last(),
                        extra as int,
                    );
                    &&& run.out == Err::<Seq<u32>, FsError<()>>(e.kind())
                    &&& final(self).disk() == run.disk
                },
            },
    {
        let ghost l = self.layout;
        let ghost whole = l.dir_grown(self.disk(), clusters@.last(), extra as int);
        let ghost given = clusters@;
        let mut tail: u32 = clusters[clusters.len() - 1];
        let mut k: u64 = 0;
        proof {
            match whole.out {
                Ok(more) => {
                    assert(given + Seq::<u32>::empty() =~= given);
                    assert(Seq::<u32>::empty() + more =~= more);
                },
                Err(_) => {},
            }
        }
        let ghost mut taken: Seq<u32> = seq![];
        while k < extra
            invariant
                self.wf(),
                self.keeps(*old(self)),
                l == old(self).layout,
                given == old(clusters)@,
                whole == l.dir_grown(old(self).disk(), given.last(), extra as int),
                k <= extra,
                clusters@ == given + taken,
                whole == (match l.dir_grown(self.disk(), tail, extra - k).out {
                    Ok(more) => done(
                        taken + more,
                        l.dir_grown(self.disk(), tail, extra - k).disk,
                    ),
                    Err(e) => l.dir_grown(self.disk(), tail, extra - k),
                }),
            decreases extra - k,
        {
            let c: u32 = match self.find_free_cluster() {
                Ok(Some(c)) => c,
                Ok(None) => {
                    return Err(FsError::StorageFull);
                },
                Err(e) => {
                    return Err(e);
                },
            };
            match self.take_cluster(tail, c) {
                Ok(_) => {},
                Err(e) => {
                    return Err(e);
                },
            }
            clusters.push(c);
            proof {
                let before = taken;
                taken = taken.push(c);
                assert(clusters@ =~= given + taken);
                match l.dir_grown(self.disk(), c, extra - k - 1).out {
                    Ok(more) => {
                        assert(taken + more =~= before + (seq![c] + more));
                    },
                    Err(_) => {},
                }
            }
            tail = c;
            k += 1;
        }
        proof {
            assert(taken + Seq::<u32>::empty() =~= taken);
        }
        // Allocate-before-link: the extended, zeroed chain must be
        // durable before the set written into it becomes visible.
        self.sync()
    }

    /// Write a set into a directory that has just grown: the grown directory
    /// must be durable before.
    fn write_grown_set(&mut self, clusters: &[u32], logical: u64, bytes: &[u8]) -> (r: Result<
        (),
        FsError<D::Error>,
    >)
        requires
            old(self).wf(),
            logical + bytes@.len() <= u64::MAX,
            old(self).dev.durable() == old(self).dev.contents(),
        ensures
            final(self).wf(),
            final(self).keeps(*old(self)),
            ends_as(
                r,
                old(self).layout.stream_written(
                    old(self).disk(),
                    clusters@,
                    logical as int,
                    bytes@,
                ),
                final(self).disk(),
                old(self).dev.reliable(),
            ),
    {
        self.write_dir_stream_at(clusters, logical, bytes)
    }

    /// After growing a sub-directory, update its entry in the parent:
    /// bump `DataLength` by `added_bytes`, clear `NoFatChain` (growth
    /// always FAT-chains), and recompute the entry-set checksum.
    fn patch_dir_entry_after_growth(&mut self, loc: &SetLoc, added_bytes: u64) -> (r: Result<
        (),
        FsError<D::Error>,
    >)
        requires
            old(self).wf(),
            loc.wf(),
        ensures
            final(self).wf(),
            final(self).keeps(*old(self)),
            ends_as(
                r,
                old(self).layout.growth_recorded(old(self).disk(), *loc, added_bytes as int),
                final(self).disk(),
                old(self).dev.reliable(),
            ),
    {
        let mut set: Vec<u8> = match self.read_set(loc) {
            Ok(set) => set,
            Err(e) => {
                return Err(e);
            },
        };
        // Stream Extension is the first secondary, at offset 32.
        if set[32] != ENTRY_TYPE_STREAM_EXTENSION {
            return Err(FsError::Corrupt(CorruptKind::DirEntry));
        }
        grow_entry_set(&mut set, added_bytes);
        self.write_set(loc, set.as_slice())
    }

    /// Append an entry set at the first end-of-directory slot, allocating
    /// and FAT-linking fresh clusters (and patching the parent entry) when
    /// the remaining space can't hold it. The set may straddle the boundary
    /// into the new clusters.
    pub fn append_entry_set_in(&mut self, ext: &DirExtent, entry_set: &[u8]) -> (r: Result<
        (),
        FsError<D::Error>,
    >)
        requires
            old(self).wf(),
            ext.wf(),
            entry_set@.len() <= 0x1_0000,
        ensures
            final(self).wf(),
            final(self).keeps(*old(self)),
            exists|now: DirExtent| #[trigger]
                old(self).layout.may_use(
                    old(self).dev.contents(),
                    *ext,
                    now,
                    old(self).dev.reliable(),
                ) && ends_as(
                    r,
                    old(self).layout.set_appended(old(self).disk(), now, entry_set@),
                    final(self).disk(),
                    old(self).dev.reliable(),
                ),
    {
        proof {
            lemma_unit_sizes(self.layout.boot);
        }
        // A held extent goes stale after growth; re-derive from disk.
        let given = *ext;
        let ext = self.refreshed_extent(ext);
        assert(self.layout.may_use(self.dev.contents(), given, ext, self.dev.reliable()));
        let ghost l = self.layout;
        let cluster_bytes: u64 = self.layout.boot.bytes_per_cluster() as u64;
        proof {
            lemma_dir_stream_len(
                l,
                self.dev.contents(),
                ext.first_cluster,
                ext.no_fat_chain,
                ext.max_clusters,
            );
        }
        let (mut clusters, buf) = match self.read_dir_stream(
            ext.first_cluster,
            ext.no_fat_chain,
            ext.max_clusters,
        ) {
            Ok(p) => p,
            Err(e) => {
                return Err(e);
            },
        };

        // First terminator (or end of allocated space) is the insert point.
        let mut insert: usize = buf.len();
        let mut pos: usize = 0;
        while buf.len() - pos >= EXFAT_ENTRY_SIZE
            invariant_except_break
                insert == buf@.len(),
            invariant
                pos <= buf@.len(),
                end_slot(buf@, 0) == end_slot(buf@, pos as int),
            ensures
                insert == end_slot(buf@, 0),
                insert <= buf@.len(),
            decreases buf@.len() - pos,
        {
            if buf[pos] == END_OF_DIRECTORY {
                insert = pos;
                break ;
            }
            pos += EXFAT_ENTRY_SIZE;
        }

        let room: usize = buf.len() - insert;
        if entry_set.len() <= room {
            return self.write_dir_stream_at(clusters.as_slice(), insert as u64, entry_set);
        }
        // Grow the directory by as many clusters as the shortfall needs —
        // the insert point can sit just below the old end, so a set may
        // span several fresh clusters. The set itself may straddle the
        // old/new boundary.

        let shortfall: u64 = (entry_set.len() - room) as u64;
        let extra: u64 = div_ceil_u64(shortfall, cluster_bytes);
        if clusters.len() == 0 {
            return Err(FsError::Corrupt(CorruptKind::ClusterChain));
        }
        // A previously contiguous (NoFatChain) directory needs FAT
        // linkage now so the iterator can reach the new clusters.

        if ext.no_fat_chain {
            match self.link_chain(&clusters) {
                Ok(_) => {},
                Err(e) => {
                    return Err(e);
                },
            }
        }
        match self.grow_dir(&mut clusters, extra) {
            Ok(_) => {},
            Err(e) => {
                return Err(e);
            },
        }
        match self.write_grown_set(clusters.as_slice(), insert as u64, entry_set) {
            Ok(_) => {},
            Err(e) => {
                return Err(e);
            },
        }
        // The root has no parent entry; its growth is implicit in the FAT.
        match ext.parent_entry {
            Some(parent_loc) => {
                proof {
                    let (s, c) = (shortfall as int, cluster_bytes as int);
                    vstd::arithmetic::div_mod::lemma_fundamental_div_mod(s + c - 1, c);
                    vstd::arithmetic::div_mod::lemma_mod_bound(s + c - 1, c);
                    assert(extra * c <= s + c - 1) by (nonlinear_arith)
                        requires
                            s + c - 1 == c * (extra as int) + (s + c - 1) % c,
                            0 <= (s + c - 1) % c,
                    ;
                }
                self.patch_dir_entry_after_growth(&parent_loc, extra * cluster_bytes)
            },
            None => Ok(()),
        }
    }

    /// Locate `name`'s entry set in the given directory (case-insensitive
    /// via the upcase table). Straddling sets are found like any other —
    /// the scan runs over the concatenated directory stream, and a corrupt
    /// set is skipped by one slot just as the listing skips it.
    pub fn locate_entry_set_in(&self, ext: &DirExtent, name: &str) -> (r: Result<
        Option<SetLoc>,
        FsError<D::Error>,
    >)
        requires
            self.wf(),
            ext.wf(),
        ensures
            r matches Ok(Some(loc)) ==> loc.wf(),
            exists|now: DirExtent| #[trigger]
                self.layout.may_use(self.dev.contents(), *ext, now, self.dev.reliable()) && match r {
                    Err(FsError::Io(_)) => !self.dev.reliable(),
                    Ok(v) => self.layout.set_located(
                        self.name_policy,
                        self.dev.contents(),
                        now,
                        name@,
                    ) == Ok::<Option<SetLoc>, FsError<()>>(v),
                    Err(e) => self.layout.set_located(
                        self.name_policy,
                        self.dev.contents(),
                        now,
                        name@,
                    ) == Err::<Option<SetLoc>, FsError<()>>(e.kind()),
                },
    {
        // A held extent goes stale after growth; re-derive from disk.
        let given = *ext;
        let ext = self.refreshed_extent(ext);
        assert(self.layout.may_use(self.dev.contents(), given, ext, self.dev.reliable()));
        let (_, buf) = match self.read_dir_stream(
            ext.first_cluster,
            ext.no_fat_chain,
            ext.max_clusters,
        ) {
            Ok(p) => p,
            Err(e) => {
                return Err(e);
            },
        };
        match locate_in_stream(&self.name_policy, buf, name) {
            None => Ok(None),
            Some((pos, len)) => Ok(
                Some(
                    SetLoc {
                        dir_first_cluster: ext.first_cluster,
                        dir_no_fat_chain: ext.no_fat_chain,
                        dir_max_clusters: ext.max_clusters,
                        logical: pos as u64,
                        len,
                    },
                ),
            ),
        }
    }

    /// Free every cluster referenced by an entry's stream (`data_length`
    /// bytes from `first`). Saturating count: an out-of-range on-disk
    /// `data_length` must not truncate to a bogus (possibly zero) count.
    pub fn free_entry_clusters(&mut self, first: u32, data_length: u64, no_fat_chain: bool) -> (r:
        Result<(), FsError<D::Error>>)
        requires
            old(self).wf(),
            no_fat_chain && data_length > 0 && first >= 2 ==> first + clusters_for(
                data_length as int,
                old(self).layout.boot.cluster_bytes(),
            ) <= u32::MAX + 1,
        ensures
            final(self).wf(),
            final(self).keeps(*old(self)),
            ends_as(
                r,
                old(self).layout.stream_freed(
                    old(self).disk(),
                    first as int,
                    data_length as int,
                    no_fat_chain,
                ),
                final(self).disk(),
                old(self).dev.reliable(),
            ),
    {
        if data_length == 0 || first < 2 {
            return Ok(());
        }
        proof {
            lemma_unit_sizes(self.layout.boot);
        }
        let count: u32 = cluster_count_for(data_length, self.layout.boot.bytes_per_cluster());
        self.free_cluster_chain(first, count, no_fat_chain)
    }

    /// Clear the `InUse` bit on every entry of `name`'s set, marking it
    /// deleted. Does **not** free clusters — `rename` relies on that to
    /// relocate an entry while its data stays in place.
    pub fn unlink_entry_set_in(&mut self, parent: &DirExtent, name: &str) -> (r: Result<
        (),
        FsError<D::Error>,
    >)
        requires
            old(self).wf(),
            parent.wf(),
        ensures
            final(self).wf(),
            final(self).keeps(*old(self)),
            exists|now: DirExtent| #[trigger]
                old(self).layout.may_use(
                    old(self).dev.contents(),
                    *parent,
                    now,
                    old(self).dev.reliable(),
                ) && ends_as(
                    r,
                    old(self).layout.set_unlinked(
                        old(self).name_policy,
                        old(self).disk(),
                        now,
                        name@,
                    ),
                    final(self).disk(),
                    old(self).dev.reliable(),
                ),
    {
        let loc = match self.locate_entry_set_in(parent, name) {
            Ok(Some(loc)) => loc,
            Ok(None) => {
                return Err(FsError::NotFound);
            },
            Err(e) => {
                return Err(e);
            },
        };
        let mut set: Vec<u8> = match self.read_set(&loc) {
            Ok(set) => set,
            Err(e) => {
                return Err(e);
            },
        };
        clear_in_use(&mut set);
        self.write_set(&loc, set.as_slice())
    }
}

} // verus!
