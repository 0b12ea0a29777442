//! When work on a file succeeds: where there is room, it does.

use vstd::prelude::*;

use super::alloc_laws::lemma_cell_writable;
use super::dir_laws::{law_slots_written, lemma_places_walked};
use super::dir_slots::{FatDir, SlotPos};
use super::entry::{entry_slots, FatFields};
use super::entry_laws::{
    inserted_fields, lemma_entry_count, lemma_inserted_storable, lemma_slots_sized, name_storable,
};
use super::file::FatFileRun;
use super::file_laws::{lemma_room_made, lemma_stream_put};
use super::format_laws::{law_first_room_is_taken, room_at};
use super::layout::{lemma_cluster_size, FatDisk, FatLayout, FatWrite};
use super::regions::{
    law_fat_cell_written, lemma_cell_inside, lemma_cluster_places, lemma_copy_places,
};
use super::rename_laws::law_lookup_finds_first;
use super::slot_iter::fat_listing;
use super::space_laws::{first_candidate, law_freed_cluster_is_found, law_search_takes_lowest};
use super::stream_laws::{lemma_file_chain, lemma_tail_found};
use crate::calendar::PrimitiveDateTime;
use crate::codec::fat::fat_entry::FatEntry;
use crate::error::{FileError, FsError};
use crate::exfat::cluster_map::real_cluster;
use crate::exfat::layout::clusters_for;
use crate::file::FileState;
use crate::name::NamePolicy;
use crate::num::ceil_div;
use crate::vfs::NewEntry;

verus! {

/// On a volume that the device holds whole, cells can always be read.
proof fn lemma_cells_readable(l: FatLayout, img: Seq<u8>)
    requires
        l.sound(),
        l.volume_end() <= img.len(),
    ensures
        forall|k: int| 2 <= k <= l.props.max_cluster ==> #[trigger] l.fat_read(img, k) is Ok,
{
    assert forall|k: int| 2 <= k <= l.props.max_cluster implies #[trigger] l.fat_read(img, k) is Ok by {
        lemma_cell_inside(l, k);
        lemma_cluster_places(l, k, k);
        let act = l.active_copy();
        lemma_copy_places(l, act, act);
    }
}

/// The clusters of `free` are free, all different, and none lies below the place at
/// which a search starts.
pub open spec fn at_hand(l: FatLayout, d: FatDisk, free: Seq<u32>) -> bool {
    &&& free.no_duplicates()
    &&& forall|i: int|
        0 <= i < free.len() ==> {
            &&& l.is_cluster((#[trigger] free[i]) as int)
            &&& l.fat_read(d.img, free[i] as int) == Ok::<FatEntry, FsError<()>>(FatEntry::Free)
            &&& first_candidate(l, d) <= free[i]
        }
}

/// Clusters can be claimed while there are free ones.
proof fn lemma_claims(
    l: FatLayout,
    d: FatDisk,
    n: int,
    prev: Option<u32>,
    got: Seq<u32>,
    linked: bool,
    free: Seq<u32>,
)
    requires
        l.sound(),
        l.volume_end() <= d.img.len(),
        at_hand(l, d, free),
        n <= free.len(),
        prev matches Some(p) ==> l.is_cluster(p as int) && !free.contains(p),
    ensures
        l.claimed(d, n, prev, got, linked).out is Ok,
    decreases n,
{
    if n > 0 {
        lemma_cells_readable(l, d.img);
        law_search_takes_lowest(l, d);
        let f = l.free_search(d);
        let from = first_candidate(l, d);
        assert(l.is_cluster(free[0] as int));
        assert(l.fat_read(d.img, free[0] as int)->Ok_0 == FatEntry::Free);
        let c = f.out->Ok_0->0;
        assert(f.out == Ok::<Option<u32>, FsError<()>>(Some(c)));
        let more = got.push(c);
        lemma_cell_writable(l, f.disk, c, FatWrite::End);
        let w = l.fat_written(f.disk, c, FatWrite::End);
        law_fat_cell_written(l, f.disk, c, FatWrite::End);
        law_freed_cluster_is_found(l, f.disk, c, FatWrite::End);
        lemma_cells_readable(l, w.disk.img);
        let k = match prev {
            Some(p) => l.fat_written(w.disk, p, FatWrite::Next(c)),
            None => w,
        };
        if let Some(p) = prev {
            lemma_cell_writable(l, w.disk, p, FatWrite::Next(c));
            law_fat_cell_written(l, w.disk, p, FatWrite::Next(c));
            law_freed_cluster_is_found(l, w.disk, p, FatWrite::Next(c));
        }
        assert(first_candidate(l, f.disk) <= c);
        let m = free.len() as int;
        let at = if free.contains(c) {
            free.index_of(c)
        } else {
            m - 1
        };
        let rest = free.remove(at);
        assert(at_hand(l, k.disk, rest)) by {
            assert forall|i: int| 0 <= i < rest.len() implies {
                &&& l.is_cluster((#[trigger] rest[i]) as int)
                &&& l.fat_read(k.disk.img, rest[i] as int) == Ok::<FatEntry, FsError<()>>(
                    FatEntry::Free,
                )
                &&& first_candidate(l, k.disk) <= rest[i]
            } by {
                let j = if i < at {
                    i
                } else {
                    i + 1
                };
                assert(rest[i] == free[j]);
                assert(free.contains(free[j]));
                assert(l.is_cluster(free[j] as int));
                assert(rest[i] != c) by {
                    if free.contains(c) {
                        assert(free[at] == c);
                    }
                }
                let x = rest[i] as int;
                assert(l.fat_read(w.disk.img, x) == l.fat_read(f.disk.img, x));
                assert(l.fat_read(k.disk.img, x) == l.fat_read(w.disk.img, x));
                assert(c <= x) by {
                    if x < c {
                        assert(l.fat_read(d.img, x)->Ok_0 != FatEntry::Free);
                    }
                }
            }
            assert forall|i: int, j: int| 0 <= i < rest.len() && 0 <= j < rest.len() && i
                != j implies rest[i] != rest[j] by {
                let p = if i < at {
                    i
                } else {
                    i + 1
                };
                let q = if j < at {
                    j
                } else {
                    j + 1
                };
                assert(rest[i] == free[p] && rest[j] == free[q]);
            }
        }
        assert(!rest.contains(c)) by {
            if rest.contains(c) {
                let i = choose|i: int| 0 <= i < rest.len() && rest[i] == c;
                assert(l.fat_read(k.disk.img, rest[i] as int) == Ok::<FatEntry, FsError<()>>(
                    FatEntry::Free,
                ));
                let j = if i < at {
                    i
                } else {
                    i + 1
                };
                assert(rest[i] == free[j]);
                assert(free.contains(c));
                assert(free[at] == c);
            }
        }
        lemma_claims(l, k.disk, n - 1, Some(c), more, true, rest);
    }
}

/// A file grows while there are free clusters.
proof fn lemma_room_there(
    l: FatLayout,
    d: FatDisk,
    s: FileState,
    allocated: u64,
    cs: Seq<u32>,
    needed: int,
    free: Seq<u32>,
)
    requires
        l.file_sound(d.img, s, allocated, cs),
        at_hand(l, d, free),
        0 <= needed <= allocated + free.len() * l.props.cluster_size,
        needed <= 0xFFFF_FFFF,
    ensures
        l.room_made(d, s, allocated, needed).out is Ok,
{
    lemma_cluster_size(l);
    let (size, m) = (l.props.cluster_size as int, free.len() as int);
    if needed > allocated {
        let k = cs.len() as int;
        assert(m > 0) by {
            if m == 0 {
                assert(m * size == 0) by (nonlinear_arith)
                    requires
                        m == 0,
                ;
            }
        }
        let bytes = if k == 0 {
            if needed < size {
                size
            } else {
                needed
            }
        } else {
            needed - allocated
        };
        let n = l.clusters_wanted(allocated as int, k > 0, needed);
        assert(k == 0 ==> k * size == 0) by (nonlinear_arith);
        assert(m * size >= size) by (nonlinear_arith)
            requires
                m >= 1,
                size >= 1,
        ;
        assert(0 < bytes <= m * size);
        assert(1 <= ceil_div(bytes, size) <= m) by (nonlinear_arith)
            requires
                0 < bytes <= m * size,
                size > 0,
                ceil_div(bytes, size) == (bytes + size - 1) / size,
        ;
        assert(clusters_for(bytes, size) <= m);
        assert(n <= m);
        if k > 0 {
            lemma_file_chain(l, d.img, cs[0], cs);
            lemma_tail_found(l, d.img, cs, 0);
            let tail = cs.last();
            assert(tail == cs[k - 1]);
            assert(!free.contains(tail)) by {
                if free.contains(tail) {
                    let i = choose|i: int| 0 <= i < free.len() && free[i] == tail;
                    assert(l.fat_read(d.img, free[i] as int) == Ok::<FatEntry, FsError<()>>(
                        FatEntry::Free,
                    ));
                }
            }
            lemma_claims(l, d, n, Some(tail), seq![], false, free);
            assert(l.link_point(d.img, Some(s.first_cluster), None) == Ok::<
                Option<u32>,
                FsError<()>,
            >(Some(tail)));
        } else {
            assert(real_cluster(Some(s.first_cluster)) is None);
            lemma_claims(l, d, n, None, seq![], false, free);
        }
    }
}

/// Work on a file that may be written succeeds where there is room: in the clusters
/// that the file has, or with as many free clusters as it needs more. It is refused
/// to a file that may not be written, and beyond the largest size that an entry can
/// store; the file then stays as it is.
pub proof fn law_work_succeeds_with_room(
    l: FatLayout,
    d: FatDisk,
    s: FileState,
    allocated: u64,
    cs: Seq<u32>,
    bytes: Seq<u8>,
    size: u64,
    now: PrimitiveDateTime,
    free: Seq<u32>,
)
    requires
        l.file_sound(d.img, s, allocated, cs),
        at_hand(l, d, free),
        bytes.len() <= usize::MAX,
    ensures
        ({
            let room = allocated + free.len() * l.props.cluster_size;
            let w = l.file_written(d, s, allocated, bytes, now);
            let r = l.file_resized(d, s, allocated, size, now);
            &&& !s.writable ==> {
                &&& w == (FatFileRun {
                    out: Err::<usize, FileError<()>>(FileError::ReadOnly),
                    disk: d,
                    state: s,
                    allocated,
                })
                &&& r == (FatFileRun {
                    out: Err::<(), FileError<()>>(FileError::ReadOnly),
                    disk: d,
                    state: s,
                    allocated,
                })
            }
            &&& s.writable && s.pos + bytes.len() > 0xFFFF_FFFF && bytes.len() > 0 ==> w == (
            FatFileRun {
                out: Err::<usize, FileError<()>>(FileError::FileTooLarge),
                disk: d,
                state: s,
                allocated,
            })
            &&& s.writable && size > 0xFFFF_FFFF ==> r == (FatFileRun {
                out: Err::<(), FileError<()>>(FileError::FileTooLarge),
                disk: d,
                state: s,
                allocated,
            })
            &&& s.writable && s.pos + bytes.len() <= room && s.pos + bytes.len() <= 0xFFFF_FFFF
                ==> w.out == Ok::<usize, FileError<()>>(bytes.len() as usize)
            &&& s.writable && s.len <= size <= room && size <= 0xFFFF_FFFF ==> r.out is Ok
            &&& bytes.len() == 0 && s.writable ==> w.disk == d && w.state == s && w.allocated
                == allocated
        }),
{
    let end = s.pos + bytes.len();
    let room = allocated + free.len() * l.props.cluster_size;
    if s.writable && s.len < size <= room && size <= 0xFFFF_FFFF {
        lemma_room_there(l, d, s, allocated, cs, size as int, free);
        let all = lemma_room_made(l, d, s, allocated, cs, size as int);
        let g = l.room_made(d, s, allocated, size as int);
        lemma_stream_put(
            l,
            g.disk,
            g.state,
            g.allocated,
            all,
            s.valid_len as int,
            size as int,
            seq![],
        );
    }
    if s.writable && end <= room && end <= 0xFFFF_FFFF && bytes.len() > 0 {
        lemma_room_there(l, d, s, allocated, cs, end, free);
        let all = lemma_room_made(l, d, s, allocated, cs, end);
        let g = l.room_made(d, s, allocated, end);
        let from = if s.pos > s.valid_len {
            s.valid_len as int
        } else {
            s.pos as int
        };
        lemma_stream_put(l, g.disk, g.state, g.allocated, all, from, s.pos as int, bytes);
    }
}

/// A new file can be inserted where its directory has a run of free slots for its
/// entry, if its name is not taken and a short name is left for it. It goes into
/// the first such run.
pub proof fn law_insert_succeeds_with_room(
    l: FatLayout,
    d: FatDisk,
    dir: FatDir,
    cs: Seq<u32>,
    entry: NewEntry,
    i: int,
)
    requires
        l.dir_tidy(d.img, dir, cs),
        name_storable(entry.name@),
        entry.times.wf(),
        !entry.is_dir,
        l.fat_type is FAT16 ==> entry.first_cluster < 0x1_0000,
        fat_listing(l, d.img, dir).1 is None,
        forall|k: int|
            0 <= k < fat_listing(l, d.img, dir).0.len() ==> !NamePolicy::Ascii.same_name(
                #[trigger] fat_listing(l, d.img, dir).0[k].name,
                entry.name@,
            ),
        l.sfn_chosen(d.img, dir, entry.name@) is Ok,
        ({
            let n = entry_slots(inserted_fields(l, d, dir, entry)).len() as int;
            let ps = l.places(dir, cs);
            &&& 0 <= i
            &&& i + n <= ps.len() <= 65535
            &&& room_at(l, d.img, ps, i, n)
            &&& forall|k: int| 0 <= k < i ==> !#[trigger] room_at(l, d.img, ps, k, n)
        }),
    ensures
        ({
            let r = l.inserted(d, dir, entry);
            &&& r.out is Ok
            &&& r.out->Ok_0.chain.first == l.places(dir, cs)[i]
        }),
{
    let name = entry.name@;
    let p = inserted_fields(l, d, dir, entry);
    let n = entry_slots(p).len() as int;
    let ps = l.places(dir, cs);
    law_lookup_finds_first(l, d.img, dir, name);
    assert(l.child(d.img, dir, name) == Ok::<Option<FatFields>, FsError<()>>(None));
    lemma_inserted_storable(l, d, dir, cs, entry);
    lemma_entry_count(l.fat_type, p);
    lemma_slots_sized(l.fat_type, p);
    lemma_places_walked(l, d.img, dir, cs);
    assert forall|k: int| 0 <= k < ps.len() - 1 implies l.slot_after(d.img, #[trigger] ps[k]) == Ok::<
        Option<SlotPos>,
        FsError<()>,
    >(Some(ps[k + 1])) by {
        assert(l.slot_after(d.img, ps[k]) == Ok::<Option<SlotPos>, FsError<()>>(Some(ps[k + 1])));
    }
    law_first_room_is_taken(l, d, dir, ps, i, n);
    law_slots_written(l, d, dir, cs, i, entry_slots(p));
}

} // verus!
