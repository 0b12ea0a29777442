//! Where free clusters are looked for, and that freed ones are found again.

use vstd::prelude::*;

use super::layout::{FatDisk, FatLayout, FatWrite};
use super::regions::law_fat_cell_written;
use crate::codec::fat::bpb::Ebr;
use crate::codec::fat::fat_entry::FatEntry;
use crate::error::FsError;

verus! {

/// Where a search starts: at the lowest cluster that may be free by what the volume
/// remembers and, on a volume with FSInfo, by the hint there if it names a cluster;
/// never below the first cluster there is.
pub open spec fn first_candidate(l: FatLayout, d: FatDisk) -> int {
    let said = d.fsinfo.first_free_cluster;
    let told = match l.boot.ebr {
        Ebr::Fat32(_, _) => said != 0xFFFF_FFFF && said <= l.props.max_cluster,
        Ebr::Fat16(_) => false,
    };
    let h = if told && said < d.hint {
        said as int
    } else {
        d.hint as int
    };
    if h <= 2 {
        2
    } else {
        h
    }
}

proof fn lemma_free_from(l: FatLayout, img: Seq<u8>, from: int)
    requires
        2 <= from,
    ensures
        match l.free_from(img, from) {
            Ok(Some(c)) => {
                &&& from <= c <= l.props.max_cluster
                &&& l.fat_read(img, c as int) == Ok::<FatEntry, FsError<()>>(FatEntry::Free)
                &&& forall|k: int|
                    from <= k < c ==> #[trigger] l.fat_read(img, k) is Ok && l.fat_read(img, k)->Ok_0
                        != FatEntry::Free
            },
            Ok(None) => forall|k: int|
                from <= k <= l.props.max_cluster ==> #[trigger] l.fat_read(img, k) is Ok
                    && l.fat_read(img, k)->Ok_0 != FatEntry::Free,
            Err(_) => exists|k: int|
                from <= k <= l.props.max_cluster && #[trigger] l.fat_read(img, k) is Err,
        },
    decreases l.props.max_cluster + 1 - from,
{
    if from <= l.props.max_cluster {
        match l.fat_read(img, from) {
            Ok(FatEntry::Free) => {},
            Ok(_) => {
                lemma_free_from(l, img, from + 1);
            },
            Err(_) => {},
        }
    }
}

/// A search for a free cluster takes the lowest one from its starting point on, and
/// comes back empty only where there is none; it changes nothing on the disk, and
/// remembers what it found.
pub proof fn law_search_takes_lowest(l: FatLayout, d: FatDisk)
    requires
        forall|k: int|
            2 <= k <= l.props.max_cluster ==> #[trigger] l.fat_read(d.img, k) is Ok,
    ensures
        ({
            let r = l.free_search(d);
            let from = first_candidate(l, d);
            &&& r.disk.img == d.img
            &&& match r.out {
                Ok(Some(c)) => {
                    &&& from <= c <= l.props.max_cluster
                    &&& l.fat_read(d.img, c as int) == Ok::<FatEntry, FsError<()>>(FatEntry::Free)
                    &&& forall|k: int|
                        from <= k < c ==> (#[trigger] l.fat_read(d.img, k))->Ok_0 != FatEntry::Free
                    &&& r.disk.hint == c
                },
                Ok(None) => forall|k: int|
                    from <= k <= l.props.max_cluster ==> (#[trigger] l.fat_read(d.img, k))->Ok_0
                        != FatEntry::Free,
                Err(_) => false,
            }
        }),
{
    lemma_free_from(l, d.img, first_candidate(l, d));
}

/// A cluster that is given back is found again: a search after it hands out that
/// cluster or a lower one. Putting a cluster to use leaves what is remembered of
/// the lowest free one as it was.
pub proof fn law_freed_cluster_is_found(l: FatLayout, d: FatDisk, c: u32, value: FatWrite)
    requires
        l.sound(),
        l.fat_written(d, c, value).out is Ok,
        value matches FatWrite::Next(n) ==> l.is_cluster(n as int),
        forall|k: int|
            2 <= k <= l.props.max_cluster ==> #[trigger] l.fat_read(d.img, k) is Ok,
    ensures
        ({
            let a = l.fat_written(d, c, value).disk;
            &&& value is Free ==> (l.free_search(a).out matches Ok(Some(x)) && 2 <= x <= c)
            &&& !(value is Free) ==> a.hint == d.hint && first_candidate(l, a) == first_candidate(
                l,
                d,
            )
            &&& l.boot.ebr is Fat32 ==> a.fsinfo.free_cluster_count == 0xFFFF_FFFF && a.fsinfo_dirty
            &&& !(l.boot.ebr is Fat32) ==> a.fsinfo == d.fsinfo && a.fsinfo_dirty == d.fsinfo_dirty
        }),
{
    let a = l.fat_written(d, c, value).disk;
    law_fat_cell_written(l, d, c, value);
    lemma_copies_keep_hints(l, d, c, value);
    assert forall|k: int| 2 <= k <= l.props.max_cluster implies #[trigger] l.fat_read(a.img, k) is Ok by {
        if k != c {
            assert(l.fat_read(a.img, k) == l.fat_read(d.img, k));
        }
    }
    if value is Free {
        assert(first_candidate(l, a) <= c);
        law_search_takes_lowest(l, a);
        assert(l.fat_read(a.img, c as int)->Ok_0 == FatEntry::Free);
    }
}

/// Writing a cell changes what is remembered only as its value says.
proof fn lemma_copies_keep_hints(l: FatLayout, d: FatDisk, c: u32, value: FatWrite)
    requires
        l.fat_written(d, c, value).out is Ok,
    ensures
        ({
            let a = l.fat_written(d, c, value).disk;
            &&& a.hint == (if value is Free && c < d.hint {
                c
            } else {
                d.hint
            })
            &&& !(l.boot.ebr is Fat32) ==> a.fsinfo == d.fsinfo && a.fsinfo_dirty == d.fsinfo_dirty
            &&& l.boot.ebr is Fat32 ==> {
                &&& a.fsinfo.free_cluster_count == 0xFFFF_FFFF
                &&& a.fsinfo_dirty
                &&& a.fsinfo.first_free_cluster == (if value is Free && c
                    < d.fsinfo.first_free_cluster {
                    c
                } else {
                    d.fsinfo.first_free_cluster
                })
            }
        }),
{
    let p = l.cell_pos(c as int);
    let bytes = l.cell_image(l.cell_for(value, crate::bytes::le32(d.img, p)));
    lemma_written_keeps_hints(l, d, c as int, bytes, 0, l.props.fat_table_count as int);
}

proof fn lemma_written_keeps_hints(
    l: FatLayout,
    d: FatDisk,
    c: int,
    bytes: Seq<u8>,
    copy: int,
    to: int,
)
    ensures
        ({
            let w = l.copies_written(d, c, bytes, copy, to).disk;
            w.hint == d.hint && w.fsinfo == d.fsinfo && w.fsinfo_dirty == d.fsinfo_dirty
        }),
    decreases to - copy,
{
    if copy < to {
        let w = l.written(d, l.fat_base(copy) + c * l.fat_type.cell_bytes(), bytes);
        if w.out is Ok {
            lemma_written_keeps_hints(l, w.disk, c, bytes, copy + 1, to);
        }
    }
}

} // verus!
