//! A volume that was written to and flushed can be mounted again.

use vstd::prelude::*;

use super::chains::members;
use super::direntry::fat_meaning;
use super::effects::lemma_untouched;
use super::layout::{
    le_bytes16, lemma_unit_sizes, read_of, ClusterRange, Disk, ExfatLayout, VOLUME_DIRTY,
};
use super::mount::{
    boot_checked, boot_of, mounted, root_scanned, slots_scanned, wrapped_last, MountFacts,
    SystemEntries,
};
use super::regions::{is_flag_place, lemma_cluster_places};
use super::upcase::table_loaded;
use crate::bytes::{le16, le32};
use crate::codec::FixedCodec;
use crate::codec::exfat::boot::ExfatBootRecord;
use crate::error::FsError;
use crate::num::ceil_div;

verus! {

/// The two images differ at most in the boot fields that change in place.
pub open spec fn differ_in_flags(a: Seq<u8>, b: Seq<u8>) -> bool {
    &&& a.len() == b.len()
    &&& forall|i: int|
        0 <= i < a.len() && i != 106 && i != 107 && i != 112 ==> #[trigger] a[i] == b[i]
}

/// `boot` with other values in the fields that change in place.
pub open spec fn reflagged(boot: ExfatBootRecord, flags: u16, percent: u8) -> ExfatBootRecord {
    ExfatBootRecord { flags, used_percentage: percent, ..boot }
}

/// Nothing found yet.
pub open spec fn no_entries() -> SystemEntries {
    SystemEntries { bitmap: None, upcase: None }
}

/// The search of the root directory does not look at those fields.
pub proof fn lemma_root_scanned_same(
    l: ExfatLayout,
    a: Seq<u8>,
    b: Seq<u8>,
    flags: u16,
    percent: u8,
    cluster: u32,
    walked: int,
    f: SystemEntries,
)
    requires
        l.boot.valid_shifts(),
        l.regions_apart(),
        differ_in_flags(a, b),
    ensures
        root_scanned(l.boot, a, cluster, walked, f) == root_scanned(
            reflagged(l.boot, flags, percent),
            b,
            cluster,
            walked,
            f,
        ),
    decreases l.boot.cluster_count + 1 - walked,
{
    let boot = l.boot;
    let other = reflagged(boot, flags, percent);
    if walked > boot.cluster_count || cluster < 2 {
    } else {
        lemma_cluster_places(l, cluster as int, 2);
        lemma_unit_sizes(boot);
        let p = boot.cluster_pos(cluster as int);
        let cb = boot.cluster_bytes();
        assert(other.cluster_pos(cluster as int) == p && other.cluster_bytes() == cb);
        assert(other.fat_pos(cluster as int) == boot.fat_pos(cluster as int));
        if p + cb <= a.len() {
            assert(a.subrange(p, p + cb) =~= b.subrange(p, p + cb));
        }
        assert(read_of(a, p, cb) == read_of(b, p, cb));
        if let Ok(buf) = read_of(a, p, cb) {
            let (g, over) = slots_scanned(buf, 0, f);
            let q = boot.fat_pos(cluster as int);
            if !over && q + 4 <= a.len() {
                assert(a[q] == b[q] && a[q + 1] == b[q + 1] && a[q + 2] == b[q + 2] && a[q + 3]
                    == b[q + 3]);
                let next = le32(a, q);
                if 2 <= next <= wrapped_last(boot) {
                    lemma_root_scanned_same(l, a, b, flags, percent, next as u32, walked + 1, g);
                }
            }
        }
    }
}

/// A volume that mounts still mounts when only the flags and the usage
/// percentage differ, with the same bitmap and the same up-case table.
pub proof fn law_flags_do_not_matter(
    l: ExfatLayout,
    a: Seq<u8>,
    b: Seq<u8>,
    flags: u16,
    percent: u8,
    table: Seq<(u16, u16)>,
)
    requires
        mounted(a) == Ok::<MountFacts, FsError<()>>(MountFacts { layout: l, table }),
        l.boot.layout(a.subrange(0, 120)),
        l.regions_apart(),
        differ_in_flags(a, b),
        le16(b, 106) == flags,
        b[112] == percent,
    ensures
        mounted(b) == Ok::<MountFacts, FsError<()>>(
            MountFacts {
                layout: ExfatLayout {
                    boot: reflagged(l.boot, flags, percent),
                    bitmap: l.bitmap,
                    dirty_since_mount: flags & VOLUME_DIRTY != 0,
                },
                table,
            },
        ),
{
    let boot = l.boot;
    let other = reflagged(boot, flags, percent);
    lemma_unit_sizes(boot);
    lemma_boot_kept(l, a, b, flags, percent);
    let f = SystemEntries { bitmap: None, upcase: None };
    lemma_root_scanned_same(l, a, b, flags, percent, boot.root_dir_cluster, 0, f);
    let g = root_scanned(boot, a, boot.root_dir_cluster, 0, f)->Ok_0;
    let (upcase, sum) = g.upcase->0;
    lemma_cluster_places(l, upcase.first_cluster as int, 2);
    let p = boot.cluster_pos(upcase.first_cluster as int);
    assert(other.cluster_pos(upcase.first_cluster as int) == p);
    let n = upcase.byte_length as int;
    if p + n <= a.len() {
        assert(a.subrange(p, p + n) =~= b.subrange(p, p + n));
    }
}

/// A volume that was clean at mount, then written to and flushed, mounts again
/// and is clean: the same layout but for the usage percentage, which is marked
/// as unknown, and the same up-case table. While it is dirty it mounts too.
pub proof fn law_flushed_volume_remounts(l: ExfatLayout, img: Seq<u8>, table: Seq<(u16, u16)>)
    requires
        mounted(img) == Ok::<MountFacts, FsError<()>>(MountFacts { layout: l, table }),
        l.boot.layout(img.subrange(0, 120)),
        l.regions_apart(),
        !l.dirty_since_mount,
    ensures
        ({
            let d = Disk { img, dirty: false };
            let dirty = l.raised(d);
            let clean = l.lowered(dirty);
            &&& mounted(dirty.img) == Ok::<MountFacts, FsError<()>>(
                MountFacts {
                    layout: ExfatLayout {
                        boot: reflagged(l.boot, l.boot.flags | VOLUME_DIRTY, 0xFF),
                        bitmap: l.bitmap,
                        dirty_since_mount: true,
                    },
                    table,
                },
            )
            &&& mounted(clean.img) == Ok::<MountFacts, FsError<()>>(
                MountFacts {
                    layout: ExfatLayout {
                        boot: reflagged(l.boot, l.boot.flags, 0xFF),
                        bitmap: l.bitmap,
                        dirty_since_mount: false,
                    },
                    table,
                },
            )
        }),
{
    let d = Disk { img, dirty: false };
    let dirty = l.raised(d);
    let clean = l.lowered(dirty);
    let f = l.boot.flags;
    assert((f & 0x0002u16 == 0 ==> f & !0x0002u16 == f) && (f | 0x0002u16) & 0x0002u16 != 0u16)
        by (bit_vector);
    lemma_unit_sizes(l.boot);
    assert(img.len() >= 120);
    let (g, h) = (le_bytes16(f | VOLUME_DIRTY), le_bytes16(f));
    assert(dirty.img[106] == g[0] && dirty.img[107] == g[1] && dirty.img[112] == 0xFF);
    assert(clean.img[106] == h[0] && clean.img[107] == h[1] && clean.img[112] == 0xFF);
    law_flags_do_not_matter(l, img, dirty.img, f | VOLUME_DIRTY, 0xFF, table);
    law_flags_do_not_matter(l, img, clean.img, f, 0xFF, table);
}

/// The search of the root directory finds the same where the directory is as it
/// was.
pub proof fn lemma_root_scan_kept(
    l: ExfatLayout,
    a: Seq<u8>,
    b: Seq<u8>,
    flags: u16,
    percent: u8,
    root: Seq<u32>,
    i: int,
    f: SystemEntries,
)
    requires
        l.wf(),
        l.regions_apart(),
        a.len() == b.len(),
        0 <= i < root.len(),
        l.dir_walk(a, Some(root[i]), false, u32::MAX as int, i) == Ok::<Seq<u32>, FsError<()>>(
            root.subrange(i, root.len() as int),
        ),
        forall|k: int|
            0 <= k < root.len() ==> {
                let c = (#[trigger] root[k]) as int;
                &&& l.in_heap(c)
                &&& l.cluster_on(a, c)
                &&& l.cluster_data(b, c) == l.cluster_data(a, c)
                &&& l.fat_read(b, c) == l.fat_read(a, c)
            },
    ensures
        root_scanned(l.boot, a, root[i], i, f) == root_scanned(
            reflagged(l.boot, flags, percent),
            b,
            root[i],
            i,
            f,
        ),
    decreases root.len() - i,
{
    let boot = l.boot;
    let other = reflagged(boot, flags, percent);
    let c = root[i] as int;
    lemma_unit_sizes(boot);
    let p = boot.cluster_pos(c);
    let cb = boot.cluster_bytes();
    assert(other.cluster_pos(c) == p && other.cluster_bytes() == cb);
    assert(other.fat_pos(c) == boot.fat_pos(c));
    let buf = l.cluster_data(a, c);
    assert(read_of(a, p, cb) == Ok::<Seq<u8>, FsError<()>>(buf));
    assert(read_of(b, p, cb) == Ok::<Seq<u8>, FsError<()>>(buf));
    let (g, over) = slots_scanned(buf, 0, f);
    if !over && boot.fat_pos(c) + 4 <= a.len() {
        let (x, y) = (le32(a, boot.fat_pos(c)), le32(b, boot.fat_pos(c)));
        assert(fat_meaning(x, boot.cluster_count as int) == fat_meaning(
            y,
            boot.cluster_count as int,
        ));
        if 2 <= x <= wrapped_last(boot) {
            let rest = l.dir_walk(a, Some(x as u32), false, u32::MAX as int, i + 1);
            assert(rest is Ok);
            assert(seq![root[i]] + rest->Ok_0 == root.subrange(i, root.len() as int));
            let tail = rest->Ok_0;
            assert((seq![root[i]] + tail).len() == root.len() - i);
            assert((seq![root[i]] + tail)[1] == root.subrange(i, root.len() as int)[1]);
            assert(tail[0] == x as u32);
            assert(tail =~= root.subrange(i + 1, root.len() as int)) by {
                assert forall|k: int| 0 <= k < tail.len() implies tail[k] == root[i + 1 + k] by {
                    assert((seq![root[i]] + tail)[k + 1] == root.subrange(
                        i,
                        root.len() as int,
                    )[k + 1]);
                }
            }
            lemma_root_scan_kept(l, a, b, flags, percent, root, i + 1, g);
        }
    }
}

/// A range of clusters that were all kept holds the same bytes.
pub proof fn lemma_range_kept(l: ExfatLayout, a: Seq<u8>, b: Seq<u8>, first: int, n: int)
    requires
        l.wf(),
        a.len() == b.len(),
        2 <= first,
        0 <= n,
        l.boot.cluster_pos(first) + n <= a.len(),
        forall|c: int|
            #![trigger l.cluster_data(a, c)]
            #![trigger l.cluster_on(a, c)]
            first <= c < first + ceil_div(n, l.boot.cluster_bytes()) ==> l.cluster_on(a, c)
                && l.cluster_data(b, c) == l.cluster_data(a, c),
    ensures
        a.subrange(l.boot.cluster_pos(first), l.boot.cluster_pos(first) + n) == b.subrange(
            l.boot.cluster_pos(first),
            l.boot.cluster_pos(first) + n,
        ),
{
    lemma_unit_sizes(l.boot);
    let cb = l.boot.cluster_bytes();
    let p = l.boot.cluster_pos(first);
    assert forall|j: int| p <= j < p + n implies #[trigger] a[j] == b[j] by {
        let i = j - p;
        let q = i / cb;
        let c = first + q;
        let m = ceil_div(n, cb);
        assert(0 <= q < m && q * cb <= i < q * cb + cb) by (nonlinear_arith)
            requires
                q == i / cb,
                0 <= i < n,
                m == (n + cb - 1) / cb,
                cb > 0,
        ;
        let k = l.boot.cluster_pos(c);
        assert(k == p + q * cb) by {
            lemma_cluster_places(l, c, first);
            assert((c - 2) * cb == (first - 2) * cb + q * cb) by (nonlinear_arith)
                requires
                    c == first + q,
            ;
        }
        assert(l.cluster_data(a, c)[i - q * cb] == a[p + i]);
        assert(l.cluster_data(b, c)[i - q * cb] == b[p + i]);
    }
    assert(a.subrange(p, p + n) =~= b.subrange(p, p + n));
}

impl ExfatLayout {
    /// The up-case table that a mount of `img` loads.
    pub open spec fn table_range(self, img: Seq<u8>) -> ClusterRange {
        let found = root_scanned(
            self.boot,
            img,
            self.boot.root_dir_cluster,
            0,
            no_entries(),
        )->Ok_0;
        let (range, _) = found.upcase->0;
        range
    }

    /// The root directory consists of the clusters `root`, the boot region lies
    /// before the FAT, and the clusters of the up-case table hold data.
    pub open spec fn fixed_parts(self, img: Seq<u8>, root: Seq<u32>) -> bool {
        &&& 12 * self.boot.sector_bytes() <= self.boot.fat_pos(0)
        &&& self.boot.layout(img.subrange(0, 120))
        &&& self.holds_dir(img, self.boot.root_dir_cluster, false, u32::MAX as int, root)
        &&& forall|c: int| #[trigger]
            self.holds_table(img, c) ==> self.data_cluster(c) && self.cluster_on(img, c)
    }

    /// `cluster` holds part of the up-case table.
    pub open spec fn holds_table(self, img: Seq<u8>, cluster: int) -> bool {
        let t = self.table_range(img);
        t.first_cluster <= cluster < t.first_cluster + ceil_div(
            t.byte_length as int,
            self.boot.cluster_bytes(),
        )
    }
}

/// Work that leaves the root directory and the up-case table alone leaves a
/// volume that mounts alike, but for the boot fields that change in place.
pub proof fn law_touched_volume_remounts(
    l: ExfatLayout,
    a: Seq<u8>,
    b: Seq<u8>,
    cells: Set<int>,
    bits: Set<int>,
    clusters: Set<int>,
    root: Seq<u32>,
    table: Seq<(u16, u16)>,
)
    requires
        mounted(a) == Ok::<MountFacts, FsError<()>>(MountFacts { layout: l, table }),
        l.wf(),
        l.regions_apart(),
        l.fixed_parts(a, root),
        l.touches_only(a, b, cells, bits, clusters),
        cells.disjoint(members(root)),
        clusters.disjoint(members(root)),
        forall|c: int| #[trigger] l.holds_table(a, c) ==> !clusters.contains(c),
    ensures
        mounted(b) == Ok::<MountFacts, FsError<()>>(
            MountFacts {
                layout: ExfatLayout {
                    boot: reflagged(l.boot, le16(b, 106) as u16, b[112]),
                    bitmap: l.bitmap,
                    dirty_since_mount: (le16(b, 106) as u16) & VOLUME_DIRTY != 0,
                },
                table,
            },
        ),
{
    let boot = l.boot;
    let (flags, percent) = (le16(b, 106) as u16, b[112]);
    lemma_le16_bound(b, 106);
    lemma_unit_sizes(boot);
    lemma_untouched(l, a, b, cells, bits, clusters, 2);
    assert forall|i: int| 0 <= i < boot.fat_pos(0) && i < a.len() && !is_flag_place(i) implies a[i]
        == b[i] by {
        lemma_untouched(l, a, b, cells, bits, clusters, i);
    }
    lemma_boot_kept(l, a, b, flags, percent);
    lemma_root_kept(l, a, b, cells, bits, clusters, root, flags, percent);
    lemma_table_kept(l, a, b, cells, bits, clusters, flags, percent);
    lemma_parts_mount(l, a, b, flags, percent, table);
}

/// A 16-bit field holds a 16-bit number.
proof fn lemma_le16_bound(b: Seq<u8>, off: int)
    ensures
        0 <= le16(b, off) <= u16::MAX,
{
}

/// A root directory that was left alone is searched with the same result.
proof fn lemma_root_kept(
    l: ExfatLayout,
    a: Seq<u8>,
    b: Seq<u8>,
    cells: Set<int>,
    bits: Set<int>,
    clusters: Set<int>,
    root: Seq<u32>,
    flags: u16,
    percent: u8,
)
    requires
        l.wf(),
        l.regions_apart(),
        l.holds_dir(a, l.boot.root_dir_cluster, false, u32::MAX as int, root),
        l.touches_only(a, b, cells, bits, clusters),
        cells.disjoint(members(root)),
        clusters.disjoint(members(root)),
    ensures
        root_scanned(reflagged(l.boot, flags, percent), b, l.boot.root_dir_cluster, 0, no_entries())
            == root_scanned(l.boot, a, l.boot.root_dir_cluster, 0, no_entries()),
{
    let boot = l.boot;
    lemma_untouched(l, a, b, cells, bits, clusters, 2);
    assert forall|k: int| 0 <= k < root.len() implies {
        let c = (#[trigger] root[k]) as int;
        &&& l.in_heap(c)
        &&& l.cluster_on(a, c)
        &&& l.cluster_data(b, c) == l.cluster_data(a, c)
        &&& l.fat_read(b, c) == l.fat_read(a, c)
    } by {
        let c = root[k] as int;
        assert(l.data_cluster(c));
        assert(members(root).contains(c));
        lemma_untouched(l, a, b, cells, bits, clusters, c);
    }
    assert(root.len() > 0 && root[0] == boot.root_dir_cluster) by {
        assert(l.dir_walk(a, Some(boot.root_dir_cluster), false, u32::MAX as int, 0) is Ok);
    }
    assert(root.subrange(0, root.len() as int) =~= root);
    lemma_root_scan_kept(l, a, b, flags, percent, root, 0, no_entries());
}

/// An up-case table that was left alone loads as before.
proof fn lemma_table_kept(
    l: ExfatLayout,
    a: Seq<u8>,
    b: Seq<u8>,
    cells: Set<int>,
    bits: Set<int>,
    clusters: Set<int>,
    flags: u16,
    percent: u8,
)
    requires
        l.wf(),
        l.touches_only(a, b, cells, bits, clusters),
        forall|c: int| #[trigger]
            l.holds_table(a, c) ==> l.data_cluster(c) && l.cluster_on(a, c) && !clusters.contains(c),
    ensures
        forall|sum: int| #[trigger]
            table_loaded(b, reflagged(l.boot, flags, percent), l.table_range(a), sum)
                == table_loaded(a, l.boot, l.table_range(a), sum),
{
    let boot = l.boot;
    let other = reflagged(boot, flags, percent);
    let t = l.table_range(a);
    let (first, n) = (t.first_cluster as int, t.byte_length as int);
    lemma_untouched(l, a, b, cells, bits, clusters, 2);
    let p = boot.cluster_pos(first);
    assert(other.cluster_pos(first) == p);
    if p + n <= a.len() && first >= 2 {
        assert forall|c: int|
            #![trigger l.cluster_data(a, c)]
            #![trigger l.cluster_on(a, c)]
            first <= c < first + ceil_div(n, boot.cluster_bytes()) implies l.cluster_on(a, c)
            && l.cluster_data(b, c) == l.cluster_data(a, c) by {
            assert(l.holds_table(a, c));
            lemma_untouched(l, a, b, cells, bits, clusters, c);
        }
        lemma_range_kept(l, a, b, first, n);
    }
}

/// Where the boot region, the search of the root directory and the up-case
/// table are the same, so is the mount.
pub proof fn lemma_parts_mount(
    l: ExfatLayout,
    a: Seq<u8>,
    b: Seq<u8>,
    flags: u16,
    percent: u8,
    table: Seq<(u16, u16)>,
)
    requires
        mounted(a) == Ok::<MountFacts, FsError<()>>(MountFacts { layout: l, table }),
        boot_checked(b) == Ok::<ExfatBootRecord, FsError<()>>(reflagged(l.boot, flags, percent)),
        root_scanned(reflagged(l.boot, flags, percent), b, l.boot.root_dir_cluster, 0, no_entries())
            == root_scanned(l.boot, a, l.boot.root_dir_cluster, 0, no_entries()),
        forall|sum: int| #[trigger]
            table_loaded(b, reflagged(l.boot, flags, percent), l.table_range(a), sum)
                == table_loaded(a, l.boot, l.table_range(a), sum),
    ensures
        mounted(b) == Ok::<MountFacts, FsError<()>>(
            MountFacts {
                layout: ExfatLayout {
                    boot: reflagged(l.boot, flags, percent),
                    bitmap: l.bitmap,
                    dirty_since_mount: flags & VOLUME_DIRTY != 0,
                },
                table,
            },
        ),
{
    let other = reflagged(l.boot, flags, percent);
    let found = root_scanned(l.boot, a, l.boot.root_dir_cluster, 0, no_entries())->Ok_0;
    let (range, sum) = found.upcase->0;
    assert(other.cluster_bytes() == l.boot.cluster_bytes());
    assert(table_loaded(b, other, l.table_range(a), sum as int) == table_loaded(
        a,
        l.boot,
        l.table_range(a),
        sum as int,
    ));
}

/// A boot region of which only the fields that change in place were touched is
/// still valid.
pub proof fn lemma_boot_kept(l: ExfatLayout, a: Seq<u8>, b: Seq<u8>, flags: u16, percent: u8)
    requires
        boot_checked(a) == Ok::<ExfatBootRecord, FsError<()>>(l.boot),
        l.boot.layout(a.subrange(0, 120)),
        a.len() == b.len(),
        forall|i: int|
            0 <= i < 12 * l.boot.sector_bytes() && i < a.len() && !is_flag_place(i) ==> #[trigger] a[i]
                == b[i],
        le16(b, 106) == flags,
        b[112] == percent,
    ensures
        boot_checked(b) == Ok::<ExfatBootRecord, FsError<()>>(reflagged(l.boot, flags, percent)),
{
    let boot = l.boot;
    let other = reflagged(boot, flags, percent);
    lemma_unit_sizes(boot);
    let sb = boot.sector_bytes();
    assert(other.layout(b.subrange(0, 120))) by {
        let (x, y) = (a.subrange(0, 120), b.subrange(0, 120));
        assert forall|i: int| 0 <= i < 120 && !is_flag_place(i) implies x[i] == y[i] by {}
        assert(x.subrange(0, 3) =~= y.subrange(0, 3));
        assert(x.subrange(3, 11) =~= y.subrange(3, 11));
        assert(x.subrange(11, 64) =~= y.subrange(11, 64));
        assert(x.subrange(113, 120) =~= y.subrange(113, 120));
    }
    assert(boot_of(b) == other) by {
        ExfatBootRecord::law_decode_unique(boot_of(b), other, b.subrange(0, 120));
    }
    assert(other.sector_bytes() == sb);
    crate::codec::exfat::boot::law_boot_checksum_ignores_mutable_bytes(
        a.subrange(0, 11 * sb),
        b.subrange(0, 11 * sb),
    );
    assert(le32(a, 11 * sb) == le32(b, 11 * sb));
    assert(crate::boot::exfat_magic(a) == crate::boot::exfat_magic(b)) by {
        assert(a.subrange(3, 11) =~= b.subrange(3, 11));
    }
}

} // verus!
