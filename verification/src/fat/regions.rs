//! What one write leaves alone: the FAT copies, the fixed root and the data
//! clusters lie apart, so a change to one FAT cell or one slot is seen
//! nowhere else.

use vstd::prelude::*;

use super::layout::{lemma_cluster_size, FatDisk, FatLayout, FatWrite};
use crate::bytes::le32;
use crate::codec::fat::fat_entry::FatEntry;
use crate::codec::fat::types::FatType;
use crate::error::FsError;

verus! {

impl FatLayout {
    /// The FAT holds a cell for every cluster, the copy that counts is one
    /// that exists, and no cluster's number is one of the marker values.
    pub open spec fn sound(self) -> bool {
        &&& self.wf()
        &&& 0 <= self.active_copy() < self.props.fat_table_count
        &&& (self.props.max_cluster + 1) * self.fat_type.cell_bytes() <= self.fat_bytes()
        &&& self.props.max_cluster < self.fat_type.cell_values() - 9
    }

    /// Byte length of one FAT copy.
    pub open spec fn fat_bytes(self) -> int {
        self.props.fat_sector_size * self.props.sector_size
    }

    /// Byte offset of the first byte behind the FAT copies: the fixed root,
    /// then the data clusters.
    pub open spec fn root_pos(self) -> int {
        self.sector_pos(self.props.first_root_dir_sector as int)
    }

    /// Byte offset of the cell of `cluster` in FAT copy `copy`.
    pub open spec fn copy_cell(self, copy: int, cluster: int) -> int {
        self.fat_base(copy) + cluster * self.fat_type.cell_bytes()
    }
}

/// The numbers behind a mounted volume's geometry: nothing was cut off.
pub proof fn lemma_geometry(l: FatLayout)
    requires
        l.wf(),
    ensures
        l.props.first_root_dir_sector == l.props.first_fat_sector + l.props.fat_table_count
            * l.props.fat_sector_size,
        l.props.first_data_sector == l.props.first_root_dir_sector + l.boot.root_sectors(),
        l.props.first_data_sector + (l.props.max_cluster - 1) * l.props.sec_per_clus
            <= l.props.total_sectors,
        l.props.max_cluster >= 4086,
        l.props.sec_per_clus > 0,
        0 <= l.boot.root_sectors(),
{
    let br = l.boot;
    let (t, f) = (br.bpb.table_count as int, br.fat_sectors());
    assert(0 <= t * f <= 0xFF * 0xFFFF_FFFF) by (nonlinear_arith)
        requires
            0 <= t <= 0xFF,
            0 <= f <= 0xFFFF_FFFF,
    ;
    let r = br.root_sectors();
    assert(0 <= r) by {
        let (a, b) = (br.bpb.root_entry_count * 32, br.bpb.bytes_per_sector as int);
        assert((a + b - 1) / b >= 0) by (nonlinear_arith)
            requires
                a >= 0,
                b > 0,
        ;
    }
    let (n, spc) = (br.data_sectors(), br.bpb.sectors_per_cluster as int);
    let total = br.cluster_total();
    assert(total == n / spc);
    assert(0 <= total && total * spc <= n) by (nonlinear_arith)
        requires
            total == n / spc,
            spc > 0,
            n >= 0,
    ;
    assert(total <= n) by (nonlinear_arith)
        requires
            total * spc <= n,
            0 <= total,
            spc >= 1,
    ;
    let m = l.props.max_cluster - 1;
    assert(m * spc <= n) by (nonlinear_arith)
        requires
            m <= total,
            total * spc <= n,
            spc >= 1,
    ;
}

/// Where the FAT copies lie: one behind the other, before the root.
pub proof fn lemma_copy_places(l: FatLayout, i: int, j: int)
    requires
        l.wf(),
        0 <= i < l.props.fat_table_count,
        0 <= j < l.props.fat_table_count,
    ensures
        0 <= l.fat_base(i),
        l.fat_base(i) + l.fat_bytes() <= l.root_pos(),
        i < j ==> l.fat_base(i) + l.fat_bytes() <= l.fat_base(j),
        j < i ==> l.fat_base(j) + l.fat_bytes() <= l.fat_base(i),
{
    lemma_geometry(l);
    let (ff, fs, n, s) = (
        l.props.first_fat_sector as int,
        l.props.fat_sector_size as int,
        l.props.fat_table_count as int,
        l.props.sector_size as int,
    );
    assert(0 <= i * fs && 0 <= j * fs && i * fs + fs <= n * fs && j * fs + fs <= n * fs && (i < j
        ==> i * fs + fs <= j * fs) && (j < i ==> j * fs + fs <= i * fs)) by (nonlinear_arith)
        requires
            0 <= i < n,
            0 <= j < n,
            0 <= fs,
    ;
    let (x, y, r) = (ff + i * fs, ff + j * fs, l.props.first_root_dir_sector as int);
    assert(l.fat_base(i) == x * s && l.fat_base(j) == y * s);
    assert(0 <= x * s && x * s + fs * s <= r * s && (x + fs <= y ==> x * s + fs * s <= y * s) && (y
        + fs <= x ==> y * s + fs * s <= x * s)) by (nonlinear_arith)
        requires
            0 <= x,
            x + fs <= r,
            0 < s,
    ;
}

/// Where the clusters lie: each at its own place, behind the root and within
/// the volume.
pub proof fn lemma_cluster_places(l: FatLayout, c: int, k: int)
    requires
        l.wf(),
        l.is_cluster(c),
        l.is_cluster(k),
    ensures
        l.root_pos() + l.root_bytes() <= l.cluster_pos(c),
        l.root_pos() <= l.cluster_pos(c),
        0 <= l.root_bytes(),
        l.cluster_pos(c) + l.props.cluster_size <= l.volume_end(),
        c < k ==> l.cluster_pos(c) + l.props.cluster_size <= l.cluster_pos(k),
        k < c ==> l.cluster_pos(k) + l.props.cluster_size <= l.cluster_pos(c),
        l.cluster_pos(c) == (l.props.first_data_sector + (c - 2) * l.props.sec_per_clus)
            * l.props.sector_size,
{
    lemma_geometry(l);
    lemma_cluster_size(l);
    let (fd, spc, s, m) = (
        l.props.first_data_sector as int,
        l.props.sec_per_clus as int,
        l.props.sector_size as int,
        l.props.max_cluster as int,
    );
    let (x, y) = (c - 2, k - 2);
    assert(0 <= x * spc && x * spc + spc <= (m - 1) * spc && (x < y ==> x * spc + spc <= y * spc) && (
    y < x ==> y * spc + spc <= x * spc) && 0 <= y * spc && y * spc + spc <= (m - 1) * spc)
        by (nonlinear_arith)
        requires
            0 <= x <= m - 2,
            0 <= y <= m - 2,
            0 < spc,
    ;
    let (p, q, t) = (fd + x * spc, fd + y * spc, l.props.total_sectors as int);
    assert(l.cluster_sector(c) == p && l.cluster_sector(k) == q);
    let (fr, rs) = (l.props.first_root_dir_sector as int, l.boot.root_sectors());
    assert(fr * s + rs * s <= p * s && 0 <= rs * s && p * s + spc * s <= t * s && (p + spc <= q ==> p
        * s + spc * s <= q * s) && (q + spc <= p ==> q * s + spc * s <= p * s)) by (nonlinear_arith)
        requires
            fr + rs <= p,
            0 <= rs,
            p + spc <= t,
            0 < s,
    ;
}

/// A cell lies within its FAT copy.
pub proof fn lemma_cell_inside(l: FatLayout, c: int)
    requires
        l.sound(),
        0 <= c <= l.props.max_cluster,
    ensures
        0 <= c * l.fat_type.cell_bytes(),
        c * l.fat_type.cell_bytes() + l.fat_type.cell_bytes() <= l.fat_bytes(),
{
    let (m, w) = (l.props.max_cluster as int, l.fat_type.cell_bytes());
    assert(0 <= c * w && c * w + w <= (m + 1) * w) by (nonlinear_arith)
        requires
            0 <= c <= m,
            0 < w,
    ;
}

/// Writing a cell image into FAT copies changes those cells only.
proof fn lemma_copies_written(
    l: FatLayout,
    d: FatDisk,
    c: int,
    bytes: Seq<u8>,
    copy: int,
    to: int,
)
    requires
        l.sound(),
        l.is_cluster(c),
        bytes.len() == l.fat_type.cell_bytes(),
        0 <= copy,
        to <= l.props.fat_table_count,
        l.copies_written(d, c, bytes, copy, to).out is Ok,
    ensures
        ({
            let a = l.copies_written(d, c, bytes, copy, to).disk.img;
            &&& a.len() == d.img.len()
            &&& forall|j: int, i: int|
                copy <= j < to && 0 <= i < bytes.len() ==> #[trigger] a[l.copy_cell(j, c) + i]
                    == bytes[i]
            &&& forall|j: int|
                copy <= j < to ==> #[trigger] l.copy_cell(j, c) + bytes.len() <= a.len()
            &&& forall|i: int|
                0 <= i < a.len() && (forall|j: int|
                    copy <= j < to ==> !(#[trigger] l.copy_cell(j, c) <= i < l.copy_cell(j, c)
                        + bytes.len())) ==> #[trigger] a[i] == d.img[i]
        }),
    decreases to - copy,
{
    if copy < to {
        let p = l.copy_cell(copy, c);
        let w = l.written(d, p, bytes);
        lemma_copies_written(l, w.disk, c, bytes, copy + 1, to);
        let a = l.copies_written(w.disk, c, bytes, copy + 1, to).disk.img;
        lemma_cell_inside(l, c);
        lemma_copy_places(l, copy, copy);
        assert forall|j: int, i: int| copy <= j < to && 0 <= i < bytes.len() implies #[trigger] a[l.copy_cell(
            j,
            c,
        ) + i] == bytes[i] by {
            if j == copy {
                assert forall|k: int| copy + 1 <= k < to implies !(#[trigger] l.copy_cell(k, c) <= p
                    + i < l.copy_cell(k, c) + bytes.len()) by {
                    lemma_copy_places(l, copy, k);
                }
                assert(a[p + i] == w.disk.img[p + i]);
            }
        }
        assert forall|i: int|
            0 <= i < a.len() && (forall|j: int|
                copy <= j < to ==> !(#[trigger] l.copy_cell(j, c) <= i < l.copy_cell(j, c)
                    + bytes.len())) implies #[trigger] a[i] == d.img[i] by {
            assert(!(l.copy_cell(copy, c) <= i < l.copy_cell(copy, c) + bytes.len()));
            assert(a[i] == w.disk.img[i]);
        }
    }
}

/// What a stored value reads back as.
pub open spec fn written_meaning(value: FatWrite) -> FatEntry {
    match value {
        FatWrite::Free => FatEntry::Free,
        FatWrite::End => FatEntry::End,
        FatWrite::Next(c) => FatEntry::Next(c),
    }
}

/// The bytes of a cell value read back as the value.
proof fn lemma_cell_image(l: FatLayout, img: Seq<u8>, p: int, cell: int)
    requires
        0 <= cell,
        l.fat_type is FAT16 ==> cell < 0x1_0000,
        l.fat_type is FAT32 ==> cell < 0x1_0000_0000,
        forall|i: int|
            0 <= i < l.fat_type.cell_bytes() ==> #[trigger] img[p + i] == l.cell_image(cell)[i],
    ensures
        l.raw_cell(img, p) == cell,
{
    let b = l.cell_image(cell);
    assert(img[p + 0] == b[0] && img[p + 1] == b[1]);
    match l.fat_type {
        FatType::FAT16 => {},
        FatType::FAT32 => {
            assert(img[p + 2] == b[2] && img[p + 3] == b[3]);
            let w = cell;
            assert((w / 0x100) / 0x100 == w / 0x1_0000);
            assert((w / 0x1_0000) / 0x100 == w / 0x100_0000);
        },
    }
}

/// The cell value stored for `value` means `value`.
proof fn lemma_cell_for(l: FatLayout, value: FatWrite, old: int)
    requires
        l.sound(),
        0 <= old < 0x1_0000_0000,
        value matches FatWrite::Next(c) ==> l.is_cluster(c as int),
    ensures
        0 <= l.cell_for(value, old),
        l.fat_type is FAT16 ==> l.cell_for(value, old) < 0x1_0000,
        l.fat_type is FAT32 ==> l.cell_for(value, old) < 0x1_0000_0000,
        crate::codec::fat::fat_entry::cell_meaning(
            l.cell_for(value, old),
            l.props.max_cluster as int,
            l.fat_type,
        ) == written_meaning(value),
{
    let n = l.fat_type.cell_values();
    let payload = match value {
        FatWrite::Free => 0,
        FatWrite::End => n - 1,
        FatWrite::Next(c) => c as int % n,
    };
    match l.fat_type {
        FatType::FAT16 => {
            assert(n == 0x1_0000);
        },
        FatType::FAT32 => {
            assert(n == 0x1000_0000);
            let top = old / 0x1000_0000;
            assert(0 <= top < 16);
            assert((payload + top * 0x1000_0000) % 0x1000_0000 == payload);
        },
    }
}

/// A FAT cell that was written reads back as what was stored, in every copy
/// while the copies are kept alike; the other cells, the fixed root and every
/// cluster stay as they were.
pub proof fn law_fat_cell_written(l: FatLayout, d: FatDisk, c: u32, value: FatWrite)
    requires
        l.sound(),
        l.fat_written(d, c, value).out is Ok,
        value matches FatWrite::Next(n) ==> l.is_cluster(n as int),
    ensures
        ({
            let a = l.fat_written(d, c, value).disk.img;
            let (p, w) = (l.cell_pos(c as int), l.fat_type.cell_bytes());
            &&& a.len() == d.img.len()
            &&& l.fat_read(a, c as int) == Ok::<FatEntry, FsError<()>>(written_meaning(value))
            &&& forall|k: int| k != c ==> #[trigger] l.fat_read(a, k) == l.fat_read(d.img, k)
            &&& forall|i: int| l.root_pos() <= i < a.len() ==> #[trigger] a[i] == d.img[i]
            &&& forall|i: int|
                0 <= i < l.fat_base(0) && i < a.len() ==> #[trigger] a[i] == d.img[i]
            &&& l.mirrored() ==> forall|j: int, i: int|
                0 <= j < l.props.fat_table_count && 0 <= i < w ==> #[trigger] a[l.copy_cell(
                    j,
                    c as int,
                ) + i] == a[p + i]
        }),
{
    let ci = c as int;
    let (p, w) = (l.cell_pos(ci), l.fat_type.cell_bytes());
    let act = l.active_copy();
    let n = l.props.fat_table_count as int;
    let old = le32(d.img, p);
    let cell = l.cell_for(value, old);
    let bytes = l.cell_image(cell);
    let a = l.fat_written(d, c, value).disk.img;
    lemma_cell_for(l, value, old);
    lemma_cell_inside(l, ci);
    lemma_copy_places(l, act, act);
    lemma_cluster_places(l, ci, ci);
    assert(p == l.copy_cell(act, ci));
    // Which bytes changed: those of the cell, in the copies that were written.
    assert(forall|i: int| 0 <= i < w ==> #[trigger] a[p + i] == bytes[i]) by {
        if l.mirrored() {
            lemma_copies_written(l, d, ci, bytes, 0, n);
            assert forall|i: int| 0 <= i < w implies #[trigger] a[p + i] == bytes[i] by {
                assert(a[l.copy_cell(act, ci) + i] == bytes[i]);
            }
        }
    }
    assert(p + w <= a.len() && a.len() == d.img.len()) by {
        if l.mirrored() {
            lemma_copies_written(l, d, ci, bytes, 0, n);
            assert(l.copy_cell(act, ci) + bytes.len() <= a.len());
        }
    }
    lemma_cell_image(l, a, p, cell);
    assert forall|i: int|
        0 <= i < a.len() && (forall|j: int|
            0 <= j < n ==> !(#[trigger] l.copy_cell(j, ci) <= i < l.copy_cell(j, ci) + w)) implies #[trigger] a[i]
        == d.img[i] by {
        if l.mirrored() {
            lemma_copies_written(l, d, ci, bytes, 0, n);
        } else {
            assert(!(l.copy_cell(act, ci) <= i < l.copy_cell(act, ci) + w));
        }
    }
    assert forall|i: int| l.root_pos() <= i < a.len() implies #[trigger] a[i] == d.img[i] by {
        assert forall|j: int| 0 <= j < n implies !(#[trigger] l.copy_cell(j, ci) <= i < l.copy_cell(
            j,
            ci,
        ) + w) by {
            lemma_copy_places(l, j, j);
        }
    }
    assert forall|i: int| 0 <= i < l.fat_base(0) && i < a.len() implies #[trigger] a[i] == d.img[i] by {
        assert forall|j: int| 0 <= j < n implies !(#[trigger] l.copy_cell(j, ci) <= i < l.copy_cell(
            j,
            ci,
        ) + w) by {
            lemma_copy_places(l, 0, j);
            assert(ci * w >= 0) by (nonlinear_arith)
                requires
                    ci >= 0,
                    w > 0,
            ;
        }
    }
    assert forall|k: int| k != c implies #[trigger] l.fat_read(a, k) == l.fat_read(d.img, k) by {
        if l.is_cluster(k) {
            let q = l.cell_pos(k);
            lemma_cell_inside(l, k);
            assert(k * w != ci * w && (k < ci ==> k * w + w <= ci * w) && (ci < k ==> ci * w + w <= k
                * w)) by (nonlinear_arith)
                requires
                    k != ci,
                    w > 0,
            ;
            assert forall|i: int| q <= i < q + w && i < a.len() implies #[trigger] a[i] == d.img[i] by {
                assert forall|j: int| 0 <= j < n implies !(#[trigger] l.copy_cell(j, ci) <= i
                    < l.copy_cell(j, ci) + w) by {
                    lemma_copy_places(l, act, j);
                }
            }
            if q + w <= a.len() {
                assert(a[q] == d.img[q] && a[q + 1] == d.img[q + 1]);
                if l.fat_type is FAT32 {
                    assert(a[q + 2] == d.img[q + 2] && a[q + 3] == d.img[q + 3]);
                }
            }
        }
    }
    if l.mirrored() {
        lemma_copies_written(l, d, ci, bytes, 0, n);
        assert forall|j: int, i: int| 0 <= j < n && 0 <= i < w implies #[trigger] a[l.copy_cell(
            j,
            ci,
        ) + i] == a[p + i] by {
            assert(a[l.copy_cell(j, ci) + i] == bytes[i]);
        }
    }
}

/// Writing a cell image into FAT copies, as far as that goes: only those cells
/// change, and the first of them is written if the device holds it.
proof fn lemma_copies_attempted(
    l: FatLayout,
    d: FatDisk,
    c: int,
    bytes: Seq<u8>,
    copy: int,
    to: int,
)
    requires
        l.sound(),
        l.is_cluster(c),
        bytes.len() == l.fat_type.cell_bytes(),
        0 <= copy,
        to <= l.props.fat_table_count,
    ensures
        ({
            let a = l.copies_written(d, c, bytes, copy, to).disk.img;
            let p = l.copy_cell(copy, c);
            &&& a.len() == d.img.len()
            &&& copy < to && p + bytes.len() <= a.len() && l.in_volume(p, bytes.len() as int)
                ==> forall|i: int| 0 <= i < bytes.len() ==> #[trigger] a[p + i] == bytes[i]
            &&& forall|i: int|
                0 <= i < a.len() && (forall|j: int|
                    copy <= j < to ==> !(#[trigger] l.copy_cell(j, c) <= i < l.copy_cell(j, c)
                        + bytes.len())) ==> #[trigger] a[i] == d.img[i]
        }),
    decreases to - copy,
{
    if copy < to {
        let p = l.copy_cell(copy, c);
        let w = l.written(d, p, bytes);
        lemma_cell_inside(l, c);
        lemma_copy_places(l, copy, copy);
        if w.out is Ok {
            lemma_copies_attempted(l, w.disk, c, bytes, copy + 1, to);
            let a = l.copies_written(w.disk, c, bytes, copy + 1, to).disk.img;
            assert forall|i: int| 0 <= i < bytes.len() implies #[trigger] a[p + i] == bytes[i] by {
                assert forall|k: int| copy + 1 <= k < to implies !(#[trigger] l.copy_cell(k, c) <= p
                    + i < l.copy_cell(k, c) + bytes.len()) by {
                    lemma_copy_places(l, copy, k);
                }
                assert(a[p + i] == w.disk.img[p + i]);
            }
            assert forall|i: int|
                0 <= i < a.len() && (forall|j: int|
                    copy <= j < to ==> !(#[trigger] l.copy_cell(j, c) <= i < l.copy_cell(j, c)
                        + bytes.len())) implies #[trigger] a[i] == d.img[i] by {
                assert(!(l.copy_cell(copy, c) <= i < l.copy_cell(copy, c) + bytes.len()));
                assert(a[i] == w.disk.img[i]);
            }
        }
    }
}

/// Trying to write a FAT cell, whether or not that succeeds: a cell that could be
/// read reads as what was to be stored; the other cells and everything before and
/// behind the FAT stay as they were.
pub proof fn lemma_cell_attempted(l: FatLayout, d: FatDisk, c: u32, value: FatWrite)
    requires
        l.sound(),
        l.is_cluster(c as int),
        value matches FatWrite::Next(n) ==> l.is_cluster(n as int),
    ensures
        ({
            let a = l.fat_written(d, c, value).disk.img;
            &&& a.len() == d.img.len()
            &&& l.fat_read(d.img, c as int) is Ok ==> l.fat_read(a, c as int) == Ok::<
                FatEntry,
                FsError<()>,
            >(written_meaning(value))
            &&& forall|k: int| k != c ==> #[trigger] l.fat_read(a, k) == l.fat_read(d.img, k)
            &&& forall|i: int| l.root_pos() <= i < a.len() ==> #[trigger] a[i] == d.img[i]
            &&& forall|i: int|
                0 <= i < l.fat_base(0) && i < a.len() ==> #[trigger] a[i] == d.img[i]
        }),
{
    let ci = c as int;
    let (p, w) = (l.cell_pos(ci), l.fat_type.cell_bytes());
    let act = l.active_copy();
    let n = l.props.fat_table_count as int;
    let old = le32(d.img, p);
    let cell = l.cell_for(value, old);
    let bytes = l.cell_image(cell);
    let a = l.fat_written(d, c, value).disk.img;
    lemma_cell_for(l, value, old);
    lemma_cell_inside(l, ci);
    lemma_copy_places(l, act, act);
    assert(p == l.copy_cell(act, ci));
    lemma_copies_attempted(l, d, ci, bytes, 0, n);
    assert(a.len() == d.img.len());
    if p + w <= a.len() && l.in_volume(p, w) {
        assert(forall|i: int| 0 <= i < w ==> #[trigger] a[p + i] == bytes[i]);
        lemma_cell_image(l, a, p, cell);
    }
    assert forall|i: int|
        0 <= i < a.len() && (forall|j: int|
            0 <= j < n ==> !(#[trigger] l.copy_cell(j, ci) <= i < l.copy_cell(j, ci) + w)) implies #[trigger] a[i]
        == d.img[i] by {
        assert(!(l.copy_cell(act, ci) <= i < l.copy_cell(act, ci) + w));
    }
    assert forall|i: int| l.root_pos() <= i < a.len() implies #[trigger] a[i] == d.img[i] by {
        assert forall|j: int| 0 <= j < n implies !(#[trigger] l.copy_cell(j, ci) <= i < l.copy_cell(
            j,
            ci,
        ) + w) by {
            lemma_copy_places(l, j, j);
        }
    }
    assert forall|i: int| 0 <= i < l.fat_base(0) && i < a.len() implies #[trigger] a[i] == d.img[i] by {
        assert forall|j: int| 0 <= j < n implies !(#[trigger] l.copy_cell(j, ci) <= i < l.copy_cell(
            j,
            ci,
        ) + w) by {
            lemma_copy_places(l, 0, j);
        }
    }
    assert forall|k: int| k != c implies #[trigger] l.fat_read(a, k) == l.fat_read(d.img, k) by {
        if l.is_cluster(k) {
            let q = l.cell_pos(k);
            lemma_cell_inside(l, k);
            assert(k * w != ci * w && (k < ci ==> k * w + w <= ci * w) && (ci < k ==> ci * w + w <= k
                * w)) by (nonlinear_arith)
                requires
                    k != ci,
                    w > 0,
            ;
            assert forall|i: int| q <= i < q + w && i < a.len() implies #[trigger] a[i] == d.img[i] by {
                assert forall|j: int| 0 <= j < n implies !(#[trigger] l.copy_cell(j, ci) <= i
                    < l.copy_cell(j, ci) + w) by {
                    lemma_copy_places(l, act, j);
                }
            }
            if q + w <= a.len() {
                assert(a[q] == d.img[q] && a[q + 1] == d.img[q + 1]);
                if l.fat_type is FAT32 {
                    assert(a[q + 2] == d.img[q + 2] && a[q + 3] == d.img[q + 3]);
                }
            }
        }
    }
}

} // verus!
