//! Where things lie on an exFAT volume, and what a volume operation leaves
//! on the disk.

use vstd::arithmetic::power2::{lemma2_to64,lemma_pow2_pos,lemma_pow2_strictly_increases,pow2};
use vstd::prelude::*;

use crate::bytes::spliced;
use crate::codec::exfat::boot::ExfatBootRecord;
use crate::error::{file_error_of, CorruptKind, FileError, FsError};
use crate::num::{ceil_div, div_ceil_u64};

verus! {

/// Location of a cluster-addressable blob on disk.
#[derive(Debug, Clone, Copy, PartialEq, Eq, Structural)]
pub struct ClusterRange {
    pub first_cluster: u32,
    pub byte_length: u64,
}

/// `VolumeFlags` field offset in the VBR. Excluded from the boot-region
/// checksum so it can be flipped in place.
pub const VOLUME_FLAGS_OFFSET: u64 = 106;

/// `VolumeDirty` bit of `VolumeFlags`.
pub const VOLUME_DIRTY: u16 = 0x0002;

/// `PercentInUse` field offset in the VBR (checksum-excluded, like the
/// flags): 0xFF = "not available".
pub const PERCENT_IN_USE_OFFSET: u64 = 112;

/// The fixed facts of a mounted volume.
#[derive(Debug, Clone, Copy)]
pub struct ExfatLayout {
    pub boot: ExfatBootRecord,
    pub bitmap: ClusterRange,
    /// `VolumeDirty` was already set at mount (unclean previous session).
    pub dirty_since_mount: bool,
}

/// What an operation finds or leaves: the bytes on the device, and whether
/// this session has raised `VolumeDirty`.
pub struct Disk {
    pub img: Seq<u8>,
    pub dirty: bool,
}

/// How an operation ends when the storage does not fail: its result and the
/// disk it leaves.
pub struct Run<T> {
    pub out: Result<T, FsError<()>>,
    pub disk: Disk,
}

/// An operation that ends with an error and the given disk.
pub open spec fn failed<T>(e: FsError<()>, d: Disk) -> Run<T> {
    Run { out: Err(e), disk: d }
}

/// An operation that succeeds and leaves the given disk.
pub open spec fn done<T>(v: T, d: Disk) -> Run<T> {
    Run { out: Ok(v), disk: d }
}

/// The error of a transfer that leaves the device.
pub open spec fn beyond_device() -> FsError<()> {
    FsError::Corrupt(CorruptKind::Other)
}

/// `r` and the disk `after` are what `run` says, unless the storage failed.
pub open spec fn ends_as<T, E>(
    r: Result<T, FsError<E>>,
    run: Run<T>,
    after: Disk,
    reliable: bool,
) -> bool {
    match r {
        Ok(v) => run.out == Ok::<T, FsError<()>>(v) && after == run.disk,
        Err(FsError::Io(_)) => !reliable,
        Err(e) => run.out == Err::<T, FsError<()>>(e.kind()) && after == run.disk,
    }
}

/// `r` is what `out` says, unless the storage failed.
pub open spec fn reads_as<T, E>(
    r: Result<T, FsError<E>>,
    out: Result<T, FsError<()>>,
    reliable: bool,
) -> bool {
    match r {
        Ok(v) => out == Ok::<T, FsError<()>>(v),
        Err(FsError::Io(_)) => !reliable,
        Err(e) => out == Err::<T, FsError<()>>(e.kind()),
    }
}

/// `r` and the disk `after` are what `run` says, seen from an open file,
/// unless the storage failed.
pub open spec fn file_ends_as<T, E>(
    r: Result<T, FileError<E>>,
    run: Run<T>,
    after: Disk,
    reliable: bool,
) -> bool {
    match r {
        Ok(v) => run.out == Ok::<T, FsError<()>>(v) && after == run.disk,
        Err(FileError::Io(_)) => !reliable,
        Err(e) => {
            &&& run.out is Err
            &&& e.kind() == file_error_of(run.out->Err_0)
            &&& after == run.disk
        },
    }
}

/// `word` as two bytes, low byte first.
pub open spec fn le_bytes16(word: u16) -> Seq<u8> {
    seq![(word % 0x100) as u8, (word / 0x100) as u8]
}

/// `word` as four bytes, low byte first.
pub open spec fn le_bytes32(word: u32) -> Seq<u8> {
    seq![
        (word % 0x100) as u8,
        ((word / 0x100) % 0x100) as u8,
        ((word / 0x1_0000) % 0x100) as u8,
        (word / 0x100_0000) as u8,
    ]
}

/// `word` as eight bytes, low byte first.
pub open spec fn le_bytes64(word: u64) -> Seq<u8> {
    le_bytes32((word % 0x1_0000_0000) as u32) + le_bytes32((word / 0x1_0000_0000) as u32)
}

/// Store a 16-bit field.
pub fn set_u16(b: &mut Vec<u8>, off: usize, v: u16)
    requires
        off + 2 <= old(b)@.len(),
    ensures
        final(b)@ == spliced(old(b)@, off as int, le_bytes16(v)),
{
    let len: usize = b.len();
    assert(off + 2 <= len);
    b.set(off, (v % 0x100) as u8);
    b.set(off + 1, (v / 0x100) as u8);
    assert(b@ =~= spliced(old(b)@, off as int, le_bytes16(v)));
}

/// Store a 32-bit field.
pub fn set_u32(b: &mut Vec<u8>, off: usize, v: u32)
    requires
        off + 4 <= old(b)@.len(),
    ensures
        final(b)@ == spliced(old(b)@, off as int, le_bytes32(v)),
{
    let len: usize = b.len();
    assert(off + 4 <= len);
    b.set(off, (v % 0x100) as u8);
    b.set(off + 1, ((v / 0x100) % 0x100) as u8);
    b.set(off + 2, ((v / 0x1_0000) % 0x100) as u8);
    b.set(off + 3, (v / 0x100_0000) as u8);
    assert(b@ =~= spliced(old(b)@, off as int, le_bytes32(v)));
}

/// Store a 64-bit field.
pub fn set_u64(b: &mut Vec<u8>, off: usize, v: u64)
    requires
        off + 8 <= old(b)@.len(),
    ensures
        final(b)@ == spliced(old(b)@, off as int, le_bytes64(v)),
{
    let len: usize = b.len();
    assert(off + 8 <= len);
    set_u32(b, off, (v % 0x1_0000_0000) as u32);
    set_u32(b, off + 4, (v / 0x1_0000_0000) as u32);
    assert(b@ =~= spliced(old(b)@, off as int, le_bytes64(v)));
}

/// Four bytes that read as `word` are its bytes.
pub proof fn lemma_le_bytes32(b: Seq<u8>, word: u32)
    requires
        b.len() == 4,
        crate::bytes::le32(b, 0) == word,
    ensures
        b == le_bytes32(word),
{
    let w = word as int;
    assert(w % 0x100 == b[0]);
    assert(w / 0x100 == b[1] + 0x100 * b[2] + 0x1_0000 * b[3]);
    assert((w / 0x100) % 0x100 == b[1]);
    assert(w / 0x1_0000 == b[2] + 0x100 * b[3]);
    assert((w / 0x1_0000) % 0x100 == b[2]);
    assert(w / 0x100_0000 == b[3]);
    assert(b =~= le_bytes32(word));
}

/// Two bytes that read as `word` are its bytes.
pub proof fn lemma_le_bytes16(b: Seq<u8>, word: u16)
    requires
        b.len() == 2,
        crate::bytes::le16(b, 0) == word,
    ensures
        b == le_bytes16(word),
{
    assert(b =~= le_bytes16(word));
}

/// Byte offset of `cluster` on a volume whose heap starts at sector
/// `heap_sectors`. Numbering starts at 2 (0 and 1 are reserved).
pub open spec fn cluster_pos_of(
    heap_sectors: int,
    cluster: int,
    sector_bytes: int,
    cluster_bytes: int,
) -> int {
    heap_sectors * sector_bytes + (if cluster < 2 {
        0
    } else {
        cluster - 2
    }) * cluster_bytes
}

/// Byte offset of `cluster` within the volume. Cluster numbering starts
/// at 2 (0 and 1 are reserved), so the heap's first cluster is index 2.
pub fn cluster_to_byte_offset(
    cluster_heap_offset_sectors: u32,
    cluster: u32,
    sector_bytes: u32,
    cluster_bytes: u32,
) -> (r: u64)
    requires
        sector_bytes <= 0x1_0000,
        cluster_bytes <= 0x200_0000,
    ensures
        r == cluster_pos_of(
            cluster_heap_offset_sectors as int,
            cluster as int,
            sector_bytes as int,
            cluster_bytes as int,
        ),
        r <= 0xFFFF_FFFF * 0x201_0000,
{
    let index: u32 = cluster.saturating_sub(2);
    proof {
        let (a, b, c, d) = (cluster_heap_offset_sectors, sector_bytes, index, cluster_bytes);
        assert(0 <= a * b <= 0xFFFF_FFFF * 0x1_0000) by (nonlinear_arith)
            requires
                0 <= a <= 0xFFFF_FFFF,
                0 <= b <= 0x1_0000,
        ;
        assert(0 <= c * d <= 0xFFFF_FFFF * 0x200_0000) by (nonlinear_arith)
            requires
                0 <= c <= 0xFFFF_FFFF,
                0 <= d <= 0x200_0000,
        ;
    }
    let heap_offset: u64 = cluster_heap_offset_sectors as u64 * sector_bytes as u64;
    heap_offset + index as u64 * cluster_bytes as u64
}

/// Valid shifts give the sector and cluster sizes their documented ranges.
pub proof fn lemma_unit_sizes(boot: ExfatBootRecord)
    requires
        boot.valid_shifts(),
    ensures
        512 <= boot.sector_bytes() <= 4096,
        512 <= boot.cluster_bytes() <= 0x200_0000,
        boot.sector_bytes() <= boot.cluster_bytes(),
        boot.cluster_bytes() % 32 == 0,
{
    lemma2_to64();
    let s = boot.sector_shift as nat;
    let t = (boot.sector_shift + boot.cluster_shift) as nat;
    if s > 9 {
        lemma_pow2_strictly_increases(9, s);
    }
    if s < 12 {
        lemma_pow2_strictly_increases(s, 12);
    }
    if t > s {
        lemma_pow2_strictly_increases(s, t);
    }
    if t < 25 {
        lemma_pow2_strictly_increases(t, 25);
    }
    vstd::arithmetic::power2::lemma_pow2_adds(5, (t - 5) as nat);
    lemma_pow2_pos((t - 5) as nat);
    let q = pow2((t - 5) as nat) as int;
    assert((32 * q) % 32 == 0) by (nonlinear_arith);
}

impl ExfatBootRecord {
    /// Byte offset of the FAT cell of `cluster`.
    pub open spec fn fat_pos(self, cluster: int) -> int {
        self.fat_offset * self.sector_bytes() + 4 * cluster
    }

    /// Byte offset of `cluster`.
    pub open spec fn cluster_pos(self, cluster: int) -> int {
        cluster_pos_of(
            self.cluster_heap_offset as int,
            cluster,
            self.sector_bytes(),
            self.cluster_bytes(),
        )
    }

    /// Byte offset of the FAT cell of `cluster`.
    pub fn fat_cell_offset(&self, cluster: u32) -> (r: u64)
        requires
            self.valid_shifts(),
        ensures
            r == self.fat_pos(cluster as int),
            r <= 0xFFFF_FFFF * 0x1004,
    {
        proof {
            lemma_unit_sizes(*self);
            let (a, b) = (self.fat_offset, self.sector_bytes());
            assert(0 <= a * b <= 0xFFFF_FFFF * 4096) by (nonlinear_arith)
                requires
                    0 <= a <= 0xFFFF_FFFF,
                    0 <= b <= 4096,
            ;
        }
        self.fat_offset as u64 * self.bytes_per_sector() as u64 + cluster as u64 * 4
    }

    /// Byte offset of `cluster`.
    pub fn cluster_offset(&self, cluster: u32) -> (r: u64)
        requires
            self.valid_shifts(),
        ensures
            r == self.cluster_pos(cluster as int),
            r <= 0xFFFF_FFFF * 0x201_0000,
    {
        proof {
            lemma_unit_sizes(*self);
        }
        cluster_to_byte_offset(
            self.cluster_heap_offset,
            cluster,
            self.bytes_per_sector(),
            self.bytes_per_cluster(),
        )
    }
}

/// The number of clusters that `bytes` occupy, within 32 bits.
pub open spec fn clusters_for(bytes: int, cluster_bytes: int) -> int {
    if ceil_div(bytes, cluster_bytes) > u32::MAX {
        u32::MAX as int
    } else {
        ceil_div(bytes, cluster_bytes)
    }
}

/// The number of clusters that `bytes` occupy; counts past `u32::MAX` only
/// occur on a corrupt volume and stop there.
pub fn cluster_count_for(bytes: u64, cluster_bytes: u32) -> (r: u32)
    requires
        cluster_bytes > 0,
    ensures
        r == clusters_for(bytes as int, cluster_bytes as int),
{
    let n: u64 = div_ceil_u64(bytes, cluster_bytes as u64);
    if n > 0xFFFF_FFFF {
        u32::MAX
    } else {
        n as u32
    }
}

impl ExfatLayout {
    /// What mounting established: sane shifts, and a bitmap that covers
    /// every cluster and lies within the heap.
    pub open spec fn wf(self) -> bool {
        &&& self.boot.valid_shifts()
        &&& self.boot.cluster_count < u32::MAX
        &&& 2 <= self.bitmap.first_cluster <= self.boot.cluster_count + 1
        &&& self.bitmap.byte_length >= ceil_div(self.boot.cluster_count as int, 8)
        &&& self.bitmap.first_cluster + clusters_for(
            self.bitmap.byte_length as int,
            self.boot.cluster_bytes(),
        ) - 1 <= self.boot.cluster_count + 1
    }

    /// The disk once `VolumeDirty` is raised and `PercentInUse` invalidated;
    /// no change if that happened before.
    pub open spec fn raised(self, d: Disk) -> Disk {
        if self.dirty_since_mount || d.dirty {
            d
        } else {
            Disk {
                img: spliced(
                    spliced(
                        d.img,
                        VOLUME_FLAGS_OFFSET as int,
                        le_bytes16(self.boot.flags | VOLUME_DIRTY),
                    ),
                    PERCENT_IN_USE_OFFSET as int,
                    seq![0xFFu8],
                ),
                dirty: true,
            }
        }
    }

    /// Writing `bytes` at `off`, after raising `VolumeDirty`.
    pub open spec fn written(self, d: Disk, off: int, bytes: Seq<u8>) -> Run<()> {
        let d1 = self.raised(d);
        if off + bytes.len() <= d1.img.len() {
            Run { out: Ok(()), disk: Disk { img: spliced(d1.img, off, bytes), dirty: d1.dirty } }
        } else {
            Run { out: Err(beyond_device()), disk: d1 }
        }
    }
}

/// Reading `len` bytes at `off`; nothing asked for is always granted.
pub open spec fn read_of(img: Seq<u8>, off: int, len: int) -> Result<Seq<u8>, FsError<()>> {
    if len == 0 {
        Ok(seq![])
    } else if off + len <= img.len() {
        Ok(img.subrange(off, off + len))
    } else {
        Err(beyond_device())
    }
}

} // verus!
