//! Pure FAT boot sector / BPB / FSInfo layouts (bytes ↔ structs).
//!
//! No volume I/O — mount code in `crate::fat` drives decoding.

use vstd::prelude::*;

use crate::bytes::{le16, le32, lemma_le_injective, lemma_subrange_pointwise};
use crate::codec::{bytes, le_u16, le_u32, put_bytes, put_u16, put_u32, FixedCodec};
use crate::codec::fat::types::{ClusterCount, FatType, SectorCount, SectorIndex};
use crate::num::{ceil_div, div_ceil_u64, saturated32};

verus! {

pub const BOOT_SIGNATURE: u8 = 0x29;

/// The boot-sector signature is the bytes `55 AA` at offset 510..512.
/// Decoded little-endian that is `0xAA55`, NOT `0x55AA` — getting this
/// wrong would make signature validation a silent no-op.
pub const FAT_SIGNATURE: u16 = 0xAA55;

pub const FAT_BPB_SIZE: usize = 36;

/// The extended boot record fills the rest of the smallest sector.
pub const EBR_SIZE: usize = 476;

pub const FSINFO_SIZE: usize = 512;

pub const FSINFO_LEAD_SIGNATURE: u32 = 0x41615252;

pub const FSINFO_MID_SIGNATURE: u32 = 0x61417272;

pub const FSINFO_TRAIL_SIGNATURE: u32 = 0xAA550000;

#[derive(Debug, Clone, Copy)]
pub struct FatBootRecord {
    pub bpb: FatBpb,
    pub ebr: Ebr,
}

#[derive(Debug, Clone, Copy)]
pub struct FatBpb {
    pub _jmpboot: [u8; 3],
    pub _oem_identifier: [u8; 8],
    pub bytes_per_sector: u16,
    pub sectors_per_cluster: u8,
    pub reserved_sector_count: u16,
    pub table_count: u8,
    pub root_entry_count: u16,
    // If this is 0, check `total_sectors_32`
    pub total_sectors_16: u16,
    pub _media_type: u8,
    pub table_size_16: u16,
    pub _sectors_per_track: u16,
    pub _head_side_count: u16,
    pub _hidden_sector_count: u32,
    pub total_sectors_32: u32,
}

#[derive(Debug, Clone, Copy)]
pub enum Ebr {
    Fat16(Fat16Ebr),
    Fat32(Fat32Ebr, Fat32FsInfo),
}

/// The shared FAT12/16 EBR layout (FAT12 itself is rejected at mount).
#[derive(Debug, Clone, Copy)]
pub struct Fat16Ebr {
    pub _drive_num: u8,
    pub _windows_nt_flags: u8,
    pub boot_signature: u8,
    pub volume_serial_num: u32,
    pub volume_label: [u8; 11],
    pub _system_identifier: [u8; 8],
    pub _boot_code: [u8; 448],
    pub signature: u16,
}

/// FAT32 BPB extended flags (`BPB_ExtFlags`).
///
/// Bit layout of the little-endian `u16`:
/// `active_fat` = bits 0–3, `mirroring_disabled` = bit 7, rest reserved.
#[derive(Debug, Clone, Copy, PartialEq, Eq, Structural)]
pub struct Fat32ExtendedFlags {
    pub active_fat: u8,
    pub mirroring_disabled: bool,
    /// Every bit we don't interpret, preserved for round-trips.
    pub reserved: u16,
}

/// `BPB_FSVer`: minor at offset 42, major at 43 (Microsoft FAT32 layout).
#[derive(Debug, Clone, Copy)]
pub struct FatVersion {
    pub minor: u8,
    pub major: u8,
}

#[derive(Debug, Clone, Copy)]
pub struct Fat32Ebr {
    pub table_size_32: u32,
    pub extended_flags: Fat32ExtendedFlags,
    pub fat_version: FatVersion,
    pub root_cluster: u32,
    pub fat_info: u16,
    pub backup_boot_sector: u16,
    pub _reserved: [u8; 12],
    pub _drive_num: u8,
    pub _windows_nt_flags: u8,
    pub boot_signature: u8,
    pub volume_serial_num: u32,
    pub volume_label: [u8; 11],
    pub _system_ident: [u8; 8],
    pub _boot_code: [u8; 420],
    pub signature: u16,
}

#[derive(Debug, Clone, Copy)]
pub struct Fat32FsInfo {
    pub lead_signature: u32,
    pub _reserved1: [u8; 480],
    pub mid_signature: u32,
    pub free_cluster_count: u32,
    pub first_free_cluster: u32,
    pub _reserved2: [u8; 12],
    pub trail_signature: u32,
}

/// The volume geometry that a boot record spells out. Crafted fields never
/// overflow: sums and products stop at the largest 32-bit number.
impl FatBootRecord {
    pub open spec fn volume_sectors(self) -> int {
        if self.bpb.total_sectors_16 == 0 {
            self.bpb.total_sectors_32 as int
        } else {
            self.bpb.total_sectors_16 as int
        }
    }

    pub open spec fn fat_sectors(self) -> int {
        match self.ebr {
            Ebr::Fat16(_) => self.bpb.table_size_16 as int,
            Ebr::Fat32(e, _) => e.table_size_32 as int,
        }
    }

    pub open spec fn root_sectors(self) -> int {
        if self.bpb.bytes_per_sector == 0 {
            0
        } else {
            let n = ceil_div(self.bpb.root_entry_count * 32, self.bpb.bytes_per_sector as int);
            if n > u16::MAX {
                u16::MAX as int
            } else {
                n
            }
        }
    }

    pub open spec fn root_start(self) -> int {
        saturated32(
            self.bpb.reserved_sector_count + saturated32(
                self.bpb.table_count * self.fat_sectors(),
            ),
        )
    }

    pub open spec fn data_start(self) -> int {
        saturated32(self.root_start() + self.root_sectors())
    }

    pub open spec fn data_sectors(self) -> int {
        if self.volume_sectors() < self.data_start() {
            0
        } else {
            self.volume_sectors() - self.data_start()
        }
    }

    pub open spec fn cluster_total(self) -> int {
        if self.bpb.sectors_per_cluster == 0 {
            0
        } else {
            self.data_sectors() / (self.bpb.sectors_per_cluster as int)
        }
    }

    /// The FAT width by the cluster-count thresholds; `None` is FAT12 or no
    /// FAT volume.
    pub open spec fn width(self) -> Option<FatType> {
        if self.bpb.bytes_per_sector == 0 || self.cluster_total() < 4085 {
            None
        } else if self.cluster_total() < 65525 {
            Some(FatType::FAT16)
        } else {
            Some(FatType::FAT32)
        }
    }

    /// Both signature fields carry their fixed values.
    pub open spec fn signed(self) -> bool {
        match self.ebr {
            Ebr::Fat16(e) => e.boot_signature == BOOT_SIGNATURE && e.signature == FAT_SIGNATURE,
            Ebr::Fat32(e, _) => e.boot_signature == BOOT_SIGNATURE && e.signature == FAT_SIGNATURE,
        }
    }

    #[inline]
    pub fn verify_signature(&self) -> (r: bool)
        ensures
            r == self.signed(),
    {
        match &self.ebr {
            Ebr::Fat16(e) => e.boot_signature == BOOT_SIGNATURE && e.signature == FAT_SIGNATURE,
            Ebr::Fat32(e, _) => e.boot_signature == BOOT_SIGNATURE && e.signature == FAT_SIGNATURE,
        }
    }

    /// Total sectors in the volume, including the VBR
    #[inline]
    pub fn total_sectors(&self) -> (r: SectorCount)
        ensures
            r == self.volume_sectors(),
    {
        if self.bpb.total_sectors_16 == 0 {
            self.bpb.total_sectors_32
        } else {
            self.bpb.total_sectors_16 as u32
        }
    }

    /// FAT size in sectors
    #[inline]
    pub fn fat_sector_size(&self) -> (r: u32)
        ensures
            r == self.fat_sectors(),
    {
        match &self.ebr {
            Ebr::Fat16(_) => self.bpb.table_size_16 as u32,
            Ebr::Fat32(e, _) => e.table_size_32,
        }
    }

    /// Sectors occupied by the root directory, rounded up (0 on FAT32). A
    /// zero `bytes_per_sector` yields 0 (rejected downstream), and the
    /// result saturates into `u16`.
    #[inline]
    pub fn root_dir_sectors(&self) -> (r: u16)
        ensures
            r == self.root_sectors(),
    {
        let bytes: u64 = self.bpb.root_entry_count as u64 * 32;
        let per_sector: u64 = self.bpb.bytes_per_sector as u64;
        if per_sector == 0 {
            return 0;
        }
        let n: u64 = div_ceil_u64(bytes, per_sector);
        if n > 0xFFFF {
            u16::MAX
        } else {
            n as u16
        }
    }

    /// The first sector in the File Allocation Table
    #[inline]
    pub fn first_fat_sector(&self) -> (r: u16)
        ensures
            r == self.bpb.reserved_sector_count,
    {
        self.bpb.reserved_sector_count
    }

    /// The first sector of the root directory (returns the first data
    /// sector on FAT32). Saturating: adversarial `table_count` /
    /// `table_size` cannot overflow the `u32` sector index.
    #[inline]
    pub fn first_root_dir_sector(&self) -> (r: SectorIndex)
        ensures
            r == self.root_start(),
    {
        proof {
            let (a, b) = (self.bpb.table_count, self.fat_sectors());
            assert(0 <= a * b <= 0xFF * 0xFFFF_FFFF) by (nonlinear_arith)
                requires
                    0 <= a <= 0xFF,
                    0 <= b <= 0xFFFF_FFFF,
            ;
        }
        let tables: u64 = self.bpb.table_count as u64 * self.fat_sector_size() as u64;
        let tables: u32 = if tables > 0xFFFF_FFFF {
            u32::MAX
        } else {
            tables as u32
        };
        (self.first_fat_sector() as u32).saturating_add(tables)
    }

    /// The first data sector (that is, the first sector in which
    /// directories and files may be stored). Saturating.
    #[inline]
    pub fn first_data_sector(&self) -> (r: SectorIndex)
        ensures
            r == self.data_start(),
    {
        self.first_root_dir_sector().saturating_add(self.root_dir_sectors() as u32)
    }

    /// The total number of data sectors (`DataSec`). Saturating: a
    /// `first_data_sector` past `total_sectors` (crafted BPB) yields 0
    /// rather than underflowing.
    #[inline]
    pub fn total_data_sectors(&self) -> (r: SectorCount)
        ensures
            r == self.data_sectors(),
    {
        self.total_sectors().saturating_sub(self.first_data_sector())
    }

    /// `CountofClusters` — the number of data clusters. This
    /// drives FAT-type classification; the highest *valid cluster index*
    /// is `CountofClusters + 1` ([`Self::max_cluster`]), since numbering
    /// starts at 2. A zero `sectors_per_cluster` (invalid) yields 0 —
    /// classified as FAT12 and rejected at mount.
    #[inline]
    pub fn total_clusters(&self) -> (r: ClusterCount)
        ensures
            r == self.cluster_total(),
    {
        let per_cluster: u32 = self.bpb.sectors_per_cluster as u32;
        if per_cluster == 0 {
            return 0;
        }
        self.total_data_sectors() / per_cluster
    }

    /// Highest valid data-cluster index (`CountofClusters + 1`): cluster
    /// numbering starts at 2, so a volume with N clusters spans `2..=N+1`.
    #[inline]
    pub fn max_cluster(&self) -> (r: ClusterCount)
        ensures
            r == saturated32(self.cluster_total() + 1),
    {
        self.total_clusters().saturating_add(1)
    }

    /// The FAT type, by the cluster-count thresholds. `None` for
    /// FAT12 (< 4085 clusters, unsupported) or a zero `bytes_per_sector`
    /// (an exFAT VBR, which the mount path catches earlier).
    #[inline]
    pub fn fat_type(&self) -> (r: Option<FatType>)
        ensures
            r == self.width(),
    {
        if self.bpb.bytes_per_sector == 0 {
            return None;
        }
        let n: u32 = self.total_clusters();
        if n < 4085 {
            None
        } else if n < 65525 {
            Some(FatType::FAT16)
        } else {
            Some(FatType::FAT32)
        }
    }
}

/// `DataSec` and `CountofClusters` agree: the clusters fill the data area up
/// to less than one cluster.
pub proof fn law_clusters_fill_data_area(br: FatBootRecord)
    requires
        br.bpb.sectors_per_cluster > 0,
    ensures
        br.cluster_total() * br.bpb.sectors_per_cluster <= br.data_sectors(),
        br.data_sectors() < (br.cluster_total() + 1) * br.bpb.sectors_per_cluster,
{
    let d = br.data_sectors();
    let s = br.bpb.sectors_per_cluster as int;
    vstd::arithmetic::div_mod::lemma_fundamental_div_mod(d, s);
    assert(s * (d / s) == (d / s) * s && (d / s + 1) * s == (d / s) * s + s) by (nonlinear_arith);
}

/// The flags a raw `BPB_ExtFlags` word stands for.
pub open spec fn flags_of(raw: u16) -> Fat32ExtendedFlags {
    Fat32ExtendedFlags {
        active_fat: (raw & 0x000F) as u8,
        mirroring_disabled: raw & 0x0080 != 0,
        reserved: raw & !0x008Fu16,
    }
}

/// Decoding and packing `BPB_ExtFlags` gives the word back, bit for bit.
pub proof fn law_flags_round_trip(raw: u16)
    ensures
        flags_of(raw).packed() == raw,
{
    assert((((raw & 0x000F) as u8 & 0x0F) as u16) | (if raw & 0x0080 != 0 {
        0x0080u16
    } else {
        0u16
    }) | (raw & !0x008Fu16) == raw) by (bit_vector);
}

impl Fat32ExtendedFlags {
    /// The `BPB_ExtFlags` word of these flags.
    pub open spec fn packed(self) -> u16 {
        ((self.active_fat & 0x0F) as u16) | (if self.mirroring_disabled {
            0x0080u16
        } else {
            0u16
        }) | self.reserved
    }

    pub fn decode(raw: u16) -> (r: Self)
        ensures
            r == flags_of(raw),
    {
        Fat32ExtendedFlags {
            active_fat: (raw & 0x000F) as u8,
            mirroring_disabled: raw & 0x0080 != 0,
            reserved: raw & !0x008Fu16,
        }
    }

    pub fn encode(self) -> (r: u16)
        ensures
            r == self.packed(),
    {
        ((self.active_fat & 0x0F) as u16) | (if self.mirroring_disabled {
            0x0080u16
        } else {
            0u16
        }) | self.reserved
    }
}

impl Fat32FsInfo {
    pub open spec fn signed(self) -> bool {
        &&& self.lead_signature == FSINFO_LEAD_SIGNATURE
        &&& self.mid_signature == FSINFO_MID_SIGNATURE
        &&& self.trail_signature == FSINFO_TRAIL_SIGNATURE
    }

    pub fn verify_signature(&self) -> (r: bool)
        ensures
            r == self.signed(),
    {
        self.lead_signature == FSINFO_LEAD_SIGNATURE && self.mid_signature == FSINFO_MID_SIGNATURE
            && self.trail_signature == FSINFO_TRAIL_SIGNATURE
    }

    /// A valid FSInfo with both hint fields "unknown" (`u32::MAX`).
    /// Used when the on-disk sector is corrupt: FSInfo is advisory, so a
    /// scribbled copy must not fail the mount — and syncing this back
    /// repairs it.
    pub fn unknown() -> (r: Self)
        ensures
            r.signed(),
            r.free_cluster_count == u32::MAX,
            r.first_free_cluster == u32::MAX,
            r._reserved1@ == Seq::new(480, |i: int| 0u8),
            r._reserved2@ == Seq::new(12, |i: int| 0u8),
    {
        let r = Fat32FsInfo {
            lead_signature: FSINFO_LEAD_SIGNATURE,
            _reserved1: [0u8;480],
            mid_signature: FSINFO_MID_SIGNATURE,
            free_cluster_count: u32::MAX,
            first_free_cluster: u32::MAX,
            _reserved2: [0u8;12],
            trail_signature: FSINFO_TRAIL_SIGNATURE,
        };
        assert(r._reserved1@ =~= Seq::new(480, |i: int| 0u8));
        assert(r._reserved2@ =~= Seq::new(12, |i: int| 0u8));
        r
    }
}

impl FatBpb {
    /// Field by field, where each value of the record stands in its image.
    pub open spec fn layout(self, b: Seq<u8>) -> bool {
        &&& self._jmpboot@ == b.subrange(0, 3)
        &&& self._oem_identifier@ == b.subrange(3, 11)
        &&& self.bytes_per_sector == le16(b, 11)
        &&& self.sectors_per_cluster == b[13]
        &&& self.reserved_sector_count == le16(b, 14)
        &&& self.table_count == b[16]
        &&& self.root_entry_count == le16(b, 17)
        &&& self.total_sectors_16 == le16(b, 19)
        &&& self._media_type == b[21]
        &&& self.table_size_16 == le16(b, 22)
        &&& self._sectors_per_track == le16(b, 24)
        &&& self._head_side_count == le16(b, 26)
        &&& self._hidden_sector_count == le32(b, 28)
        &&& self.total_sectors_32 == le32(b, 32)
    }
}

impl FixedCodec for FatBpb {
    open spec fn record_len() -> nat {
        36
    }

    open spec fn accepts(b: Seq<u8>) -> bool {
        true
    }

    open spec fn decoded_from(self, b: Seq<u8>) -> bool {
        self.layout(b)
    }

    open spec fn encoded_as(self, b: Seq<u8>) -> bool {
        self.layout(b)
    }

    open spec fn writable(self) -> bool {
        true
    }

    fn size() -> (n: usize) {
        FAT_BPB_SIZE
    }

    fn parse(b: &[u8]) -> (r: Option<Self>) {
        if b.len() < FAT_BPB_SIZE {
            return None;
        }
        Some(
            FatBpb {
                _jmpboot: bytes(b, 0),
                _oem_identifier: bytes(b, 3),
                bytes_per_sector: le_u16(b, 11),
                sectors_per_cluster: b[13],
                reserved_sector_count: le_u16(b, 14),
                table_count: b[16],
                root_entry_count: le_u16(b, 17),
                total_sectors_16: le_u16(b, 19),
                _media_type: b[21],
                table_size_16: le_u16(b, 22),
                _sectors_per_track: le_u16(b, 24),
                _head_side_count: le_u16(b, 26),
                _hidden_sector_count: le_u32(b, 28),
                total_sectors_32: le_u32(b, 32),
            },
        )
    }

    fn write_into(&self, out: &mut [u8]) {
        put_bytes(out, 0, &self._jmpboot);
        let ghost s1 = out@;
        put_bytes(out, 3, &self._oem_identifier);
        let ghost s2 = out@;
        put_u16(out, 11, self.bytes_per_sector);
        out[13] = self.sectors_per_cluster;
        put_u16(out, 14, self.reserved_sector_count);
        out[16] = self.table_count;
        put_u16(out, 17, self.root_entry_count);
        put_u16(out, 19, self.total_sectors_16);
        out[21] = self._media_type;
        put_u16(out, 22, self.table_size_16);
        put_u16(out, 24, self._sectors_per_track);
        put_u16(out, 26, self._head_side_count);
        put_u32(out, 28, self._hidden_sector_count);
        put_u32(out, 32, self.total_sectors_32);
        proof {
            assert(out@.subrange(0, 3) =~= s1.subrange(0, 3));
            assert(out@.subrange(3, 11) =~= s2.subrange(3, 11));
        }
    }

    proof fn law_decode_unique(a: Self, c: Self, b: Seq<u8>) {
        assert(a._jmpboot =~= c._jmpboot);
        assert(a._oem_identifier =~= c._oem_identifier);
    }

    proof fn law_fixed_point(a: Self, src: Seq<u8>, b: Seq<u8>) {
    }

    proof fn law_encode_unique(a: Self, b: Seq<u8>, c: Seq<u8>) {
        lemma_subrange_pointwise(b, c, 0, 3);
        lemma_subrange_pointwise(b, c, 3, 11);
        lemma_le_injective(b, c, 11);
        lemma_le_injective(b, c, 14);
        lemma_le_injective(b, c, 17);
        lemma_le_injective(b, c, 19);
        lemma_le_injective(b, c, 22);
        lemma_le_injective(b, c, 24);
        lemma_le_injective(b, c, 26);
        lemma_le_injective(b, c, 28);
        lemma_le_injective(b, c, 32);
        assert(b.subrange(0, 36) =~= c.subrange(0, 36));
    }
}

impl Fat16Ebr {
    /// Field by field, where each value of the record stands in its image.
    pub open spec fn layout(self, b: Seq<u8>) -> bool {
        &&& self._drive_num == b[0]
        &&& self._windows_nt_flags == b[1]
        &&& self.boot_signature == b[2]
        &&& self.volume_serial_num == le32(b, 3)
        &&& self.volume_label@ == b.subrange(7, 18)
        &&& self._system_identifier@ == b.subrange(18, 26)
        &&& self._boot_code@ == b.subrange(26, 474)
        &&& self.signature == le16(b, 474)
    }
}

impl FixedCodec for Fat16Ebr {
    open spec fn record_len() -> nat {
        476
    }

    open spec fn accepts(b: Seq<u8>) -> bool {
        true
    }

    open spec fn decoded_from(self, b: Seq<u8>) -> bool {
        self.layout(b)
    }

    open spec fn encoded_as(self, b: Seq<u8>) -> bool {
        self.layout(b)
    }

    open spec fn writable(self) -> bool {
        true
    }

    fn size() -> (n: usize) {
        EBR_SIZE
    }

    fn parse(b: &[u8]) -> (r: Option<Self>) {
        if b.len() < EBR_SIZE {
            return None;
        }
        Some(
            Fat16Ebr {
                _drive_num: b[0],
                _windows_nt_flags: b[1],
                boot_signature: b[2],
                volume_serial_num: le_u32(b, 3),
                volume_label: bytes(b, 7),
                _system_identifier: bytes(b, 18),
                _boot_code: bytes(b, 26),
                signature: le_u16(b, 474),
            },
        )
    }

    fn write_into(&self, out: &mut [u8]) {
        out[0] = self._drive_num;
        out[1] = self._windows_nt_flags;
        out[2] = self.boot_signature;
        put_u32(out, 3, self.volume_serial_num);
        put_bytes(out, 7, &self.volume_label);
        let ghost s1 = out@;
        put_bytes(out, 18, &self._system_identifier);
        let ghost s2 = out@;
        put_bytes(out, 26, &self._boot_code);
        let ghost s3 = out@;
        put_u16(out, 474, self.signature);
        proof {
            assert(out@.subrange(7, 18) =~= s1.subrange(7, 18));
            assert(out@.subrange(18, 26) =~= s2.subrange(18, 26));
            assert(out@.subrange(26, 474) =~= s3.subrange(26, 474));
        }
    }

    proof fn law_decode_unique(a: Self, c: Self, b: Seq<u8>) {
        assert(a.volume_label =~= c.volume_label);
        assert(a._system_identifier =~= c._system_identifier);
        assert(a._boot_code =~= c._boot_code);
    }

    proof fn law_fixed_point(a: Self, src: Seq<u8>, b: Seq<u8>) {
    }

    proof fn law_encode_unique(a: Self, b: Seq<u8>, c: Seq<u8>) {
        lemma_le_injective(b, c, 3);
        lemma_subrange_pointwise(b, c, 7, 18);
        lemma_subrange_pointwise(b, c, 18, 26);
        lemma_subrange_pointwise(b, c, 26, 474);
        lemma_le_injective(b, c, 474);
        assert(b.subrange(0, 476) =~= c.subrange(0, 476));
    }
}

impl Fat32Ebr {
    /// Field by field, where each value of the record stands in its image.
    pub open spec fn layout(self, b: Seq<u8>) -> bool {
        &&& self.table_size_32 == le32(b, 0)
        &&& self.fat_version.minor == b[6]
        &&& self.fat_version.major == b[7]
        &&& self.root_cluster == le32(b, 8)
        &&& self.fat_info == le16(b, 12)
        &&& self.backup_boot_sector == le16(b, 14)
        &&& self._reserved@ == b.subrange(16, 28)
        &&& self._drive_num == b[28]
        &&& self._windows_nt_flags == b[29]
        &&& self.boot_signature == b[30]
        &&& self.volume_serial_num == le32(b, 31)
        &&& self.volume_label@ == b.subrange(35, 46)
        &&& self._system_ident@ == b.subrange(46, 54)
        &&& self._boot_code@ == b.subrange(54, 474)
        &&& self.signature == le16(b, 474)
    }
}

impl FixedCodec for Fat32Ebr {
    open spec fn record_len() -> nat {
        476
    }

    open spec fn accepts(b: Seq<u8>) -> bool {
        true
    }

    open spec fn decoded_from(self, b: Seq<u8>) -> bool {
        self.layout(b) && self.extended_flags == flags_of(le16(b, 4) as u16)
    }

    open spec fn encoded_as(self, b: Seq<u8>) -> bool {
        self.layout(b) && self.extended_flags.packed() == le16(b, 4)
    }

    open spec fn writable(self) -> bool {
        true
    }

    fn size() -> (n: usize) {
        EBR_SIZE
    }

    fn parse(b: &[u8]) -> (r: Option<Self>) {
        if b.len() < EBR_SIZE {
            return None;
        }
        Some(
            Fat32Ebr {
                table_size_32: le_u32(b, 0),
                extended_flags: Fat32ExtendedFlags::decode(le_u16(b, 4)),
                fat_version: FatVersion { minor: b[6], major: b[7] },
                root_cluster: le_u32(b, 8),
                fat_info: le_u16(b, 12),
                backup_boot_sector: le_u16(b, 14),
                _reserved: bytes(b, 16),
                _drive_num: b[28],
                _windows_nt_flags: b[29],
                boot_signature: b[30],
                volume_serial_num: le_u32(b, 31),
                volume_label: bytes(b, 35),
                _system_ident: bytes(b, 46),
                _boot_code: bytes(b, 54),
                signature: le_u16(b, 474),
            },
        )
    }

    fn write_into(&self, out: &mut [u8]) {
        put_u32(out, 0, self.table_size_32);
        put_u16(out, 4, self.extended_flags.encode());
        out[6] = self.fat_version.minor;
        out[7] = self.fat_version.major;
        put_u32(out, 8, self.root_cluster);
        put_u16(out, 12, self.fat_info);
        put_u16(out, 14, self.backup_boot_sector);
        put_bytes(out, 16, &self._reserved);
        let ghost s1 = out@;
        out[28] = self._drive_num;
        out[29] = self._windows_nt_flags;
        out[30] = self.boot_signature;
        put_u32(out, 31, self.volume_serial_num);
        put_bytes(out, 35, &self.volume_label);
        let ghost s2 = out@;
        put_bytes(out, 46, &self._system_ident);
        let ghost s3 = out@;
        put_bytes(out, 54, &self._boot_code);
        let ghost s4 = out@;
        put_u16(out, 474, self.signature);
        proof {
            assert(out@.subrange(16, 28) =~= s1.subrange(16, 28));
            assert(out@.subrange(35, 46) =~= s2.subrange(35, 46));
            assert(out@.subrange(46, 54) =~= s3.subrange(46, 54));
            assert(out@.subrange(54, 474) =~= s4.subrange(54, 474));
        }
    }

    proof fn law_decode_unique(a: Self, c: Self, b: Seq<u8>) {
        assert(a._reserved =~= c._reserved);
        assert(a.volume_label =~= c.volume_label);
        assert(a._system_ident =~= c._system_ident);
        assert(a._boot_code =~= c._boot_code);
    }

    proof fn law_fixed_point(a: Self, src: Seq<u8>, b: Seq<u8>) {
        law_flags_round_trip(le16(src, 4) as u16);
    }

    proof fn law_encode_unique(a: Self, b: Seq<u8>, c: Seq<u8>) {
        lemma_le_injective(b, c, 0);
        lemma_le_injective(b, c, 4);
        lemma_le_injective(b, c, 8);
        lemma_le_injective(b, c, 12);
        lemma_le_injective(b, c, 14);
        lemma_subrange_pointwise(b, c, 16, 28);
        lemma_le_injective(b, c, 31);
        lemma_subrange_pointwise(b, c, 35, 46);
        lemma_subrange_pointwise(b, c, 46, 54);
        lemma_subrange_pointwise(b, c, 54, 474);
        lemma_le_injective(b, c, 474);
        assert(b.subrange(0, 476) =~= c.subrange(0, 476));
    }
}

impl Fat32FsInfo {
    /// Field by field, where each value of the record stands in its image.
    pub open spec fn layout(self, b: Seq<u8>) -> bool {
        &&& self.lead_signature == le32(b, 0)
        &&& self._reserved1@ == b.subrange(4, 484)
        &&& self.mid_signature == le32(b, 484)
        &&& self.free_cluster_count == le32(b, 488)
        &&& self.first_free_cluster == le32(b, 492)
        &&& self._reserved2@ == b.subrange(496, 508)
        &&& self.trail_signature == le32(b, 508)
    }
}

impl FixedCodec for Fat32FsInfo {
    open spec fn record_len() -> nat {
        512
    }

    open spec fn accepts(b: Seq<u8>) -> bool {
        true
    }

    open spec fn decoded_from(self, b: Seq<u8>) -> bool {
        self.layout(b)
    }

    open spec fn encoded_as(self, b: Seq<u8>) -> bool {
        self.layout(b)
    }

    open spec fn writable(self) -> bool {
        true
    }

    fn size() -> (n: usize) {
        FSINFO_SIZE
    }

    fn parse(b: &[u8]) -> (r: Option<Self>) {
        if b.len() < FSINFO_SIZE {
            return None;
        }
        Some(
            Fat32FsInfo {
                lead_signature: le_u32(b, 0),
                _reserved1: bytes(b, 4),
                mid_signature: le_u32(b, 484),
                free_cluster_count: le_u32(b, 488),
                first_free_cluster: le_u32(b, 492),
                _reserved2: bytes(b, 496),
                trail_signature: le_u32(b, 508),
            },
        )
    }

    fn write_into(&self, out: &mut [u8]) {
        put_u32(out, 0, self.lead_signature);
        put_bytes(out, 4, &self._reserved1);
        let ghost s1 = out@;
        put_u32(out, 484, self.mid_signature);
        put_u32(out, 488, self.free_cluster_count);
        put_u32(out, 492, self.first_free_cluster);
        put_bytes(out, 496, &self._reserved2);
        let ghost s2 = out@;
        put_u32(out, 508, self.trail_signature);
        proof {
            assert(out@.subrange(4, 484) =~= s1.subrange(4, 484));
            assert(out@.subrange(496, 508) =~= s2.subrange(496, 508));
        }
    }

    proof fn law_decode_unique(a: Self, c: Self, b: Seq<u8>) {
        assert(a._reserved1 =~= c._reserved1);
        assert(a._reserved2 =~= c._reserved2);
    }

    proof fn law_fixed_point(a: Self, src: Seq<u8>, b: Seq<u8>) {
    }

    proof fn law_encode_unique(a: Self, b: Seq<u8>, c: Seq<u8>) {
        lemma_le_injective(b, c, 0);
        lemma_subrange_pointwise(b, c, 4, 484);
        lemma_le_injective(b, c, 484);
        lemma_le_injective(b, c, 488);
        lemma_le_injective(b, c, 492);
        lemma_subrange_pointwise(b, c, 496, 508);
        lemma_le_injective(b, c, 508);
        assert(b.subrange(0, 512) =~= c.subrange(0, 512));
    }
}

} // verus!
