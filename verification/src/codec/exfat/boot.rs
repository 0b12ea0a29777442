//! Pure exFAT Volume Boot Record layout (bytes ↔ struct).

use vstd::arithmetic::power2::pow2;
use vstd::prelude::*;

use crate::bytes::{
    le16, le32, le64, lemma_le64_injective, lemma_le_injective, lemma_subrange_pointwise,
};
use crate::codec::{bytes, le_u16, le_u32, le_u64, put_bytes, put_u16, put_u32, put_u64, FixedCodec};
use crate::num::{ceil_div, div_ceil_u64};

verus! {

/// Size of the fixed portion of the exFAT VBR we decode; the rest of
/// the sector holds boot code / CRC fields a mount doesn't need.
pub const EXFAT_BOOT_RECORD_SIZE: usize = 120;

/// `v` rotated right by one bit, then `byte` added, both modulo 2³².
pub open spec fn roll32(v: int, byte: int) -> int {
    (v / 2 + 0x8000_0000 * (v % 2) + byte) % 0x1_0000_0000
}

/// VolumeFlags (bytes 106–107) and PercentInUse (byte 112) are excluded
/// from the boot-region checksum so they can be updated in place.
pub open spec fn checksum_excluded(i: int) -> bool {
    i == 106 || i == 107 || i == 112
}

/// The boot-region checksum of `region`.
pub open spec fn boot_region_checksum_of(region: Seq<u8>) -> int
    decreases region.len(),
{
    if region.len() == 0 {
        0
    } else {
        let cs = boot_region_checksum_of(region.drop_last());
        if checksum_excluded(region.len() - 1) {
            cs
        } else {
            roll32(cs, region.last() as int)
        }
    }
}

/// The up-case table checksum of `table`.
pub open spec fn upcase_table_checksum_of(table: Seq<u8>) -> int
    decreases table.len(),
{
    if table.len() == 0 {
        0
    } else {
        roll32(upcase_table_checksum_of(table.drop_last()), table.last() as int)
    }
}

/// One step of the exFAT rolling `u32` checksum: rotate right by one,
/// then add the byte. Used for both the boot-region and up-case-table
/// checksums.
#[inline]
fn roll(checksum: u32, byte: u8) -> (r: u32)
    ensures
        r == roll32(checksum as int, byte as int),
{
    (((checksum / 2) as u64 + 0x8000_0000 * ((checksum % 2) as u64) + byte as u64)
        % 0x1_0000_0000) as u32
}

/// The exFAT Main Boot Checksum over the first 11 sectors of the boot
/// region, skipping the three mutable bytes. The 12th sector on disk is
/// this value repeated to fill the sector.
pub fn boot_region_checksum(region: &[u8]) -> (cs: u32)
    ensures
        cs == boot_region_checksum_of(region@),
{
    let mut cs: u32 = 0;
    let mut i: usize = 0;
    while i < region.len()
        invariant
            i <= region@.len(),
            cs == boot_region_checksum_of(region@.subrange(0, i as int)),
        decreases region@.len() - i,
    {
        proof {
            assert(region@.subrange(0, i + 1).drop_last() =~= region@.subrange(0, i as int));
        }
        if !(i == 106 || i == 107 || i == 112) {
            cs = roll(cs, region[i]);
        }
        i += 1;
    }
    assert(region@.subrange(0, i as int) =~= region@);
    cs
}

/// The exFAT up-case table checksum: the rolling `u32` over every byte
/// of the table's on-disk data (`DataLength` bytes).
pub fn upcase_table_checksum(table: &[u8]) -> (cs: u32)
    ensures
        cs == upcase_table_checksum_of(table@),
{
    let mut cs: u32 = 0;
    let mut i: usize = 0;
    while i < table.len()
        invariant
            i <= table@.len(),
            cs == upcase_table_checksum_of(table@.subrange(0, i as int)),
        decreases table@.len() - i,
    {
        proof {
            assert(table@.subrange(0, i + 1).drop_last() =~= table@.subrange(0, i as int));
        }
        cs = roll(cs, table[i]);
        i += 1;
    }
    assert(table@.subrange(0, i as int) =~= table@);
    cs
}

/// The volume flags and the usage percentage can change without touching
/// the boot-region checksum.
pub proof fn law_boot_checksum_ignores_mutable_bytes(a: Seq<u8>, b: Seq<u8>)
    requires
        a.len() == b.len(),
        forall|i: int| 0 <= i < a.len() && !checksum_excluded(i) ==> a[i] == b[i],
    ensures
        boot_region_checksum_of(a) == boot_region_checksum_of(b),
    decreases a.len(),
{
    if a.len() > 0 {
        law_boot_checksum_ignores_mutable_bytes(a.drop_last(), b.drop_last());
    }
}

/// The fixed head of an exFAT Volume Boot Record.
#[derive(Debug, Clone, Copy)]
pub struct ExfatBootRecord {
    pub _dummy_jmp: [u8; 3],
    pub _oem_identifier: [u8; 8],
    pub _zeroed: [u8; 53],
    pub _partition_offset: u64,
    pub volume_len: u64,
    pub fat_offset: u32,
    pub fat_len: u32,
    pub cluster_heap_offset: u32,
    pub cluster_count: u32,
    pub root_dir_cluster: u32,
    pub partition_serial_num: u32,
    pub fs_revision: u16,
    pub flags: u16,
    pub sector_shift: u8,
    pub cluster_shift: u8,
    pub fat_count: u8,
    pub drive_select: u8,
    pub used_percentage: u8,
    pub _reserved: [u8; 7],
}

impl ExfatBootRecord {
    /// Field by field, where each value of the record stands in its image.
    pub open spec fn layout(self, b: Seq<u8>) -> bool {
        &&& self._dummy_jmp@ == b.subrange(0, 3)
        &&& self._oem_identifier@ == b.subrange(3, 11)
        &&& self._zeroed@ == b.subrange(11, 64)
        &&& self._partition_offset == le64(b, 64)
        &&& self.volume_len == le64(b, 72)
        &&& self.fat_offset == le32(b, 80)
        &&& self.fat_len == le32(b, 84)
        &&& self.cluster_heap_offset == le32(b, 88)
        &&& self.cluster_count == le32(b, 92)
        &&& self.root_dir_cluster == le32(b, 96)
        &&& self.partition_serial_num == le32(b, 100)
        &&& self.fs_revision == le16(b, 104)
        &&& self.flags == le16(b, 106)
        &&& self.sector_shift == b[108]
        &&& self.cluster_shift == b[109]
        &&& self.fat_count == b[110]
        &&& self.drive_select == b[111]
        &&& self.used_percentage == b[112]
        &&& self._reserved@ == b.subrange(113, 120)
    }
}

impl FixedCodec for ExfatBootRecord {
    open spec fn record_len() -> nat {
        120
    }

    open spec fn accepts(b: Seq<u8>) -> bool {
        true
    }

    open spec fn decoded_from(self, b: Seq<u8>) -> bool {
        self.layout(b)
    }

    open spec fn encoded_as(self, b: Seq<u8>) -> bool {
        self.layout(b)
    }

    open spec fn writable(self) -> bool {
        true
    }

    fn size() -> (n: usize) {
        EXFAT_BOOT_RECORD_SIZE
    }

    fn parse(b: &[u8]) -> (r: Option<Self>) {
        if b.len() < EXFAT_BOOT_RECORD_SIZE {
            return None;
        }
        Some(
            ExfatBootRecord {
                _dummy_jmp: bytes(b, 0),
                _oem_identifier: bytes(b, 3),
                _zeroed: bytes(b, 11),
                _partition_offset: le_u64(b, 64),
                volume_len: le_u64(b, 72),
                fat_offset: le_u32(b, 80),
                fat_len: le_u32(b, 84),
                cluster_heap_offset: le_u32(b, 88),
                cluster_count: le_u32(b, 92),
                root_dir_cluster: le_u32(b, 96),
                partition_serial_num: le_u32(b, 100),
                fs_revision: le_u16(b, 104),
                flags: le_u16(b, 106),
                sector_shift: b[108],
                cluster_shift: b[109],
                fat_count: b[110],
                drive_select: b[111],
                used_percentage: b[112],
                _reserved: bytes(b, 113),
            },
        )
    }

    fn write_into(&self, out: &mut [u8]) {
        put_bytes(out, 0, &self._dummy_jmp);
        put_bytes(out, 3, &self._oem_identifier);
        put_bytes(out, 11, &self._zeroed);
        let ghost head = out@;
        put_u64(out, 64, self._partition_offset);
        put_u64(out, 72, self.volume_len);
        put_u32(out, 80, self.fat_offset);
        put_u32(out, 84, self.fat_len);
        put_u32(out, 88, self.cluster_heap_offset);
        put_u32(out, 92, self.cluster_count);
        put_u32(out, 96, self.root_dir_cluster);
        put_u32(out, 100, self.partition_serial_num);
        put_u16(out, 104, self.fs_revision);
        put_u16(out, 106, self.flags);
        out[108] = self.sector_shift;
        out[109] = self.cluster_shift;
        out[110] = self.fat_count;
        out[111] = self.drive_select;
        out[112] = self.used_percentage;
        put_bytes(out, 113, &self._reserved);
        proof {
            assert(head.subrange(0, 3) =~= self._dummy_jmp@);
            assert(head.subrange(3, 11) =~= self._oem_identifier@);
            assert(out@.subrange(0, 3) =~= head.subrange(0, 3));
            assert(out@.subrange(3, 11) =~= head.subrange(3, 11));
            assert(out@.subrange(11, 64) =~= head.subrange(11, 64));
        }
    }

    proof fn law_decode_unique(a: Self, c: Self, b: Seq<u8>) {
        assert(a._dummy_jmp =~= c._dummy_jmp);
        assert(a._oem_identifier =~= c._oem_identifier);
        assert(a._zeroed =~= c._zeroed);
        assert(a._reserved =~= c._reserved);
    }

    proof fn law_fixed_point(a: Self, src: Seq<u8>, b: Seq<u8>) {
    }

    proof fn law_encode_unique(a: Self, b: Seq<u8>, c: Seq<u8>) {
        lemma_subrange_pointwise(b, c, 0, 3);
        lemma_subrange_pointwise(b, c, 3, 11);
        lemma_subrange_pointwise(b, c, 11, 64);
        lemma_subrange_pointwise(b, c, 113, 120);
        lemma_le64_injective(b, c, 64);
        lemma_le64_injective(b, c, 72);
        lemma_le_injective(b, c, 80);
        lemma_le_injective(b, c, 84);
        lemma_le_injective(b, c, 88);
        lemma_le_injective(b, c, 92);
        lemma_le_injective(b, c, 96);
        lemma_le_injective(b, c, 100);
        lemma_le_injective(b, c, 104);
        lemma_le_injective(b, c, 106);
        assert(b.subrange(0, 120) =~= c.subrange(0, 120));
    }
}

/// `2^shift`, or 0 where that is no 32-bit number.
pub open spec fn shifted_unit(shift: int) -> int {
    if shift < 32 {
        pow2(shift as nat) as int
    } else {
        0
    }
}

fn checked_unit(shift: u32) -> (r: u32)
    ensures
        r == shifted_unit(shift as int),
{
    if shift < 32 {
        proof {
            vstd::arithmetic::power2::lemma2_to64();
            if shift < 31 {
                vstd::arithmetic::power2::lemma_pow2_strictly_increases(shift as nat, 31);
            }
            vstd::bits::lemma_u32_shl_is_mul(1, shift);
        }
        1u32 << shift
    } else {
        0
    }
}

impl ExfatBootRecord {
    /// The sector size is one the format allows and so is the cluster size.
    pub open spec fn valid_shifts(self) -> bool {
        9 <= self.sector_shift <= 12 && self.sector_shift + self.cluster_shift <= 25
    }

    pub open spec fn sector_bytes(self) -> int {
        shifted_unit(self.sector_shift as int)
    }

    pub open spec fn cluster_bytes(self) -> int {
        shifted_unit(self.sector_shift + self.cluster_shift)
    }

    /// Highest valid data-cluster index, within 32 bits.
    pub open spec fn last_cluster(self) -> int {
        if self.cluster_count == u32::MAX {
            u32::MAX as int
        } else {
            self.cluster_count + 1
        }
    }

    /// Whether a directory entry's cluster and length fields are consistent
    /// with this volume's cluster heap: see [`Self::entry_geometry_valid`].
    pub open spec fn geometry_ok(
        self,
        first_cluster: int,
        data_length: int,
        valid_data_length: int,
        no_fat_chain: bool,
    ) -> bool {
        &&& valid_data_length <= data_length
        &&& if first_cluster == 0 {
            data_length == 0
        } else {
            let clusters = ceil_div(data_length, self.cluster_bytes());
            &&& 2 <= first_cluster <= self.last_cluster()
            &&& self.cluster_bytes() > 0
            &&& clusters <= self.cluster_count
            &&& no_fat_chain ==> first_cluster + clusters - 1 <= self.last_cluster()
        }
    }

    /// Guard against adversarial VBR shift fields. The format fixes
    /// `BytesPerSectorShift` in `9..=12` (512 B – 4 KiB sectors) and caps
    /// `sector_shift + cluster_shift` at 25; a bogus VBR is treated as an
    /// unsupported file system.
    #[inline]
    pub fn shifts_valid(&self) -> (r: bool)
        ensures
            r == self.valid_shifts(),
    {
        9 <= self.sector_shift && self.sector_shift <= 12 && self.sector_shift as u16
            + self.cluster_shift as u16 <= 25
    }

    /// Bytes per sector — `2^sector_shift`. An unvalidated adversarial
    /// `sector_shift` yields 0.
    #[inline]
    pub fn bytes_per_sector(&self) -> (r: u32)
        ensures
            r == self.sector_bytes(),
    {
        checked_unit(self.sector_shift as u32)
    }

    /// Bytes per cluster — `2^(sector_shift + cluster_shift)`, 0 where that
    /// does not fit.
    #[inline]
    pub fn bytes_per_cluster(&self) -> (r: u32)
        ensures
            r == self.cluster_bytes(),
    {
        checked_unit(self.sector_shift as u32 + self.cluster_shift as u32)
    }

    /// Whether a directory entry's cluster/length fields are consistent
    /// with this volume's cluster heap. Applied at the decode boundary so
    /// no downstream code trusts an out-of-range `first_cluster` /
    /// `data_length` for allocation, freeing, or I/O.
    ///
    /// Valid data-cluster indices are `2..=cluster_count + 1`. An entry
    /// with no allocation (`first_cluster == 0`) must carry no data; a
    /// referenced run must fit within `cluster_count` clusters; and a
    /// contiguous (`NoFatChain`) run must lie entirely within the heap.
    pub fn entry_geometry_valid(
        &self,
        first_cluster: u32,
        data_length: u64,
        valid_data_length: u64,
        no_fat_chain: bool,
    ) -> (r: bool)
        ensures
            r == self.geometry_ok(
                first_cluster as int,
                data_length as int,
                valid_data_length as int,
                no_fat_chain,
            ),
    {
        if valid_data_length > data_length {
            return false;
        }
        if first_cluster == 0 {
            return data_length == 0;
        }
        let last_cluster: u32 = self.cluster_count.saturating_add(1);
        if first_cluster < 2 || first_cluster > last_cluster {
            return false;
        }
        let cluster_bytes: u64 = self.bytes_per_cluster() as u64;
        if cluster_bytes == 0 {
            return false;
        }
        let clusters: u64 = div_ceil_u64(data_length, cluster_bytes);
        if clusters > self.cluster_count as u64 {
            return false;
        }
        if no_fat_chain && clusters > 0 {
            let last_used: u64 = first_cluster as u64 + clusters - 1;
            if last_used > last_cluster as u64 {
                return false;
            }
        }
        true
    }
}

/// A contiguous run that passes the geometry check names only clusters of
/// the heap.
pub proof fn law_contiguous_run_in_heap(
    br: ExfatBootRecord,
    first_cluster: int,
    data_length: int,
    valid_data_length: int,
    k: int,
)
    requires
        br.cluster_count < u32::MAX,
        br.geometry_ok(first_cluster, data_length, valid_data_length, true),
        first_cluster != 0,
        0 <= k < ceil_div(data_length, br.cluster_bytes()),
    ensures
        2 <= first_cluster + k <= br.cluster_count + 1,
{
}

} // verus!
