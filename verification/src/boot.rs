//! Boot-sector sniffing shared by the mount dispatch and the FAT backend.

use vstd::prelude::*;

verus! {

/// exFAT OEM identifier at bytes 3..=10 of the Volume Boot Record. The
/// exFAT BPB overlaps FAT's in problematic ways, so this ASCII magic is
/// the reliable up-front discriminator.
pub const EXFAT_OEM_IDENTIFIER: [u8; 8] = [0x45, 0x58, 0x46, 0x41, 0x54, 0x20, 0x20, 0x20];

/// The head of a volume boot record carries the ASCII letters `EXFAT   `.
pub open spec fn exfat_magic(buf: Seq<u8>) -> bool {
    buf.len() >= 11 && buf.subrange(3, 11) == seq![
        0x45u8,
        0x58u8,
        0x46u8,
        0x41u8,
        0x54u8,
        0x20u8,
        0x20u8,
        0x20u8,
    ]
}

/// Whether `buf` (the first 11+ bytes of the VBR) carries the exFAT OEM magic.
#[inline]
pub fn has_exfat_magic(buf: &[u8]) -> (r: bool)
    ensures
        r == exfat_magic(buf@),
{
    if buf.len() < 11 {
        return false;
    }
    let mut i: usize = 0;
    while i < 8
        invariant
            i <= 8,
            buf@.len() >= 11,
            forall|k: int| 0 <= k < i ==> buf@[3 + k] == EXFAT_OEM_IDENTIFIER@[k],
        decreases 8 - i,
    {
        if buf[3 + i] != EXFAT_OEM_IDENTIFIER[i] {
            proof {
                assert(buf@.subrange(3, 11)[i as int] == buf@[3 + i]);
            }
            return false;
        }
        i += 1;
    }
    assert(buf@.subrange(3, 11) =~= EXFAT_OEM_IDENTIFIER@);
    true
}

} // verus!
