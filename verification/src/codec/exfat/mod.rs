//! Pure exFAT on-disk layouts (bytes ↔ structs). No volume state, no paths.

use vstd::prelude::*;

pub mod boot;
pub mod consts;
pub mod raw_entry;

verus! {

/// `v` rotated right by one bit, then `byte` added, both modulo 2¹⁶.
pub open spec fn roll16(v: int, byte: int) -> int {
    (v / 2 + 0x8000 * (v % 2) + byte) % 0x1_0000
}

/// The rotate-and-add hash of a UTF-16 sequence, low byte of each unit first.
pub open spec fn name_hash_of(units: Seq<u16>) -> int
    decreases units.len(),
{
    if units.len() == 0 {
        0
    } else {
        let h = name_hash_of(units.drop_last());
        let u = units.last() as int;
        roll16(roll16(h, u % 0x100), u / 0x100)
    }
}

/// One step of a 16-bit rotate-right-and-add checksum.
pub fn roll_u16(v: u16, byte: u8) -> (r: u16)
    ensures
        r == roll16(v as int, byte as int),
{
    (((v / 2) as u32 + 0x8000 * ((v % 2) as u32) + byte as u32) % 0x1_0000) as u16
}

/// exFAT `NameHash`: rotate-right-by-one + add over each byte of the
/// **up-cased** UTF-16LE file name. Callers must up-case the units through
/// the volume's up-case table before hashing.
pub fn name_hash(upcased_units: &[u16]) -> (hash: u16)
    ensures
        hash == name_hash_of(upcased_units@),
{
    let mut hash: u16 = 0;
    let mut i: usize = 0;
    while i < upcased_units.len()
        invariant
            i <= upcased_units@.len(),
            hash == name_hash_of(upcased_units@.subrange(0, i as int)),
        decreases upcased_units@.len() - i,
    {
        let unit: u16 = upcased_units[i];
        proof {
            assert(upcased_units@.subrange(0, i + 1).drop_last() =~= upcased_units@.subrange(
                0,
                i as int,
            ));
        }
        hash = roll_u16(hash, (unit % 0x100) as u8);
        hash = roll_u16(hash, (unit / 0x100) as u8);
        i += 1;
    }
    assert(upcased_units@.subrange(0, i as int) =~= upcased_units@);
    hash
}

} // verus!
