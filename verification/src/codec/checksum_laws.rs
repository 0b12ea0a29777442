//! What the checksums of the formats are: every byte that counts is taken in by
//! rotating the sum right by one bit and adding the byte.

use vstd::prelude::*;

use super::exfat::name_hash_of;
use super::exfat::boot::{boot_region_checksum_of, upcase_table_checksum_of};
use super::fat::sfn_layout::sfn_checksum_of;
use crate::exfat::direntry::set_checksum_of;
use crate::fat::sfn::{fnv1a, name_digest};

verus! {

/// A 32-bit word rotated right by one bit.
proof fn lemma_rotated32(c: u32)
    ensures
        ((c >> 1u32) | (c << 31u32)) as int == c as int / 2 + 0x8000_0000 * (c as int % 2),
{
    assert(((c >> 1u32) | (c << 31u32)) == (c / 2 + 0x8000_0000 * (c % 2)) as u32) by (bit_vector);
}

/// A 16-bit word rotated right by one bit.
proof fn lemma_rotated16(c: u16)
    ensures
        ((c >> 1u16) | (c << 15u16)) as int == c as int / 2 + 0x8000 * (c as int % 2),
{
    assert(((c >> 1u16) | (c << 15u16)) == (c / 2 + 0x8000 * (c % 2)) as u16) by (bit_vector);
}

/// An 8-bit word rotated right by one bit.
proof fn lemma_rotated8(c: u8)
    ensures
        ((c >> 1u8) | (c << 7u8)) as int == c as int / 2 + 0x80 * (c as int % 2),
{
    assert(((c >> 1u8) | (c << 7u8)) == (c / 2 + 0x80 * (c % 2)) as u8) by (bit_vector);
}

/// The boot-region checksum is a 32-bit number.
proof fn lemma_boot_checksum_range(region: Seq<u8>)
    ensures
        0 <= boot_region_checksum_of(region) <= u32::MAX,
    decreases region.len(),
{
    if region.len() > 0 {
        lemma_boot_checksum_range(region.drop_last());
    }
}

/// The up-case table checksum is a 32-bit number.
proof fn lemma_upcase_checksum_range(table: Seq<u8>)
    ensures
        0 <= upcase_table_checksum_of(table) <= u32::MAX,
    decreases table.len(),
{
    if table.len() > 0 {
        lemma_upcase_checksum_range(table.drop_last());
    }
}

/// A short name's checksum is an 8-bit number.
proof fn lemma_sfn_checksum_range(b: Seq<u8>)
    ensures
        0 <= sfn_checksum_of(b) <= u8::MAX,
    decreases b.len(),
{
    if b.len() > 0 {
        lemma_sfn_checksum_range(b.drop_last());
    }
}

/// A name hash is a 16-bit number.
proof fn lemma_name_hash_range(units: Seq<u16>)
    ensures
        0 <= name_hash_of(units) <= u16::MAX,
    decreases units.len(),
{
    if units.len() > 0 {
        lemma_name_hash_range(units.drop_last());
    }
}

/// The boot-region checksum starts at zero. A byte more rotates it right by one
/// bit as a 32-bit word and adds the byte, except at the places of the volume
/// flags and of the usage percentage, where it changes nothing.
pub proof fn law_boot_checksum_takes_in_each_byte(region: Seq<u8>, byte: u8)
    ensures
        boot_region_checksum_of(Seq::empty()) == 0,
        ({
            let sum = boot_region_checksum_of(region) as u32;
            let n = region.len();
            &&& sum == boot_region_checksum_of(region)
            &&& boot_region_checksum_of(region.push(byte)) == (if n == 106 || n == 107 || n == 112 {
                sum as int
            } else {
                (((sum >> 1u32) | (sum << 31u32)) + byte) % 0x1_0000_0000
            })
        }),
{
    lemma_boot_checksum_range(region);
    lemma_rotated32(boot_region_checksum_of(region) as u32);
    assert(region.push(byte).drop_last() =~= region);
}

/// The up-case table checksum starts at zero, and a byte more rotates it right by
/// one bit as a 32-bit word and adds the byte.
pub proof fn law_upcase_checksum_takes_in_each_byte(table: Seq<u8>, byte: u8)
    ensures
        upcase_table_checksum_of(Seq::empty()) == 0,
        ({
            let sum = upcase_table_checksum_of(table) as u32;
            &&& sum == upcase_table_checksum_of(table)
            &&& upcase_table_checksum_of(table.push(byte)) == (((sum >> 1u32) | (sum << 31u32))
                + byte) % 0x1_0000_0000
        }),
{
    lemma_upcase_checksum_range(table);
    lemma_rotated32(upcase_table_checksum_of(table) as u32);
    assert(table.push(byte).drop_last() =~= table);
}

/// The checksum of an entry set starts at zero. A byte more rotates it right by
/// one bit as a 16-bit word and adds the byte, except at the two places where the
/// checksum itself is stored, where it changes nothing.
pub proof fn law_set_checksum_takes_in_each_byte(set: Seq<u8>, byte: u8)
    ensures
        set_checksum_of(Seq::empty()) == 0,
        ({
            let sum = set_checksum_of(set) as u16;
            let n = set.len();
            &&& sum == set_checksum_of(set)
            &&& set_checksum_of(set.push(byte)) == (if n == 2 || n == 3 {
                sum as int
            } else {
                (((sum >> 1u16) | (sum << 15u16)) + byte) % 0x1_0000
            })
        }),
{
    crate::exfat::direntry::lemma_set_checksum_range(set);
    lemma_rotated16(set_checksum_of(set) as u16);
    assert(set.push(byte).drop_last() =~= set);
}

/// The hash of a name starts at zero, and a unit more takes in its low byte and
/// then its high byte, each by rotating the hash right by one bit as a 16-bit
/// word and adding the byte.
pub proof fn law_name_hash_takes_in_each_unit(units: Seq<u16>, unit: u16)
    ensures
        name_hash_of(Seq::empty()) == 0,
        ({
            let h = name_hash_of(units) as u16;
            let mid = ((((h >> 1u16) | (h << 15u16)) + unit % 0x100) % 0x1_0000) as u16;
            &&& h == name_hash_of(units)
            &&& name_hash_of(units.push(unit)) == (((mid >> 1u16) | (mid << 15u16)) + unit / 0x100)
                % 0x1_0000
        }),
{
    lemma_name_hash_range(units);
    let h = name_hash_of(units) as u16;
    lemma_rotated16(h);
    let mid = ((((h >> 1u16) | (h << 15u16)) + unit % 0x100) % 0x1_0000) as u16;
    lemma_rotated16(mid);
    assert(units.push(unit).drop_last() =~= units);
}

/// The checksum that ties long-name slots to a short name starts at zero, and a
/// byte more rotates it right by one bit as an 8-bit word and adds the byte.
pub proof fn law_sfn_checksum_takes_in_each_byte(b: Seq<u8>, byte: u8)
    ensures
        sfn_checksum_of(Seq::empty()) == 0,
        ({
            let sum = sfn_checksum_of(b) as u8;
            &&& sum == sfn_checksum_of(b)
            &&& sfn_checksum_of(b.push(byte)) == (((sum >> 1u8) | (sum << 7u8)) + byte) % 0x100
        }),
{
    lemma_sfn_checksum_range(b);
    lemma_rotated8(sfn_checksum_of(b) as u8);
    assert(b.push(byte).drop_last() =~= b);
}

/// The digest in a generated short name is the 32-bit FNV-1a hash of the name's
/// bytes, its upper half folded onto its lower half. The hash starts at the
/// offset basis, and a byte more is xored in before the hash is multiplied by the
/// FNV prime.
pub proof fn law_digest_is_folded_fnv1a(b: Seq<u8>, byte: u8)
    ensures
        fnv1a(Seq::empty()) == 0x811C_9DC5,
        fnv1a(b.push(byte)) == ((fnv1a(b) ^ (byte as u32)) * 0x0100_0193) % 0x1_0000_0000,
        name_digest(b) == ((fnv1a(b) >> 16u32) ^ (fnv1a(b) & 0xFFFF)) as int,
{
    assert(b.push(byte).drop_last() =~= b);
    let h = fnv1a(b);
    assert((h ^ (h >> 16u32)) % 0x1_0000 == (h >> 16u32) ^ (h & 0xFFFF)) by (bit_vector);
}

} // verus!
