//! Up-case table load (mount-time).

use vstd::prelude::*;

use super::layout::{read_of, ClusterRange};
use super::volume::transfer_error;
use crate::bytes::le16;
use crate::codec::le_u16;
use crate::codec::exfat::boot::{upcase_table_checksum, upcase_table_checksum_of, ExfatBootRecord};
use crate::device::{read_exact_at, Device};
use crate::error::{CorruptKind, FsError};
use crate::name::{is_separator_unit, table_clean};

verus! {

/// Largest table accepted: 64K mappings of two bytes, and room for markers.
pub const UPCASE_MAX_BYTES: u64 = 262144;

/// The mappings that a stored table spells out from byte `idx` on, where
/// `cp` is the next code unit: each 16-bit word maps the next unit, and the
/// marker `0xFFFF` with a count skips that many units that stand for
/// themselves. A table that maps a separator, or maps something to one, is
/// corrupt.
pub open spec fn mappings(bytes: Seq<u8>, idx: int, cp: int) -> Result<Seq<(u16, u16)>, FsError<()>>
    decreases bytes.len() - idx,
{
    if idx < 0 || idx + 2 > bytes.len() || cp >= 0x1_0000 {
        Ok(seq![])
    } else {
        let unit = le16(bytes, idx);
        if unit == 0xFFFF && idx + 4 <= bytes.len() {
            mappings(bytes, idx + 4, cp + le16(bytes, idx + 2))
        } else if unit == cp {
            mappings(bytes, idx + 2, cp + 1)
        } else if is_separator_unit(cp) || is_separator_unit(unit) {
            Err(FsError::Corrupt(CorruptKind::Other))
        } else {
            match mappings(bytes, idx + 2, cp + 1) {
                Err(e) => Err(e),
                Ok(rest) => Ok(seq![(cp as u16, unit as u16)] + rest),
            }
        }
    }
}

/// Loading the table that lies contiguously at `range`.
pub open spec fn table_loaded(
    img: Seq<u8>,
    boot: ExfatBootRecord,
    range: ClusterRange,
    checksum: int,
) -> Result<Seq<(u16, u16)>, FsError<()>> {
    if range.first_cluster < 2 || range.byte_length == 0 {
        Ok(seq![])
    } else if range.byte_length > UPCASE_MAX_BYTES {
        Err(FsError::Corrupt(CorruptKind::Other))
    } else {
        match read_of(
            img,
            boot.cluster_pos(range.first_cluster as int),
            range.byte_length as int,
        ) {
            Err(e) => Err(e),
            Ok(bytes) => if upcase_table_checksum_of(bytes) != checksum {
                Err(FsError::Corrupt(CorruptKind::Other))
            } else {
                mappings(bytes, 0, 0)
            },
        }
    }
}

/// Whatever a stored table spells out is sorted and leaves the separators
/// alone.
pub proof fn law_mappings_clean(bytes: Seq<u8>, idx: int, cp: int)
    requires
        0 <= idx,
        0 <= cp,
    ensures
        mappings(bytes, idx, cp) matches Ok(t) ==> table_clean(t) && forall|i: int|
            0 <= i < t.len() ==> cp <= (#[trigger] t[i]).0,
    decreases bytes.len() - idx,
{
    if idx + 2 > bytes.len() || cp >= 0x1_0000 {
    } else {
        let unit = le16(bytes, idx);
        if unit == 0xFFFF && idx + 4 <= bytes.len() {
            law_mappings_clean(bytes, idx + 4, cp + le16(bytes, idx + 2));
        } else if unit == cp {
            law_mappings_clean(bytes, idx + 2, cp + 1);
        } else if is_separator_unit(cp) || is_separator_unit(unit) {
        } else {
            law_mappings_clean(bytes, idx + 2, cp + 1);
            match mappings(bytes, idx + 2, cp + 1) {
                Ok(rest) => {
                    let t = seq![(cp as u16, unit as u16)] + rest;
                    assert forall|i: int, j: int| 0 <= i < j < t.len() implies #[trigger] t[i].0
                        < #[trigger] t[j].0 by {
                        assert(t[j] == rest[j - 1]);
                        if i > 0 {
                            assert(t[i] == rest[i - 1]);
                        }
                    }
                    assert forall|i: int| 0 <= i < t.len() implies cp <= (#[trigger] t[i]).0
                        && !is_separator_unit(t[i].0 as int) && !is_separator_unit(
                        t[i].1 as int,
                    ) by {
                        if i > 0 {
                            assert(t[i] == rest[i - 1]);
                        }
                    }
                },
                Err(_) => {},
            }
        }
    }
}

/// Decode a stored table into its non-identity mappings.
fn decode_mappings<E>(bytes: &Vec<u8>) -> (r: Result<Vec<(u16, u16)>, FsError<E>>)
    ensures
        match r {
            Ok(v) => mappings(bytes@, 0, 0) == Ok::<Seq<(u16, u16)>, FsError<()>>(v@),
            Err(FsError::Io(_)) => false,
            Err(e) => mappings(bytes@, 0, 0) == Err::<Seq<(u16, u16)>, FsError<()>>(e.kind()),
        },
{
    let ghost whole = mappings(bytes@, 0, 0);
    let mut lookup: Vec<(u16, u16)> = Vec::new();
    let mut idx: usize = 0;
    let mut codepoint: u32 = 0;
    proof {
        match whole {
            Ok(t) => {
                assert(lookup@ + t =~= t);
            },
            Err(_) => {},
        }
    }
    // Each u16 is either a literal mapping for the next codepoint or a
    // 0xFFFF marker followed by a count of identity entries to skip.
    // Codepoints only ascend, so the sparse list comes out sorted.
    while bytes.len() - idx >= 2 && codepoint < 0x1_0000
        invariant
            idx <= bytes@.len(),
            codepoint <= 0x2_0000,
            whole == mappings(bytes@, 0, 0),
            whole == (match mappings(bytes@, idx as int, codepoint as int) {
                Ok(rest) => Ok::<Seq<(u16, u16)>, FsError<()>>(lookup@ + rest),
                Err(e) => Err(e),
            }),
        decreases bytes@.len() - idx,
    {
        let unit: u16 = le_u16(bytes.as_slice(), idx);
        let left: usize = bytes.len() - idx;
        if unit == 0xFFFF && left >= 4 {
            let skip: u16 = le_u16(bytes.as_slice(), idx + 2);
            idx += 4;
            codepoint = codepoint + skip as u32;
        } else {
            let cp: u16 = codepoint as u16;
            if unit != cp {
                // A table remapping a path separator (either direction)
                // would corrupt folded lock keys and defeat the
                // rename-ancestor guard.
                if cp == 0x2F || cp == 0x5C || unit == 0x2F || unit == 0x5C {
                    return Err(FsError::Corrupt(CorruptKind::Other));
                }
                let ghost before = lookup@;
                lookup.push((cp, unit));
                proof {
                    match mappings(bytes@, idx + 2, codepoint + 1) {
                        Ok(rest) => {
                            assert(lookup@ + rest =~= before + (seq![(cp, unit)] + rest));
                        },
                        Err(_) => {},
                    }
                }
            }
            idx += 2;
            codepoint += 1;
        }
    }
    proof {
        assert(lookup@ + Seq::<(u16, u16)>::empty() =~= lookup@);
    }
    Ok(lookup)
}

/// Load the on-disk upcase table as a **sparse**, codepoint-sorted list
/// of non-identity mappings (a flat 64K-entry table would cost 128 KiB
/// of RAM per mounted volume; real tables have ~2.6K non-identity
/// entries). Handles both uncompressed (sequential u16 mappings) and
/// compressed (`0xFFFF` marker + run-length identity skip) forms.
pub fn load_upcase_table<D: Device>(
    storage: &D,
    boot: &ExfatBootRecord,
    upcase: ClusterRange,
    expected_checksum: u32,
) -> (r: Result<Vec<(u16, u16)>, FsError<D::Error>>)
    requires
        boot.valid_shifts(),
    ensures
        r matches Ok(v) ==> table_clean(v@),
        match r {
            Ok(v) => table_loaded(
                storage.contents(),
                *boot,
                upcase,
                expected_checksum as int,
            ) == Ok::<Seq<(u16, u16)>, FsError<()>>(v@),
            Err(FsError::Io(_)) => !storage.reliable(),
            Err(e) => table_loaded(
                storage.contents(),
                *boot,
                upcase,
                expected_checksum as int,
            ) == Err::<Seq<(u16, u16)>, FsError<()>>(e.kind()),
        },
{
    if upcase.first_cluster < 2 || upcase.byte_length == 0 {
        let none: Vec<(u16, u16)> = Vec::new();
        assert(none@ =~= Seq::<(u16, u16)>::empty());
        return Ok(none);
    }
    if upcase.byte_length > UPCASE_MAX_BYTES {
        return Err(FsError::Corrupt(CorruptKind::Other));
    }
    // The table is allocated contiguously: sequential clusters, not the FAT.

    let total: usize = upcase.byte_length as usize;
    let mut bytes: Vec<u8> = vec![0u8; total];
    let offset: u64 = boot.cluster_offset(upcase.first_cluster);
    match read_exact_at(storage, offset, bytes.as_mut_slice()) {
        Ok(_) => {},
        Err(e) => {
            return Err(transfer_error(e));
        },
    }
    // Verify the table's `TableChecksum` before trusting its mappings.
    if upcase_table_checksum(bytes.as_slice()) != expected_checksum {
        return Err(FsError::Corrupt(CorruptKind::Other));
    }
    proof {
        law_mappings_clean(bytes@, 0, 0);
    }
    decode_mappings(&bytes)
}

} // verus!
