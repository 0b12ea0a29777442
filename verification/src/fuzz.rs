//! Round-trip harnesses over raw bytes for the pure codec layer.
//!
//! Each function takes raw bytes, decodes, re-encodes and hands the
//! re-encoded image back; the contracts say that the codec has then reached a
//! fixed point.

use vstd::prelude::*;

use crate::codec::FixedCodec;
use crate::codec::exfat::boot::ExfatBootRecord;
use crate::codec::exfat::raw_entry::{
    ExfatClusteredMetaEntry, ExfatFileEntry, ExfatFileNameEntry, ExfatStreamExtension,
};
use crate::codec::fat::bpb::FatBpb;
use crate::codec::fat::dir_entry::RawDirEntry;
use crate::codec::fat::lfn::LfnEntry;

verus! {

/// `once` is the image of what `data` decodes to, it decodes to the same
/// value again, and whatever it decodes to is written as `once` once more.
pub open spec fn settled<T: FixedCodec>(data: Seq<u8>, once: Seq<u8>) -> bool {
    &&& once.len() == T::record_len()
    &&& T::accepts(once)
    &&& exists|v: T|
        #![trigger v.encoded_as(once)]
        v.decoded_from(data.subrange(0, T::record_len() as int)) && v.encoded_as(once)
            && v.decoded_from(once)
    &&& forall|w: T, b: Seq<u8>|
        #![trigger w.decoded_from(once), w.encoded_as(b)]
        w.decoded_from(once) && w.encoded_as(b) && b.len() == T::record_len() ==> b == once
}

/// `data` starts with a record that decodes.
pub open spec fn decodes<T: FixedCodec>(data: Seq<u8>) -> bool {
    data.len() >= T::record_len() && T::accepts(data.subrange(0, T::record_len() as int))
}

/// Decode → re-encode a fixed-size record. `None` if `data` does not decode;
/// else the re-encoded image, from which a second decode and encode give the
/// same bytes again.
fn roundtrip<T: FixedCodec, const SIZE: usize>(data: &[u8]) -> (r: Option<[u8; SIZE]>)
    requires
        SIZE == T::record_len(),
    ensures
        r is Some <==> decodes::<T>(data@),
        r matches Some(once) ==> settled::<T>(data@, once@),
{
    if data.len() < SIZE {
        return None;
    }
    let record = &data[0..SIZE];
    match T::parse(record) {
        None => None,
        Some(first) => {
            let mut once: [u8; SIZE] = [0u8;SIZE];
            first.write_into(&mut once);
            proof {
                T::law_fixed_point(first, record@, once@);
                assert forall|w: T, b: Seq<u8>|
                    #![trigger w.decoded_from(once@), w.encoded_as(b)]
                    w.decoded_from(once@) && w.encoded_as(b) && b.len() == T::record_len() implies b
                    == once@ by {
                    T::law_decode_unique(w, first, once@);
                    T::law_encode_unique(first, b, once@);
                    assert(b.subrange(0, SIZE as int) =~= b);
                    assert(once@.subrange(0, SIZE as int) =~= once@);
                }
            }
            Some(once)
        },
    }
}

/// Round-trip the FAT BIOS Parameter Block.
pub fn fat_bpb(data: &[u8]) -> (r: Option<[u8; 36]>)
    ensures
        r is Some <==> decodes::<FatBpb>(data@),
        r matches Some(once) ==> settled::<FatBpb>(data@, once@),
{
    roundtrip::<FatBpb, 36>(data)
}

/// Round-trip a FAT 8.3 directory entry.
pub fn fat_dir_entry(data: &[u8]) -> (r: Option<[u8; 32]>)
    ensures
        r is Some <==> decodes::<RawDirEntry>(data@),
        r matches Some(once) ==> settled::<RawDirEntry>(data@, once@),
{
    roundtrip::<RawDirEntry, 32>(data)
}

/// Round-trip a FAT long-filename entry.
pub fn fat_lfn(data: &[u8]) -> (r: Option<[u8; 32]>)
    ensures
        r is Some <==> decodes::<LfnEntry>(data@),
        r matches Some(once) ==> settled::<LfnEntry>(data@, once@),
{
    roundtrip::<LfnEntry, 32>(data)
}

/// Round-trip the exFAT volume boot record head.
pub fn exfat_boot(data: &[u8]) -> (r: Option<[u8; 120]>)
    ensures
        r is Some <==> decodes::<ExfatBootRecord>(data@),
        r matches Some(once) ==> settled::<ExfatBootRecord>(data@, once@),
{
    roundtrip::<ExfatBootRecord, 120>(data)
}

/// What each exFAT entry codec makes of one 32-byte slot.
pub struct ExfatEntryImages {
    pub file: Option<[u8; 32]>,
    pub stream: Option<[u8; 32]>,
    pub name: Option<[u8; 32]>,
    pub meta: Option<ExfatClusteredMetaEntry>,
}

/// Round-trip every exFAT 32-byte entry codec through the fixed-point
/// check. The clustered-meta entry has no writer, so it is parse-only.
pub fn exfat_entries(data: &[u8]) -> (r: ExfatEntryImages)
    ensures
        r.file is Some <==> decodes::<ExfatFileEntry>(data@),
        r.file matches Some(once) ==> settled::<ExfatFileEntry>(data@, once@),
        r.stream is Some <==> decodes::<ExfatStreamExtension>(data@),
        r.stream matches Some(once) ==> settled::<ExfatStreamExtension>(data@, once@),
        r.name is Some <==> decodes::<ExfatFileNameEntry>(data@),
        r.name matches Some(once) ==> settled::<ExfatFileNameEntry>(data@, once@),
        r.meta is Some <==> data@.len() >= 32,
        r.meta matches Some(m) ==> m.layout(data@.subrange(0, 32)),
{
    let meta = if data.len() >= 32 {
        ExfatClusteredMetaEntry::parse(&data[0..32])
    } else {
        None
    };
    ExfatEntryImages {
        file: roundtrip::<ExfatFileEntry, 32>(data),
        stream: roundtrip::<ExfatStreamExtension, 32>(data),
        name: roundtrip::<ExfatFileNameEntry, 32>(data),
        meta,
    }
}

} // verus!
