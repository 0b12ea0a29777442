//! [`ExfatReadDir`]: directory iteration over the concatenated cluster
//! stream, so entry sets that straddle cluster boundaries decode like any
//! other.

use vstd::prelude::*;

use super::direntry::{
    decoded_at, lemma_decoded_set_shape, next_entry, set_len, DirEntryDecoder, EntryFields,
    ExfatDirEntry, SetLoc,
};
use super::volume::ExfatVfs;
use crate::codec::exfat::boot::ExfatBootRecord;
use crate::device::Device;
use crate::error::FsError;
use crate::path::{is_dot, is_dotdot};

verus! {

/// How a directory is walked; part of every [`SetLoc`] in it.
#[derive(Debug, Clone, Copy)]
pub struct DirWalk {
    pub first_cluster: u32,
    pub no_fat_chain: bool,
    pub max_clusters: u32,
}

/// The entry's clusters and lengths fit the volume.
pub open spec fn fits_volume(boot: ExfatBootRecord, e: EntryFields) -> bool {
    boot.geometry_ok(
        e.first_cluster as int,
        e.data_length as int,
        e.valid_data_length as int,
        e.no_fat_chain,
    )
}

/// `e` with the place it was found at.
pub open spec fn placed(e: EntryFields, w: DirWalk, logical: int) -> EntryFields {
    EntryFields {
        loc: Some(
            SetLoc {
                dir_first_cluster: w.first_cluster,
                dir_no_fat_chain: w.no_fat_chain,
                dir_max_clusters: w.max_clusters,
                logical: logical as u64,
                len: e.entry_set_len,
            },
        ),
        ..e
    }
}

/// The first entry at or after `pos` that fits the volume, with its place,
/// and the position just past it.
pub open spec fn next_listed(
    boot: ExfatBootRecord,
    w: DirWalk,
    buf: Seq<u8>,
    pos: int,
) -> Option<(EntryFields, int)>
    decreases buf.len() - pos,
{
    match next_entry(buf, pos) {
        Some((e, p)) => if fits_volume(boot, e) {
            Some((placed(e, w, p - e.entry_set_len), p))
        } else if pos < p <= buf.len() {
            next_listed(boot, w, buf, p)
        } else {
            None
        },
        None => None,
    }
}

/// All entries of a directory stream from `pos` on, in order.
pub open spec fn listed_from(
    boot: ExfatBootRecord,
    w: DirWalk,
    buf: Seq<u8>,
    pos: int,
) -> Seq<EntryFields>
    decreases buf.len() - pos,
{
    match next_listed(boot, w, buf, pos) {
        Some((e, p)) => if pos < p <= buf.len() {
            seq![e] + listed_from(boot, w, buf, p)
        } else {
            seq![e]
        },
        None => seq![],
    }
}

/// The entries of a directory stream.
pub open spec fn listed(boot: ExfatBootRecord, w: DirWalk, buf: Seq<u8>) -> Seq<EntryFields> {
    listed_from(boot, w, buf, 0)
}

/// The name is `.` or `..`.
pub open spec fn is_dots(name: Seq<char>) -> bool {
    name == seq!['.'] || name == seq!['.', '.']
}

/// The list without entries named `.` or `..`.
pub open spec fn visible(entries: Seq<EntryFields>) -> Seq<EntryFields>
    decreases entries.len(),
{
    if entries.len() == 0 {
        seq![]
    } else if is_dots(entries.first().name) {
        visible(entries.drop_first())
    } else {
        seq![entries.first()] + visible(entries.drop_first())
    }
}

/// Decoding moves forward and stays within the stream.
pub proof fn lemma_next_entry_bounds(buf: Seq<u8>, pos: int)
    requires
        0 <= pos,
    ensures
        next_entry(buf, pos) matches Some((e, p)) ==> {
            &&& pos < p <= buf.len()
            &&& 64 <= e.entry_set_len <= 8192
            &&& pos <= p - e.entry_set_len
            &&& e.loc is None
            &&& decoded_at(buf, p - e.entry_set_len) == Some(e)
        },
    decreases buf.len() - pos,
{
    if pos + 32 > buf.len() || buf[pos] == 0 {
    } else {
        match decoded_at(buf, pos) {
            Some(e) => {
                let n = set_len(buf.subrange(pos, pos + 32));
                let set = buf.subrange(pos, pos + n);
                assert(set.len() == n);
                lemma_decoded_set_shape(set);
            },
            None => {
                lemma_next_entry_bounds(buf, pos + 32);
            },
        }
    }
}

/// The same for the entries that fit the volume.
pub proof fn lemma_next_listed_bounds(boot: ExfatBootRecord, w: DirWalk, buf: Seq<u8>, pos: int)
    requires
        0 <= pos,
    ensures
        next_listed(boot, w, buf, pos) matches Some((e, p)) ==> {
            &&& pos < p <= buf.len()
            &&& 64 <= e.entry_set_len <= 8192
            &&& pos <= p - e.entry_set_len
            &&& fits_volume(boot, e)
            &&& e.loc is Some
        },
    decreases buf.len() - pos,
{
    lemma_next_entry_bounds(buf, pos);
    match next_entry(buf, pos) {
        Some((e, p)) => {
            if !fits_volume(boot, e) {
                lemma_next_listed_bounds(boot, w, buf, p);
            }
        },
        None => {},
    }
}

/// Iteration over the entries of a directory. The whole extent is read up
/// front (directories are small); decoding then runs over one flat buffer,
/// immune to cluster-boundary straddling.
pub struct ExfatReadDir {
    pub decoder: DirEntryDecoder,
    pub boot: ExfatBootRecord,
    /// Walk parameters recorded into each yielded entry's [`SetLoc`].
    pub walk: DirWalk,
}

impl ExfatReadDir {
    pub open spec fn wf(self) -> bool {
        self.decoder.wf()
    }

    /// The entries still to come.
    pub open spec fn rest(self) -> Seq<EntryFields> {
        listed_from(self.boot, self.walk, self.decoder.buf@, self.decoder.pos as int)
    }

    pub fn new<D: Device>(vol: &ExfatVfs<D>, walk: DirWalk) -> (r: Result<Self, FsError<D::Error>>)
        requires
            vol.wf(),
        ensures
            match r {
                Ok(it) => {
                    &&& it.wf()
                    &&& it.boot == vol.layout.boot
                    &&& it.walk == walk
                    &&& it.decoder.pos == 0
                    &&& vol.layout.dir_read(
                        vol.dev.contents(),
                        walk.first_cluster,
                        walk.no_fat_chain,
                        walk.max_clusters as int,
                    ) is Ok
                    &&& it.decoder.buf@ == vol.layout.dir_read(
                        vol.dev.contents(),
                        walk.first_cluster,
                        walk.no_fat_chain,
                        walk.max_clusters as int,
                    )->Ok_0.1
                },
                Err(FsError::Io(_)) => !vol.dev.reliable(),
                Err(e) => {
                    &&& vol.layout.dir_read(
                        vol.dev.contents(),
                        walk.first_cluster,
                        walk.no_fat_chain,
                        walk.max_clusters as int,
                    ) == Err::<(Seq<u32>, Seq<u8>), FsError<()>>(e.kind())
                },
            },
    {
        match vol.read_dir_stream(walk.first_cluster, walk.no_fat_chain, walk.max_clusters) {
            Ok((_, buf)) => Ok(
                ExfatReadDir { decoder: DirEntryDecoder::new(buf), boot: vol.layout.boot, walk },
            ),
            Err(e) => Err(e),
        }
    }

    /// The next entry of the directory. Entries whose cluster/length fields
    /// don't fit the volume geometry are skipped like a bad set, so no
    /// consumer trusts a crafted `first_cluster` / `data_length`.
    pub fn next(&mut self) -> (r: Option<ExfatDirEntry>)
        requires
            old(self).wf(),
        ensures
            final(self).wf(),
            final(self).boot == old(self).boot,
            final(self).walk == old(self).walk,
            final(self).decoder.buf@ == old(self).decoder.buf@,
            match next_listed(
                old(self).boot,
                old(self).walk,
                old(self).decoder.buf@,
                old(self).decoder.pos as int,
            ) {
                Some((e, p)) => {
                    &&& r is Some
                    &&& r->0@ == e
                    &&& final(self).decoder.pos == p
                    &&& e.times_wf()
                    &&& e.loc matches Some(loc) ==> loc.wf()
                },
                None => r is None && final(self).rest() == Seq::<EntryFields>::empty(),
            },
            r matches Some(e) ==> fits_volume(old(self).boot, e@),
    {
        loop
            invariant
                self.wf(),
                self.boot == old(self).boot,
                self.walk == old(self).walk,
                self.decoder.buf@ == old(self).decoder.buf@,
                next_listed(self.boot, self.walk, self.decoder.buf@, self.decoder.pos as int)
                    == next_listed(
                    old(self).boot,
                    old(self).walk,
                    old(self).decoder.buf@,
                    old(self).decoder.pos as int,
                ),
            decreases self.decoder.buf@.len() - self.decoder.pos,
        {
            proof {
                lemma_next_entry_bounds(self.decoder.buf@, self.decoder.pos as int);
            }
            let mut entry: ExfatDirEntry = match self.decoder.next() {
                Some(entry) => entry,
                None => {
                    return None;
                },
            };
            // The decoder stops just past the set it returned; back up
            // by the set length to get this entry's logical offset.
            let len: usize = self.decoder.buf.len();
            let set_start: usize = self.decoder.pos - entry.entry_set_len as usize;
            entry.loc = Some(
                SetLoc {
                    dir_first_cluster: self.walk.first_cluster,
                    dir_no_fat_chain: self.walk.no_fat_chain,
                    dir_max_clusters: self.walk.max_clusters,
                    logical: set_start as u64,
                    len: entry.entry_set_len,
                },
            );
            if self.boot.entry_geometry_valid(
                entry.first_cluster,
                entry.data_length,
                entry.valid_data_length,
                entry.no_fat_chain,
            ) {
                return Some(entry);
            }
        }
    }

    /// The next entry that is not named `.` or `..`.
    pub fn next_visible(&mut self) -> (r: Option<ExfatDirEntry>)
        requires
            old(self).wf(),
        ensures
            final(self).wf(),
            final(self).boot == old(self).boot,
            final(self).walk == old(self).walk,
            match r {
                Some(e) => {
                    &&& visible(old(self).rest()) == seq![e@] + visible(final(self).rest())
                    &&& !is_dots(e@.name)
                    &&& fits_volume(old(self).boot, e@)
                },
                None => {
                    &&& visible(old(self).rest()) == Seq::<EntryFields>::empty()
                    &&& final(self).rest() == Seq::<EntryFields>::empty()
                },
            },
    {
        loop
            invariant
                self.wf(),
                self.boot == old(self).boot,
                self.walk == old(self).walk,
                visible(self.rest()) == visible(old(self).rest()),
            decreases self.decoder.buf@.len() - self.decoder.pos,
        {
            let ghost all = self.rest();
            proof {
                lemma_next_listed_bounds(
                    self.boot,
                    self.walk,
                    self.decoder.buf@,
                    self.decoder.pos as int,
                );
            }
            match self.next() {
                None => {
                    assert(all =~= Seq::<EntryFields>::empty());
                    return None;
                },
                Some(entry) => {
                    assert(all =~= seq![entry@] + self.rest());
                    assert(all.drop_first() =~= self.rest());
                    if !is_dot(entry.name.as_str()) && !is_dotdot(entry.name.as_str()) {
                        return Some(entry);
                    }
                },
            }
        }
    }
}

} // verus!
