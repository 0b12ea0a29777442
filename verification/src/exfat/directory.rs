//! Directory operations on an exFAT volume ([`ExfatDirectory`]).

use vstd::prelude::*;

use super::compose::{
    compose_file_entry_set_full, composed, law_composed_unique, set_bytes, SetFields,
};
use super::dir_slot::{merged_times, ExfatDirSlotWriter};
use super::direntry::{DirExtent, EntryFields, ExfatDirEntry};
use super::layout::{clusters_for, done, ends_as, Disk, ExfatLayout, Run};
use super::removal_laws::{given_back, law_data_given_back};
use super::resolve::{entry_sound, entry_usable, fields_of, finds_as};
use super::volume::ExfatVfs;
use crate::calendar::PrimitiveDateTime;
use crate::codec::exfat::name_hash_of;
use crate::device::Device;
use crate::dir::{exfat_metadata, Metadata};
use crate::entry_times::EntryTimes;
use crate::error::{file_error_of, fs_error_of, FsError};
use crate::name::NamePolicy;
use crate::path::components_of;
use crate::text::utf16_of;
use crate::vfs::{EntryPatch, NewEntry};

verus! {

/// The entry set that gives `e` the name `name`: every other field, stamps
/// included, stays as it is.
pub open spec fn renamed_set(p: NamePolicy, e: EntryFields, name: Seq<char>) -> SetFields {
    SetFields {
        units: utf16_of(name),
        name_hash: name_hash_of(p.folded(name)) as u16,
        attributes: e.attributes,
        first_cluster: e.first_cluster,
        valid_data_length: e.valid_data_length,
        data_length: e.data_length,
        no_fat_chain: e.no_fat_chain,
        times: EntryTimes { created: e.created, modified: e.modified, accessed: e.accessed },
    }
}

/// What is found once an insertion came to `run`: its error, or else what a
/// lookup gives.
pub open spec fn found_after(run: Run<()>, found: Result<EntryFields, FsError<()>>) -> Result<
    EntryFields,
    FsError<()>,
> {
    match run.out {
        Err(e) => Err(e),
        Ok(_) => found,
    }
}

impl ExfatLayout {
    /// Adding the entry `e` to the directory `ext` under the name `name`.
    pub open spec fn entry_linked(
        self,
        p: NamePolicy,
        d: Disk,
        ext: DirExtent,
        e: EntryFields,
        name: Seq<char>,
    ) -> Run<()> {
        self.set_appended(d, ext, set_bytes(renamed_set(p, e, name)))
    }

    /// Changing an entry of a directory. An empty patch does nothing.
    pub open spec fn entry_updated(self, d: Disk, e: EntryFields, patch: EntryPatch) -> Run<()> {
        match e.loc {
            None => done((), d),
            Some(loc) => if patch.is_empty() {
                done((), d)
            } else {
                self.entry_patched(
                    d,
                    loc,
                    patch,
                    merged_times(
                        (EntryTimes {
                            created: e.created,
                            modified: e.modified,
                            accessed: e.accessed,
                        }),
                        patch.times,
                    ),
                )
            },
        }
    }
}

/// View of one exFAT directory ([`DirExtent`]).
#[derive(Debug, Clone, Copy)]
pub struct ExfatDirectory {
    pub extent: DirExtent,
}

impl ExfatDirectory {
    pub fn new(extent: DirExtent) -> (r: Self)
        ensures
            r.extent == extent,
    {
        ExfatDirectory { extent }
    }

    /// Root directory of the volume.
    #[inline]
    pub fn root<D: Device>(vol: &ExfatVfs<D>) -> (r: Self)
        ensures
            r.extent == vol.layout.root(),
            r.extent.wf(),
    {
        Self::new(vol.root_extent())
    }

    /// Open the directory at `path` (path-pure; no ambient cwd).
    pub fn open_path<D: Device>(vol: &ExfatVfs<D>, path: &str) -> (r: Result<
        Self,
        FsError<D::Error>,
    >)
        requires
            vol.wf(),
        ensures
            r matches Ok(dir) ==> dir.extent.wf() && vol.layout.refreshed(
                vol.dev.contents(),
                dir.extent,
            ) == dir.extent,
            match r {
                Err(FsError::Io(_)) => !vol.dev.reliable(),
                Ok(dir) => vol.layout.descend(
                    vol.name_policy,
                    vol.dev.contents(),
                    vol.layout.root(),
                    components_of(path@),
                ) == Ok::<DirExtent, FsError<()>>(dir.extent),
                Err(e) => vol.layout.descend(
                    vol.name_policy,
                    vol.dev.contents(),
                    vol.layout.root(),
                    components_of(path@),
                ) == Err::<DirExtent, FsError<()>>(e.kind()),
            },
    {
        match vol.resolve_dir(path) {
            Ok(extent) => Ok(Self::new(extent)),
            Err(e) => Err(e),
        }
    }

    #[inline]
    pub fn extent(&self) -> (r: DirExtent)
        ensures
            r == self.extent,
    {
        self.extent
    }

    /// The entry that goes by `name`, with its metadata; `None` if there is
    /// none.
    pub fn lookup<D: Device>(&self, vol: &ExfatVfs<D>, name: &str) -> (r: Result<
        Option<(ExfatDirEntry, Metadata)>,
        FsError<D::Error>,
    >)
        requires
            vol.wf(),
            self.extent.wf(),
        ensures
            r matches Ok(Some(p)) ==> entry_usable(vol.layout.boot, p.0@) && p.1 == exfat_metadata(
                p.0@,
            ),
            exists|now: DirExtent| #[trigger]
                vol.layout.may_use(vol.dev.contents(), self.extent, now, vol.dev.reliable()) && ({
                    let out = vol.layout.child_in(
                        vol.name_policy,
                        vol.dev.contents(),
                        now,
                        name@,
                    );
                    match r {
                        Err(FsError::Io(_)) => !vol.dev.reliable(),
                        Ok(Some(p)) => out == Ok::<EntryFields, FsError<()>>(p.0@),
                        Ok(None) => out == Err::<EntryFields, FsError<()>>(FsError::NotFound),
                        Err(e) => out == Err::<EntryFields, FsError<()>>(e.kind()),
                    }
                }),
    {
        let entries = match vol.list_entries_in(&self.extent) {
            Ok(entries) => entries,
            Err(e) => {
                return Err(e);
            },
        };
        match vol.find_named(&entries, name) {
            Some(i) => {
                assert(entry_usable(vol.layout.boot, entries@[i as int]@));
                let entry = entries[i].copied();
                let meta = Metadata::from_exfat(&entry);
                Ok(Some((entry, meta)))
            },
            None => Ok(None),
        }
    }

    /// All entries with their names and metadata, in directory order.
    pub fn list_entries<D: Device>(&self, vol: &ExfatVfs<D>) -> (r: Result<
        Vec<(ExfatDirEntry, String, Metadata)>,
        FsError<D::Error>,
    >)
        requires
            vol.wf(),
            self.extent.wf(),
        ensures
            r matches Ok(v) ==> forall|i: int|
                0 <= i < v@.len() ==> (#[trigger] v@[i]).1@ == v@[i].0@.name && v@[i].2
                    == exfat_metadata(v@[i].0@) && entry_usable(vol.layout.boot, v@[i].0@),
            exists|now: DirExtent| #[trigger]
                vol.layout.may_use(vol.dev.contents(), self.extent, now, vol.dev.reliable()) && ({
                    let out = vol.layout.listing(vol.dev.contents(), now);
                    match r {
                        Err(FsError::Io(_)) => !vol.dev.reliable(),
                        Ok(v) => out == Ok::<Seq<EntryFields>, FsError<()>>(
                            Seq::new(v@.len(), |i: int| v@[i].0@),
                        ),
                        Err(e) => out == Err::<Seq<EntryFields>, FsError<()>>(e.kind()),
                    }
                }),
    {
        let entries = match vol.list_entries_in(&self.extent) {
            Ok(entries) => entries,
            Err(e) => {
                return Err(e);
            },
        };
        let mut out: Vec<(ExfatDirEntry, String, Metadata)> = Vec::new();
        let mut i: usize = 0;
        while i < entries.len()
            invariant
                i <= entries@.len(),
                out@.len() == i,
                forall|k: int|
                    0 <= k < entries@.len() ==> entry_usable(
                        vol.layout.boot,
                        (#[trigger] entries@[k])@,
                    ),
                forall|k: int| 0 <= k < i ==> (#[trigger] out@[k]).0@ == entries@[k]@,
                forall|k: int|
                    0 <= k < i ==> (#[trigger] out@[k]).1@ == out@[k].0@.name && out@[k].2
                        == exfat_metadata(out@[k].0@),
            decreases entries@.len() - i,
        {
            let meta = Metadata::from_exfat(&entries[i]);
            out.push((entries[i].copied(), entries[i].name.clone(), meta));
            i += 1;
        }
        proof {
            assert forall|k: int| 0 <= k < out@.len() implies (#[trigger] out@[k]).1@
                == out@[k].0@.name && out@[k].2 == exfat_metadata(out@[k].0@) && entry_usable(
                vol.layout.boot,
                out@[k].0@,
            ) by {
                assert(out@[k].0@ == entries@[k]@);
                assert(entry_usable(vol.layout.boot, entries@[k]@));
            }
            assert(fields_of(entries@) =~= Seq::new(out@.len(), |i: int| out@[i].0@)) by {
                assert forall|k: int| 0 <= k < out@.len() implies fields_of(entries@)[k]
                    == out@[k].0@ by {
                    assert(out@[k].0@ == entries@[k]@);
                }
            }
        }
        Ok(out)
    }

    /// Create an entry and return it as the directory now lists it.
    pub fn insert<D: Device>(
        &mut self,
        vol: &mut ExfatVfs<D>,
        entry: &NewEntry,
        now: PrimitiveDateTime,
    ) -> (r: Result<ExfatDirEntry, FsError<D::Error>>)
        requires
            old(vol).wf(),
            old(self).extent.wf(),
            entry.times.wf(),
            now.wf(),
        ensures
            *final(self) == *old(self),
            final(vol).wf(),
            final(vol).keeps(*old(vol)),
            r matches Ok(e) ==> entry_usable(old(vol).layout.boot, e@),
            exists|run: Run<()>, seen: DirExtent|
                #![trigger found_after(run, old(vol).layout.child_in(
                    old(vol).name_policy,
                    run.disk.img,
                    seen,
                    entry.name@,
                ))]
                {
                    let l = old(vol).layout;
                    let reliable = old(vol).dev.reliable();
                    let out = found_after(
                        run,
                        l.child_in(old(vol).name_policy, run.disk.img, seen, entry.name@),
                    );
                    &&& l.inserts(
                        old(vol).name_policy,
                        old(vol).disk(),
                        old(self).extent,
                        *entry,
                        now,
                        run,
                        reliable,
                    )
                    &&& l.may_use(run.disk.img, old(self).extent, seen, reliable)
                    &&& finds_as(r, out, reliable)
                    &&& !(r matches Err(FsError::Io(_))) ==> final(vol).disk() == run.disk
                },
    {
        let ghost l = vol.layout;
        let ghost p = vol.name_policy;
        let ghost d = vol.disk();
        let ghost ext = self.extent;
        let ghost reliable = vol.dev.reliable();
        let made = vol.insert_new_entry_in_extent(self.extent, entry, now);
        let ghost run = choose|x: Run<()>| #[trigger]
            l.inserts(p, d, ext, *entry, now, x, reliable) && ends_as(
                made,
                x,
                vol.disk(),
                reliable,
            );
        let ghost fresh = l.refreshed(run.disk.img, ext);
        proof {
            assert(l.may_use(run.disk.img, ext, fresh, reliable));
            let out = found_after(run, l.child_in(p, run.disk.img, fresh, entry.name@));
        }
        match made {
            Ok(_) => {},
            Err(e) => {
                return Err(e);
            },
        }
        let r = vol.child_entry(&self.extent, entry.name.as_str());
        proof {
            let seen = choose|x: DirExtent| #[trigger]
                l.may_use(run.disk.img, ext, x, reliable) && finds_as(
                    r,
                    l.child_in(p, run.disk.img, x, entry.name@),
                    reliable,
                );
            let out = found_after(run, l.child_in(p, run.disk.img, seen, entry.name@));
            assert(finds_as(r, out, reliable));
        }
        r
    }

    /// Unlink `entry` from this directory; its data stays.
    pub fn remove<D: Device>(&mut self, vol: &mut ExfatVfs<D>, entry: &ExfatDirEntry) -> (r: Result<
        (),
        FsError<D::Error>,
    >)
        requires
            old(vol).wf(),
            old(self).extent.wf(),
        ensures
            *final(self) == *old(self),
            final(vol).wf(),
            final(vol).keeps(*old(vol)),
            exists|now: DirExtent| #[trigger]
                old(vol).layout.may_use(
                    old(vol).dev.contents(),
                    old(self).extent,
                    now,
                    old(vol).dev.reliable(),
                ) && ends_as(
                    r,
                    old(vol).layout.set_unlinked(
                        old(vol).name_policy,
                        old(vol).disk(),
                        now,
                        entry@.name,
                    ),
                    final(vol).disk(),
                    old(vol).dev.reliable(),
                ),
    {
        vol.unlink_entry_set_in(&self.extent, entry.name.as_str())
    }

    /// Free the clusters of `entry`.
    pub fn free_data<D: Device>(&mut self, vol: &mut ExfatVfs<D>, entry: &ExfatDirEntry) -> (r:
        Result<(), FsError<D::Error>>)
        requires
            old(vol).wf(),
            entry@.no_fat_chain && entry@.data_length > 0 && entry@.first_cluster >= 2
                ==> entry@.first_cluster + clusters_for(
                entry@.data_length as int,
                old(vol).layout.boot.cluster_bytes(),
            ) <= u32::MAX + 1,
        ensures
            *final(self) == *old(self),
            final(vol).wf(),
            final(vol).keeps(*old(vol)),
            ends_as(
                r,
                old(vol).layout.entry_freed(old(vol).disk(), entry@),
                final(vol).disk(),
                old(vol).dev.reliable(),
            ),
            old(vol).layout.regions_apart() ==> forall|cs: Seq<u32>| #[trigger]
                old(vol).layout.holds_data_of(old(vol).dev.contents(), entry@, cs) && r is Ok
                    ==> given_back(
                    old(vol).layout,
                    old(vol).dev.contents(),
                    final(vol).dev.contents(),
                    cs,
                ),
    {
        proof {
            if vol.layout.regions_apart() {
                assert forall|cs: Seq<u32>| #[trigger]
                    vol.layout.holds_data_of(vol.dev.contents(), entry@, cs) && vol.layout.entry_freed(
                        vol.disk(),
                        entry@,
                    ).out is Ok implies given_back(
                    vol.layout,
                    vol.dev.contents(),
                    vol.layout.entry_freed(vol.disk(), entry@).disk.img,
                    cs,
                ) by {
                    law_data_given_back(vol.layout, vol.disk(), entry@, cs);
                }
            }
        }
        vol.free_entry_clusters(entry.first_cluster, entry.data_length, entry.no_fat_chain)
    }

    /// Add `entry` under a new name, without allocating anything. Every
    /// field is preserved, including the original timestamps.
    pub fn link<D: Device>(
        &mut self,
        vol: &mut ExfatVfs<D>,
        entry: &ExfatDirEntry,
        new_name: &str,
    ) -> (r: Result<(), FsError<D::Error>>)
        requires
            old(vol).wf(),
            old(self).extent.wf(),
            entry@.times_wf(),
            utf16_of(new_name@).len() <= 255,
        ensures
            *final(self) == *old(self),
            final(vol).wf(),
            final(vol).keeps(*old(vol)),
            exists|now: DirExtent| #[trigger]
                old(vol).layout.may_use(
                    old(vol).dev.contents(),
                    old(self).extent,
                    now,
                    old(vol).dev.reliable(),
                ) && ends_as(
                    r,
                    old(vol).layout.entry_linked(
                        old(vol).name_policy,
                        old(vol).disk(),
                        now,
                        entry@,
                        new_name@,
                    ),
                    final(vol).disk(),
                    old(vol).dev.reliable(),
                ),
    {
        let hash: u16 = vol.name_hash(new_name);
        let entry_set: Vec<u8> = compose_file_entry_set_full(
            new_name,
            hash,
            entry.attributes,
            entry.first_cluster,
            entry.valid_data_length,
            entry.data_length,
            entry.no_fat_chain,
            EntryTimes {
                created: entry.created,
                modified: entry.modified,
                accessed: entry.accessed,
            },
        );
        proof {
            let f = renamed_set(vol.name_policy, entry@, new_name@);
            assert(composed(f, entry_set@));
            law_composed_unique(f, entry_set@, set_bytes(f));
        }
        vol.append_entry_set_in(&self.extent, entry_set.as_slice())
    }

    /// Apply a patch to `entry`. Absent fields stay, and an empty patch does
    /// not touch the disk.
    pub fn update<D: Device>(
        &mut self,
        vol: &mut ExfatVfs<D>,
        entry: &ExfatDirEntry,
        patch: EntryPatch,
    ) -> (r: Result<(), FsError<D::Error>>)
        requires
            old(vol).wf(),
            entry_sound(entry@),
            patch.wf(),
        ensures
            *final(self) == *old(self),
            final(vol).wf(),
            final(vol).keeps(*old(vol)),
            ({
                let run = old(vol).layout.entry_updated(old(vol).disk(), entry@, patch);
                match r {
                    Ok(_) => run.out is Ok && final(vol).disk() == run.disk,
                    Err(FsError::Io(_)) => !old(vol).dev.reliable(),
                    // Open files see no structure kinds; none is invented.
                    Err(e) => {
                        &&& run.out is Err
                        &&& e.kind() == fs_error_of(file_error_of(run.out->Err_0))
                        &&& final(vol).disk() == run.disk
                    },
                }
            }),
    {
        if patch.changes_nothing() {
            return Ok(());
        }
        // Same on-disk rewrite as an open file's flush.

        let mut writer = ExfatDirSlotWriter::new(
            entry.loc,
            entry.created,
            entry.modified,
            entry.accessed,
        );
        match writer.write_patch(vol, patch) {
            Ok(_) => Ok(()),
            Err(e) => Err(FsError::from(e)),
        }
    }
}

} // verus!
