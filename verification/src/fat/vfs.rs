//! Changing entries by path.

use vstd::prelude::*;

use super::directory::FatDirectory;
use super::fs::FatVfs;
use super::layout::{fat_ends_as, fat_failed, FatDisk, FatLayout, FatRun};
use crate::attrs::Attributes;
use crate::device::Device;
use crate::entry_times::EntryTimes;
use crate::error::FsError;
use crate::exfat::vfs::{attributes_patch, times_patch};
use crate::vfs::EntryPatch;

verus! {

impl FatLayout {
    /// Applying a patch to the entry that a path names.
    pub open spec fn path_patched(self, d: FatDisk, path: Seq<char>, patch: EntryPatch) -> FatRun<()> {
        match self.entry_at(d.img, path) {
            Err(e) => fat_failed(e, d),
            Ok(None) => fat_failed(FsError::InvalidInput, d),
            Ok(Some(f)) => self.entry_updated(d, f, patch),
        }
    }
}

impl<D: Device> FatVfs<D> {
    /// Apply a patch to the entry at `path`, and make it durable. The root
    /// has no entry.
    pub fn patch_entry(&mut self, path: &str, patch: EntryPatch) -> (r: Result<
        (),
        FsError<D::Error>,
    >)
        requires
            old(self).wf(),
            patch.wf(),
        ensures
            final(self).wf(),
            final(self).keeps(*old(self)),
            r is Ok ==> final(self).dev.durable() == final(self).dev.contents(),
            fat_ends_as(
                r,
                old(self).layout.path_patched(old(self).disk(), path@, patch),
                final(self).disk(),
                old(self).dev.reliable(),
            ),
    {
        let entry = match self.find_entry(path) {
            Ok(Some(p)) => p,
            Ok(None) => {
                return Err(FsError::InvalidInput);
            },
            Err(e) => {
                return Err(e);
            },
        };
        let mut dir = FatDirectory::root(self);
        match dir.update(self, &entry, patch) {
            Ok(_) => self.metadata_barrier(),
            Err(e) => Err(e),
        }
    }

    /// Set the stamps of the entry at `path`; absent ones stay.
    pub fn set_times(&mut self, path: &str, times: EntryTimes) -> (r: Result<(), FsError<D::Error>>)
        requires
            old(self).wf(),
            times.wf(),
        ensures
            final(self).wf(),
            final(self).keeps(*old(self)),
            r is Ok ==> final(self).dev.durable() == final(self).dev.contents(),
            fat_ends_as(
                r,
                old(self).layout.path_patched(old(self).disk(), path@, times_patch(times)),
                final(self).disk(),
                old(self).dev.reliable(),
            ),
    {
        let patch = EntryPatch {
            size: None,
            valid_size: None,
            first_cluster: None,
            no_fat_chain: None,
            times: Some(times),
            attrs: None,
        };
        self.patch_entry(path, patch)
    }

    /// Set the user-settable attributes of the entry at `path`.
    pub fn set_attributes(&mut self, path: &str, attrs: Attributes) -> (r: Result<
        (),
        FsError<D::Error>,
    >)
        requires
            old(self).wf(),
        ensures
            final(self).wf(),
            final(self).keeps(*old(self)),
            r is Ok ==> final(self).dev.durable() == final(self).dev.contents(),
            fat_ends_as(
                r,
                old(self).layout.path_patched(old(self).disk(), path@, attributes_patch(attrs)),
                final(self).disk(),
                old(self).dev.reliable(),
            ),
    {
        let patch = EntryPatch {
            size: None,
            valid_size: None,
            first_cluster: None,
            no_fat_chain: None,
            times: None,
            attrs: Some(attrs),
        };
        self.patch_entry(path, patch)
    }
}

} // verus!
