//! Changing entries by path.

use vstd::prelude::*;

use super::directory::ExfatDirectory;
use super::layout::{done, ends_as, failed, Disk, ExfatLayout, Run};
use super::volume::ExfatVfs;
use crate::attrs::Attributes;
use crate::device::Device;
use crate::entry_times::EntryTimes;
use crate::error::{file_error_of, fs_error_of, FsError};
use crate::name::NamePolicy;
use crate::vfs::EntryPatch;

verus! {

impl ExfatLayout {
    /// Applying a patch to the entry that a path names.
    pub open spec fn path_patched(
        self,
        p: NamePolicy,
        d: Disk,
        path: Seq<char>,
        patch: EntryPatch,
    ) -> Run<()> {
        match self.entry_at(p, d.img, path) {
            Err(e) => failed(e, d),
            Ok((_, e)) => {
                let u = self.entry_updated(d, e, patch);
                match u.out {
                    Ok(_) => done((), u.disk),
                    // Structure kinds do not pass an entry's rewrite.
                    Err(x) => failed(fs_error_of(file_error_of(x)), u.disk),
                }
            },
        }
    }
}

impl<D: Device> ExfatVfs<D> {
    /// Apply a patch to the entry at `path`, and make it durable. The root
    /// has no entry.
    pub fn patch_entry(&mut self, path: &str, patch: EntryPatch) -> (r: Result<
        (),
        FsError<D::Error>,
    >)
        requires
            old(self).wf(),
            patch.wf(),
        ensures
            final(self).wf(),
            final(self).keeps(*old(self)),
            r is Ok ==> final(self).dev.durable() == final(self).dev.contents(),
            ends_as(
                r,
                old(self).layout.path_patched(
                    old(self).name_policy,
                    old(self).disk(),
                    path@,
                    patch,
                ),
                final(self).disk(),
                old(self).dev.reliable(),
            ),
    {
        let (extent, entry) = match self.resolve_entry(path) {
            Ok(p) => p,
            Err(e) => {
                return Err(e);
            },
        };
        let mut dir = ExfatDirectory::new(extent);
        match dir.update(self, &entry, patch) {
            Ok(_) => self.sync(),
            Err(e) => Err(e),
        }
    }

    /// Set the stamps of the entry at `path`; absent ones stay.
    pub fn set_times(&mut self, path: &str, times: EntryTimes) -> (r: Result<(), FsError<D::Error>>)
        requires
            old(self).wf(),
            times.wf(),
        ensures
            final(self).wf(),
            final(self).keeps(*old(self)),
            r is Ok ==> final(self).dev.durable() == final(self).dev.contents(),
            ends_as(
                r,
                old(self).layout.path_patched(
                    old(self).name_policy,
                    old(self).disk(),
                    path@,
                    times_patch(times),
                ),
                final(self).disk(),
                old(self).dev.reliable(),
            ),
    {
        let patch = EntryPatch {
            size: None,
            valid_size: None,
            first_cluster: None,
            no_fat_chain: None,
            times: Some(times),
            attrs: None,
        };
        self.patch_entry(path, patch)
    }

    /// Set the user-settable attributes of the entry at `path`.
    pub fn set_attributes(&mut self, path: &str, attrs: Attributes) -> (r: Result<
        (),
        FsError<D::Error>,
    >)
        requires
            old(self).wf(),
        ensures
            final(self).wf(),
            final(self).keeps(*old(self)),
            r is Ok ==> final(self).dev.durable() == final(self).dev.contents(),
            ends_as(
                r,
                old(self).layout.path_patched(
                    old(self).name_policy,
                    old(self).disk(),
                    path@,
                    attributes_patch(attrs),
                ),
                final(self).disk(),
                old(self).dev.reliable(),
            ),
    {
        let patch = EntryPatch {
            size: None,
            valid_size: None,
            first_cluster: None,
            no_fat_chain: None,
            times: None,
            attrs: Some(attrs),
        };
        self.patch_entry(path, patch)
    }
}

/// The patch that sets stamps.
pub open spec fn times_patch(times: EntryTimes) -> EntryPatch {
    EntryPatch {
        size: None,
        valid_size: None,
        first_cluster: None,
        no_fat_chain: None,
        times: Some(times),
        attrs: None,
    }
}

/// The patch that sets attributes.
pub open spec fn attributes_patch(attrs: Attributes) -> EntryPatch {
    EntryPatch {
        size: None,
        valid_size: None,
        first_cluster: None,
        no_fat_chain: None,
        times: None,
        attrs: Some(attrs),
    }
}

} // verus!
