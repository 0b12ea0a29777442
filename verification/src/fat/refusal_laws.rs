//! Which new entries are refused.

use vstd::prelude::*;

use super::dir_slots::FatDir;
use super::layout::{FatDisk, FatLayout};
use super::rename_laws::law_lookup_finds_first;
use super::slot_iter::fat_listing;
use crate::error::FsError;
use crate::name::NamePolicy;
use crate::vfs::NewEntry;

verus! {

/// A name that is taken, in whatever case its letters are, is refused, and nothing
/// changes.
pub proof fn law_taken_name_is_refused(l: FatLayout, d: FatDisk, dir: FatDir, entry: NewEntry, i: int)
    requires
        fat_listing(l, d.img, dir).1 is None,
        0 <= i < fat_listing(l, d.img, dir).0.len(),
        NamePolicy::Ascii.same_name(fat_listing(l, d.img, dir).0[i].name, entry.name@),
    ensures
        l.inserted(d, dir, entry).out is Err,
        l.inserted(d, dir, entry).out->Err_0 == FsError::<()>::AlreadyExists,
        l.inserted(d, dir, entry).disk == d,
{
    law_lookup_finds_first(l, d.img, dir, entry.name@);
}

} // verus!
