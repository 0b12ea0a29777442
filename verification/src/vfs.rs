//! What both backends are told about new and changed entries.

use vstd::prelude::*;

use crate::attrs::Attributes;
use crate::entry_times::EntryTimes;

verus! {

/// A directory entry to be created.
pub struct NewEntry {
    pub name: String,
    pub is_dir: bool,
    pub attrs: Attributes,
    pub times: EntryTimes,
    /// Cluster that already holds the data; below 2 there is none yet.
    pub first_cluster: u32,
    pub size: u64,
    /// Allocated bytes, where they differ from `size`.
    pub allocated_size: Option<u64>,
    /// Whether the clusters are contiguous, where the caller knows.
    pub no_fat_chain: Option<bool>,
}

/// Changes to an existing entry; absent fields stay as they are.
#[derive(Clone, Copy)]
pub struct EntryPatch {
    pub size: Option<u64>,
    pub valid_size: Option<u64>,
    pub first_cluster: Option<u32>,
    pub no_fat_chain: Option<bool>,
    pub times: Option<EntryTimes>,
    pub attrs: Option<Attributes>,
}

impl Default for EntryPatch {
    fn default() -> (r: Self)
        ensures
            r.is_empty(),
    {
        EntryPatch {
            size: None,
            valid_size: None,
            first_cluster: None,
            no_fat_chain: None,
            times: None,
            attrs: None,
        }
    }
}

impl EntryPatch {
    /// The patch changes nothing.
    pub open spec fn is_empty(self) -> bool {
        &&& self.size is None
        &&& self.valid_size is None
        &&& self.first_cluster is None
        &&& self.no_fat_chain is None
        &&& self.times is None
        &&& self.attrs is None
    }

    pub open spec fn wf(self) -> bool {
        self.times matches Some(t) ==> t.wf()
    }

    /// Whether the patch changes nothing.
    pub fn changes_nothing(&self) -> (r: bool)
        ensures
            r == self.is_empty(),
    {
        self.size.is_none() && self.valid_size.is_none() && self.first_cluster.is_none()
            && self.no_fat_chain.is_none() && self.times.is_none() && self.attrs.is_none()
    }
}

/// What an open file starts out with.
pub struct StreamInit {
    pub first_cluster: u32,
    pub len: u64,
    /// Length of the initialized prefix; what lies beyond reads as zeros.
    pub valid_len: u64,
    /// Handle-table key under which the file is open.
    pub lock_key: Vec<u16>,
    pub times: EntryTimes,
    pub attributes: Attributes,
    pub writable: bool,
    /// The handle releases its lock when it is closed.
    pub owns_lock: bool,
    /// Writing stamps the file as modified.
    pub update_times: bool,
    /// The file cannot grow past the 32-bit size field.
    pub fat_size_cap: bool,
}

/// Where a stream ends up after it was extended.
#[derive(Debug, Clone, Copy, PartialEq, Eq, Structural)]
pub struct ExtendResult {
    pub first_cluster: u32,
    pub tail: u32,
}

/// Where a stream starts after its tail was freed.
#[derive(Debug, Clone, Copy, PartialEq, Eq, Structural)]
pub struct FreeTailResult {
    pub first_cluster: u32,
}

} // verus!
