//! A mounted volume of either backend.

use vstd::prelude::*;

use crate::device::Device;
use crate::exfat::volume::ExfatVfs;
use crate::fat::fs::FatVfs;

verus! {

/// A mounted volume of either backend.
pub enum Volume<D: Device> {
    Fat(FatVfs<D>),
    Exfat(ExfatVfs<D>),
}

impl<D: Device> Volume<D> {
    /// Transfers within the storage never fail.
    pub open spec fn reliable(self) -> bool {
        match self {
            Volume::Fat(v) => v.dev.reliable(),
            Volume::Exfat(v) => v.dev.reliable(),
        }
    }
}

} // verus!
