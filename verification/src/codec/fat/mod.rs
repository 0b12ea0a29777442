//! Pure FAT on-disk layouts (bytes ↔ structs). No volume state, no paths.
//!
//! - [`bpb`]: boot sector, BPB, EBR, FSInfo
//! - [`dir_entry`] / [`sfn_layout`] / [`lfn`] / [`entry_time`]: directory records
//! - [`types`] / [`sector`]: index aliases and sector-size bounds

use vstd::prelude::*;

pub mod bpb;
pub mod dir_entry;
pub mod entry_time;
pub mod fat_entry;
pub mod lfn;
pub mod sector;
pub mod sfn_layout;
pub mod types;

verus! {

/// Size in bytes of every FAT directory slot (SFN and LFN alike).
pub const DIRENTRY_SIZE: usize = 32;

} // verus!
