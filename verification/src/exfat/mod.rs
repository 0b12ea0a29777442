//! exFAT backend.
//!
//! Cluster usage is tracked by an allocation bitmap (one bit per cluster),
//! with FAT chains consulted only for fragmented (`NoFatChain=0`) files;
//! directory entries are fixed 32-byte primary/secondary sets covered by a
//! `SetChecksum`; and filenames are stored inline as UCS-2 across File Name
//! entries.

pub mod alloc_laws;
pub mod bitmap;
pub mod chains;
pub mod cluster_map;
pub mod compose;
pub mod create;
pub mod create_laws;
pub mod dir_edit;
pub mod dir_io;
pub mod dir_laws;
pub mod dir_slot;
pub mod directory;
pub mod direntry;
pub mod effects;
pub mod entry_laws;
pub mod fat_io;
pub mod file;
pub mod file_laws;
pub mod format_laws;
pub mod frame_laws;
pub mod geometry_laws;
pub mod growth;
pub mod isolation_laws;
pub mod layout;
pub mod listing_laws;
pub mod mount;
pub mod mount_laws;
pub mod move_laws;
pub mod open;
pub mod path_laws;
pub mod readdir;
pub mod regions;
pub mod remount_laws;
pub mod removal_laws;
pub mod resolve;
pub mod root_laws;
pub mod set_laws;
pub mod space_laws;
pub mod stream_laws;
pub mod success_laws;
pub mod upcase;
pub mod upcase_laws;
pub mod update_laws;
pub mod vfs;
pub mod volume;
