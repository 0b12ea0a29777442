//! FAT16, FAT32 and exFAT file systems over any block of addressable bytes.
//!
//! On-disk records, allocation tables, directories and mount-time validation
//! are executable functions with contracts over mathematical models of the
//! disk image.

pub mod attrs;
pub mod boot;
pub mod bytes;
pub mod calendar;
pub mod codec;
pub mod device;
pub mod dir;
pub mod entry_times;
pub mod error;
pub mod error_laws;
pub mod exfat;
pub mod fat;
pub mod file;
pub mod fuzz;
pub mod handle_laws;
pub mod handles;
pub mod name;
pub mod num;
pub mod path;
pub mod path_laws;
pub mod text;
pub mod vfs;
pub mod volume;
