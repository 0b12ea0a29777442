//! FAT16/FAT32 backend.

pub mod alloc_laws;
pub mod cluster_map;
pub mod create_laws;
pub mod dir_laws;
pub mod dir_slots;
pub mod directory;
pub mod effects;
pub mod entry;
pub mod entry_io;
pub mod entry_laws;
pub mod file;
pub mod file_laws;
pub mod format_laws;
pub mod frame_laws;
pub mod fs;
pub mod geometry_laws;
pub mod hint_laws;
pub mod insert_laws;
pub mod isolation_laws;
pub mod layout;
pub mod mount_laws;
pub mod move_laws;
pub mod name_laws;
pub mod open;
pub mod path_laws;
pub mod readdir;
pub mod regions;
pub mod refusal_laws;
pub mod rename_laws;
pub mod sector_io;
pub mod sfn;
pub mod sfn_laws;
pub mod slot_iter;
pub mod slot_laws;
pub mod stream_laws;
pub mod update_laws;
pub mod space_laws;
pub mod success_laws;
pub mod vfs;
