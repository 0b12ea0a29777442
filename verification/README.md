# unifat

FAT16, FAT32 and exFAT volumes in verified Rust.

`src/` is a library that Verus verifies as a whole. It mounts a volume from
anything that implements `device::Device`, and reads and changes its
directories and files. What an operation does is stated as a function on the
disk image; the executable code is proved to do exactly that. Where the storage
fails, the failure is handed on, and what is on the disk then is left open.

- `codec/` — the on-disk records: how each is laid out, parsed and written.
- `exfat/`, `fat/` — the two backends: allocation, directories, open files.
- `file`, `dir`, `volume` — what both backends have in common for a caller.
- `name`, `path`, `handles`, `attrs`, `calendar`, `text` — the rules they share.
- `*_laws.rs` — what holds across operations: that an inserted entry is found,
  that what was written is read back, that files do not disturb each other,
  that a volume that was worked on mounts again.

Dates and times are checked by the `time` crate; the few calls into it are in
`calendar.rs`.

`tests/` runs the library on volumes built in memory. `app/` connects it to
`embedded-io` streams: it works on the volume in memory and writes back what
changed.
