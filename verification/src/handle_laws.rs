//! What changes in an open file when it is read, written, resized or sought in,
//! and what is reported of entries.

use vstd::prelude::*;

use crate::attrs::{unpacked_attributes, Attributes};
use crate::calendar::PrimitiveDateTime;
use crate::dir::{exfat_listed, exfat_metadata, fat_listed, root_metadata};
use crate::error::{file_error_of, fs_error_of, CorruptKind, FileError, FsError};
use crate::exfat::cluster_map::ExfatClusterMap;
use crate::exfat::direntry::{EntryFields, SetLoc};
use crate::exfat::file::ExfatFileRun;
use crate::exfat::layout::{Disk, ExfatLayout};
use crate::exfat::open::{opened_stream, ExfatStream};
use crate::exfat::readdir::visible;
use crate::fat::directory::{fat_metadata, without_dots};
use crate::fat::entry::FatFields;
use crate::fat::file::FatFileRun;
use crate::fat::layout::{FatDisk, FatLayout};
use crate::fat::open::{fat_opened_stream, FatStream};
use crate::file::{opened_state, sought, FileState, SeekFrom};
use crate::path::{components_of, is_component};
use crate::path_laws::law_listed_path_leads_to_entry;

verus! {

/// Seeking from the start leads to the offset itself, from the end to the length
/// plus the offset, and from the cursor to the cursor plus the offset, past the
/// end of the file too; but never before its first byte or past 64 bits. Seeking
/// by nothing from the end finds the length, and from the cursor the cursor.
pub proof fn law_seek_targets(s: FileState, n: u64, k: i64)
    ensures
        sought(s, SeekFrom::Start(n)) == Some(n as int),
        sought(s, SeekFrom::End(k)) == (if s.len + k < 0 || s.len + k > 0xFFFF_FFFF_FFFF_FFFF {
            None
        } else {
            Some(s.len + k)
        }),
        sought(s, SeekFrom::Current(k)) == (if s.pos + k < 0 || s.pos + k > 0xFFFF_FFFF_FFFF_FFFF {
            None
        } else {
            Some(s.pos + k)
        }),
        sought(s, SeekFrom::End(0)) == Some(s.len as int),
        sought(s, SeekFrom::Current(0)) == Some(s.pos as int),
{
}

/// A read gets as many bytes as were asked for, as far as the file goes; at its
/// end and past it a read gets none.
pub proof fn law_read_gets(s: FileState, n: int)
    requires
        0 <= n,
    ensures
        s.pos >= s.len ==> s.readable(n) == 0,
        s.pos < s.len && s.pos + n <= s.len ==> s.readable(n) == n,
        s.pos < s.len && s.pos + n > s.len ==> s.pos + s.readable(n) == s.len,
{
}

/// `t` is `s` after a change of what the file holds: its entry is behind, it is
/// stamped as modified `now` if it keeps its stamps up to date, and nothing else
/// that an open file knows of its entry is different.
pub open spec fn marked_changed(s: FileState, t: FileState, now: PrimitiveDateTime) -> bool {
    &&& t.dirty
    &&& t.times.modified == (if s.update_times {
        Some(now)
    } else {
        s.times.modified
    })
    &&& t.times.created == s.times.created
    &&& t.times.accessed == s.times.accessed
    &&& t.attributes == s.attributes
    &&& t.writable == s.writable
    &&& t.update_times == s.update_times
    &&& t.fat_size_cap == s.fat_size_cap
}

/// The longest a file can be.
pub open spec fn longest(s: FileState) -> int {
    if s.fat_size_cap {
        0xFFFF_FFFF
    } else {
        0xFFFF_FFFF_FFFF_FFFF
    }
}

/// The run ended as `out` and left everything as it was.
pub open spec fn left_as_was<T>(
    r: ExfatFileRun<T>,
    out: Result<T, FileError<()>>,
    d: Disk,
    s: FileState,
    m: ExfatClusterMap,
) -> bool {
    r.out == out && r.disk == d && r.state == s && r.map == m
}

/// Writing to an exFAT file. A file that was opened for reading refuses it, and
/// so does one that would become longer than a file can be; both stay as they
/// were, and so does one to which nothing is written. A write that succeeds
/// leaves the file marked as changed, and initialized up to its end.
pub proof fn law_exfat_write_marks(
    l: ExfatLayout,
    d: Disk,
    s: FileState,
    m: ExfatClusterMap,
    bytes: Seq<u8>,
    now: PrimitiveDateTime,
)
    requires
        bytes.len() <= usize::MAX,
        s.pos + bytes.len() <= u64::MAX,
    ensures
        ({
            let r = l.file_written(d, s, m, bytes, now);
            let end = s.pos + bytes.len();
            &&& !s.writable ==> left_as_was(r, Err(FileError::ReadOnly), d, s, m)
            &&& s.writable && bytes.len() == 0 ==> left_as_was(r, Ok(0), d, s, m)
            &&& s.writable && bytes.len() > 0 && end > longest(s) ==> left_as_was(
                r,
                Err(FileError::FileTooLarge),
                d,
                s,
                m,
            )
            &&& s.writable && bytes.len() > 0 && r.out is Ok ==> {
                &&& marked_changed(s, r.state, now)
                &&& r.state.pos == end
                &&& r.state.valid_len == (if end > s.valid_len {
                    end
                } else {
                    s.valid_len as int
                })
                &&& r.state.len == (if end > s.len {
                    end
                } else {
                    s.len as int
                })
            }
        }),
{
}

/// Resizing an exFAT file. A file that was opened for reading refuses it, and so
/// does one that would become longer than a file can be; both stay as they were,
/// and so does one that has the size already. A change of size leaves the file
/// marked as changed; a longer file has no more initialized bytes than before,
/// and a shorter one has none past its end.
pub proof fn law_exfat_resize_marks(
    l: ExfatLayout,
    d: Disk,
    s: FileState,
    m: ExfatClusterMap,
    size: u64,
    now: PrimitiveDateTime,
)
    ensures
        ({
            let r = l.file_resized(d, s, m, size, now);
            &&& !s.writable ==> left_as_was(r, Err(FileError::ReadOnly), d, s, m)
            &&& s.writable && size > longest(s) ==> left_as_was(
                r,
                Err(FileError::FileTooLarge),
                d,
                s,
                m,
            )
            &&& s.writable && size <= longest(s) && size == s.len ==> left_as_was(r, Ok(()), d, s, m)
            &&& s.writable && size != s.len && r.out is Ok ==> {
                &&& marked_changed(s, r.state, now)
                &&& r.state.len == size
                &&& r.state.pos == s.pos
                &&& r.state.valid_len == (if s.valid_len < size {
                    s.valid_len
                } else if size < s.len {
                    size
                } else {
                    s.valid_len
                })
            }
        }),
{
}

/// The run ended as `out` and left everything as it was.
pub open spec fn fat_left_as_was<T>(
    r: FatFileRun<T>,
    out: Result<T, FileError<()>>,
    d: FatDisk,
    s: FileState,
    allocated: u64,
) -> bool {
    r.out == out && r.disk == d && r.state == s && r.allocated == allocated
}

/// Writing to a FAT file. A file that was opened for reading refuses it, and so
/// does one that would reach 4 GiB; both stay as they were, and so does one to
/// which nothing is written. A write that succeeds leaves the file marked as
/// changed, and if all of it was data before, all of it is data then.
pub proof fn law_fat_write_marks(
    l: FatLayout,
    d: FatDisk,
    s: FileState,
    allocated: u64,
    bytes: Seq<u8>,
    now: PrimitiveDateTime,
)
    requires
        bytes.len() <= usize::MAX,
        s.pos + bytes.len() <= u64::MAX,
    ensures
        ({
            let r = l.file_written(d, s, allocated, bytes, now);
            let end = s.pos + bytes.len();
            &&& !s.writable ==> fat_left_as_was(r, Err(FileError::ReadOnly), d, s, allocated)
            &&& s.writable && bytes.len() == 0 ==> fat_left_as_was(r, Ok(0), d, s, allocated)
            &&& s.writable && bytes.len() > 0 && end > 0xFFFF_FFFF ==> fat_left_as_was(
                r,
                Err(FileError::FileTooLarge),
                d,
                s,
                allocated,
            )
            &&& s.writable && bytes.len() > 0 && r.out is Ok ==> {
                &&& marked_changed(s, r.state, now)
                &&& r.state.pos == end
                &&& s.valid_len == s.len ==> r.state.valid_len == r.state.len
            }
        }),
{
}

/// Resizing a FAT file. A file that was opened for reading refuses it, and so
/// does one that would reach 4 GiB; both stay as they were, and so does one that
/// has the size already. A change of size leaves the file marked as changed, and
/// if all of it was data before, all of it is data then: nothing of a FAT file
/// may be left for a reader to take as zeros.
pub proof fn law_fat_resize_marks(
    l: FatLayout,
    d: FatDisk,
    s: FileState,
    allocated: u64,
    size: u64,
    now: PrimitiveDateTime,
)
    ensures
        ({
            let r = l.file_resized(d, s, allocated, size, now);
            &&& !s.writable ==> fat_left_as_was(r, Err(FileError::ReadOnly), d, s, allocated)
            &&& s.writable && size > 0xFFFF_FFFF ==> fat_left_as_was(
                r,
                Err(FileError::FileTooLarge),
                d,
                s,
                allocated,
            )
            &&& s.writable && size <= 0xFFFF_FFFF && size == s.len ==> fat_left_as_was(
                r,
                Ok(()),
                d,
                s,
                allocated,
            )
            &&& s.writable && size != s.len && r.out is Ok ==> {
                &&& marked_changed(s, r.state, now)
                &&& r.state.len == size
                &&& r.state.pos == s.pos
                &&& s.valid_len == s.len ==> r.state.valid_len == r.state.len
            }
        }),
{
}

/// What is reported of an entry is what it says: a file's length, no length for a
/// directory, the kind, the attributes and each stamp under its own name.
pub proof fn law_metadata_is_of_entry(e: EntryFields, f: FatFields)
    ensures
        ({
            let m = exfat_metadata(e);
            let dir = e.attributes & 0x0010u16 == 0x0010u16;
            &&& m.is_dir == dir
            &&& m.len == (if dir {
                0
            } else {
                e.data_length
            })
            &&& m.attributes == unpacked_attributes(e.attributes)
            &&& m.created == e.created
            &&& m.modified == e.modified
            &&& m.accessed == e.accessed
        }),
        ({
            let m = fat_metadata(f);
            &&& m.is_dir == f.is_dir
            &&& m.len == (if f.is_dir {
                0
            } else {
                f.file_size as int
            })
            &&& m.attributes == unpacked_attributes(f.attributes as u16)
            &&& m.created == f.created
            &&& m.modified == Some(f.modified)
            &&& m.accessed == f.accessed
        }),
        ({
            let m = root_metadata();
            &&& m.is_dir
            &&& m.len == 0
            &&& m.attributes == (Attributes {
                read_only: false,
                hidden: false,
                system: false,
                archive: false,
            })
            &&& m.created is None
            &&& m.modified is None
            &&& m.accessed is None
        }),
{
}

/// The attribute bits are the lowest for read-only, then hidden, system, and,
/// behind the bits of a volume label and of a directory, archive.
pub proof fn law_attribute_bits(mask: u16)
    ensures
        ({
            let a = unpacked_attributes(mask);
            &&& a.read_only == (mask % 2 == 1)
            &&& a.hidden == ((mask / 2) % 2 == 1)
            &&& a.system == ((mask / 4) % 2 == 1)
            &&& a.archive == ((mask / 32) % 2 == 1)
        }),
{
    assert((mask & 0x0001 == 0x0001) == (mask % 2 == 1) && (mask & 0x0002 == 0x0002) == ((mask / 2)
        % 2 == 1) && (mask & 0x0004 == 0x0004) == ((mask / 4) % 2 == 1) && (mask & 0x0020 == 0x0020)
        == ((mask / 32) % 2 == 1)) by (bit_vector);
}

/// What a caller is shown of a listing is the listing without `.` and `..`, in
/// its order: each other entry is shown, be it alone or among others.
pub proof fn law_only_dots_are_hidden(a: Seq<EntryFields>, b: Seq<EntryFields>, e: EntryFields)
    ensures
        visible(a + b) == visible(a) + visible(b),
        visible(Seq::empty()) == Seq::<EntryFields>::empty(),
        visible(seq![e]) == (if e.name == seq!['.'] || e.name == seq!['.', '.'] {
            seq![]
        } else {
            seq![e]
        }),
    decreases a.len(),
{
    assert(seq![e].drop_first() =~= seq![]);
    assert(visible(seq![e].drop_first()) =~= seq![]);
    assert(seq![e] + Seq::<EntryFields>::empty() =~= seq![e]);
    if a.len() == 0 {
        assert(a + b =~= b);
        assert(visible(a) + visible(b) =~= visible(b));
    } else {
        law_only_dots_are_hidden(a.drop_first(), b, e);
        assert((a + b).drop_first() =~= a.drop_first() + b);
        assert(visible(a + b) =~= visible(a) + visible(b));
    }
}

/// What a caller is shown of a FAT listing is the listing without `.` and `..`,
/// in its order: each other entry is shown, be it alone or among others.
pub proof fn law_only_fat_dots_are_hidden(a: Seq<FatFields>, b: Seq<FatFields>, f: FatFields)
    ensures
        without_dots(a + b) == without_dots(a) + without_dots(b),
        without_dots(Seq::empty()) == Seq::<FatFields>::empty(),
        without_dots(seq![f]) == (if f.name == seq!['.'] || f.name == seq!['.', '.'] {
            seq![]
        } else {
            seq![f]
        }),
    decreases b.len(),
{
    assert(seq![f].drop_last() =~= seq![]);
    assert(without_dots(seq![f].drop_last()) =~= seq![]);
    assert(Seq::<FatFields>::empty().push(f) =~= seq![f]);
    if b.len() == 0 {
        assert(a + b =~= a);
        assert(without_dots(a) + without_dots(b) =~= without_dots(a));
    } else {
        law_only_fat_dots_are_hidden(a, b.drop_last(), f);
        assert((a + b).drop_last() =~= a + b.drop_last());
        assert(without_dots(a + b) =~= without_dots(a) + without_dots(b));
    }
}

/// The errors of a volume and of an open file that mean the same: a storage error
/// keeps its details, a full volume or root is a full storage, a file that would
/// be too large and one that may not be written stay what they are, and what is
/// malformed is corrupt.
pub proof fn law_errors_mean_the_same<I>(x: I, kind: CorruptKind)
    ensures
        file_error_of(FsError::Io(x)) == FileError::Io(x),
        file_error_of(FsError::<I>::StorageFull) == FileError::<I>::StorageFull,
        file_error_of(FsError::<I>::RootDirectoryFull) == FileError::<I>::StorageFull,
        file_error_of(FsError::<I>::FileTooLarge) == FileError::<I>::FileTooLarge,
        file_error_of(FsError::<I>::ReadOnlyFile) == FileError::<I>::ReadOnly,
        file_error_of(FsError::<I>::Corrupt(kind)) == FileError::<I>::Corrupt,
        fs_error_of(FileError::Io(x)) == FsError::Io(x),
        fs_error_of(FileError::<I>::StorageFull) == FsError::<I>::StorageFull,
        fs_error_of(FileError::<I>::FileTooLarge) == FsError::<I>::FileTooLarge,
        fs_error_of(FileError::<I>::ReadOnly) == FsError::<I>::ReadOnlyFile,
        fs_error_of(FileError::<I>::InvalidSeek) == FsError::<I>::InvalidInput,
        fs_error_of(FileError::<I>::Corrupt) is Corrupt,
{
}

/// A directory listing shows each entry by its own name, with the path that leads
/// to it and its own metadata.
pub proof fn law_listed_as_entry(base: Seq<char>, e: EntryFields, f: FatFields)
    requires
        is_component(e.name),
        is_component(f.name),
    ensures
        ({
            let (x, y) = (exfat_listed(base, e), fat_listed(base, f));
            &&& x.name == e.name
            &&& components_of(x.path) == components_of(base).push(e.name)
            &&& x.metadata == exfat_metadata(e)
            &&& y.name == f.name
            &&& components_of(y.path) == components_of(base).push(f.name)
            &&& y.metadata == fat_metadata(f)
        }),
{
    law_listed_path_leads_to_entry(base, e.name);
    law_listed_path_leads_to_entry(base, f.name);
}

/// A file that was just opened shows what its entry says, and has nothing to write
/// back. On exFAT what lies behind the valid length is not yet written; on FAT
/// there is no such part, and the length is bounded by its 32-bit field.
pub proof fn law_opened_file_shows_entry(
    lx: ExfatLayout,
    sx: ExfatStream,
    e: EntryFields,
    loc: Option<SetLoc>,
    lf: FatLayout,
    sf: FatStream,
    f: FatFields,
    key: Seq<u16>,
    writable: bool,
    owns_lock: bool,
    update_times: bool,
)
    ensures
        opened_stream(lx, sx, e, loc, key, writable, owns_lock, update_times) ==> {
            let t = opened_state(sx.init);
            &&& t.first_cluster == e.first_cluster
            &&& t.len == e.data_length && t.valid_len == e.valid_data_length
            &&& t.pos == 0 && !t.dirty && t.writable == writable && t.update_times == update_times
            &&& t.times.created == e.created && t.times.modified == e.modified && t.times.accessed
                == e.accessed
            &&& t.attributes == exfat_metadata(e).attributes
            &&& !t.fat_size_cap
            &&& sx.init.lock_key@ == key && sx.init.owns_lock == owns_lock
            &&& sx.map.no_fat_chain == e.no_fat_chain && sx.map.first == e.first_cluster
            &&& sx.writer.loc == loc
        },
        fat_opened_stream(lf, sf, f, key, writable, owns_lock, update_times) ==> {
            let t = opened_state(sf.init);
            &&& t.first_cluster == f.data_cluster
            &&& t.len == f.file_size && t.valid_len == f.file_size
            &&& t.pos == 0 && !t.dirty && t.writable == writable && t.update_times == update_times
            &&& t.times.created == f.created && t.times.modified == Some(f.modified)
                && t.times.accessed == f.accessed
            &&& t.attributes == fat_metadata(f).attributes
            &&& t.fat_size_cap
            &&& sf.init.lock_key@ == key && sf.init.owns_lock == owns_lock
            &&& sf.writer.chain == f.chain
        },
{
}

} // verus!
