//! Volume and file I/O errors.

use vstd::prelude::*;

verus! {

/// Classification of on-disk corruption.
#[non_exhaustive]
#[derive(Debug, Clone, Copy, PartialEq, Eq, Structural)]
pub enum CorruptKind {
    /// Boot sector / BPB / VBR invalid.
    BootSector,
    /// FAT32 FSInfo structure invalid.
    FsInfo,
    /// FAT table copies disagree or are unreadable.
    FatTables,
    /// Cluster chain is malformed or cyclic.
    ClusterChain,
    /// Directory entry chain or set is malformed.
    DirEntry,
    /// On-disk structure failed codec (de)serialization.
    Codec,
    /// Other structural problem (e.g. medium too small, unexpected EOF).
    Other,
}

/// Filesystem operation error (volume / path / metadata operations).
/// Byte-stream I/O on an open file uses the narrower [`FileError`] instead.
#[non_exhaustive]
#[derive(Debug)]
pub enum FsError<I> {
    /// Underlying storage I/O failed.
    Io(I),
    /// Path or name was not found.
    NotFound,
    /// Path already exists.
    AlreadyExists,
    /// Expected a directory.
    NotADirectory,
    /// Found a directory when a file was required.
    IsADirectory,
    /// Directory still has children.
    DirectoryNotEmpty,
    /// File is open with an incompatible mode (writable is exclusive).
    FileLocked,
    /// Volume or directory has no free space / slots.
    StorageFull,
    /// FAT16 fixed root has no free directory slots.
    RootDirectoryFull,
    /// Path or argument rejected (including malformed paths).
    InvalidInput,
    /// The file reached the format's maximum size (4 GiB - 1 on FAT).
    FileTooLarge,
    /// Target is marked read-only (or equivalent).
    ReadOnlyFile,
    /// Operation not permitted (e.g. rename root).
    PermissionDenied,
    /// On-disk structures are corrupt or inconsistent.
    Corrupt(CorruptKind),
    /// Format or feature is not supported (e.g. FAT12, non-MBR).
    Unsupported,
}

/// A [`Result`] whose error is [`FsError`] over storage error `E`.
pub type FsResult<T, E> = Result<T, FsError<E>>;

/// Error surfaced by file I/O. It exposes only the cases a byte-stream
/// operation can hit (a read past EOF simply returns `Ok(0)`).
#[non_exhaustive]
#[derive(Debug)]
pub enum FileError<I> {
    /// The underlying storage returned an error.
    Io(I),
    /// The volume ran out of free space while growing the file.
    StorageFull,
    /// The file reached the format's maximum size (4 GiB - 1 on FAT).
    FileTooLarge,
    /// A write was attempted on a handle opened for reading only.
    ReadOnly,
    /// A seek would place the cursor before byte 0.
    InvalidSeek,
    /// The on-disk structures backing this file are malformed.
    Corrupt,
}

impl CorruptKind {
    /// The message of a corruption error of this kind.
    pub open spec fn text(self) -> Seq<char> {
        match self {
            CorruptKind::BootSector => "corrupt volume (BootSector)"@,
            CorruptKind::FsInfo => "corrupt volume (FsInfo)"@,
            CorruptKind::FatTables => "corrupt volume (FatTables)"@,
            CorruptKind::ClusterChain => "corrupt volume (ClusterChain)"@,
            CorruptKind::DirEntry => "corrupt volume (DirEntry)"@,
            CorruptKind::Codec => "corrupt volume (Codec)"@,
            CorruptKind::Other => "corrupt volume (Other)"@,
        }
    }

    /// The message of a corruption error of this kind.
    pub fn message(self) -> (r: &'static str)
        ensures
            r@ == self.text(),
    {
        match self {
            CorruptKind::BootSector => "corrupt volume (BootSector)",
            CorruptKind::FsInfo => "corrupt volume (FsInfo)",
            CorruptKind::FatTables => "corrupt volume (FatTables)",
            CorruptKind::ClusterChain => "corrupt volume (ClusterChain)",
            CorruptKind::DirEntry => "corrupt volume (DirEntry)",
            CorruptKind::Codec => "corrupt volume (Codec)",
            CorruptKind::Other => "corrupt volume (Other)",
        }
    }
}

impl<I> FsError<I> {
    /// The same error with the storage error's details left out.
    pub open spec fn kind(self) -> FsError<()> {
        match self {
            FsError::Io(_) => FsError::Io(()),
            FsError::NotFound => FsError::NotFound,
            FsError::AlreadyExists => FsError::AlreadyExists,
            FsError::NotADirectory => FsError::NotADirectory,
            FsError::IsADirectory => FsError::IsADirectory,
            FsError::DirectoryNotEmpty => FsError::DirectoryNotEmpty,
            FsError::FileLocked => FsError::FileLocked,
            FsError::StorageFull => FsError::StorageFull,
            FsError::RootDirectoryFull => FsError::RootDirectoryFull,
            FsError::InvalidInput => FsError::InvalidInput,
            FsError::FileTooLarge => FsError::FileTooLarge,
            FsError::ReadOnlyFile => FsError::ReadOnlyFile,
            FsError::PermissionDenied => FsError::PermissionDenied,
            FsError::Corrupt(k) => FsError::Corrupt(k),
            FsError::Unsupported => FsError::Unsupported,
        }
    }

    /// The message of this error; for a storage error the part that comes
    /// before the storage's own message.
    pub open spec fn text(self) -> Seq<char> {
        match self {
            FsError::Io(_) => "I/O error: "@,
            FsError::NotFound => "not found"@,
            FsError::AlreadyExists => "already exists"@,
            FsError::NotADirectory => "not a directory"@,
            FsError::IsADirectory => "is a directory"@,
            FsError::DirectoryNotEmpty => "directory not empty"@,
            FsError::FileLocked => "file locked"@,
            FsError::StorageFull => "storage full"@,
            FsError::RootDirectoryFull => "root directory full"@,
            FsError::InvalidInput => "invalid input"@,
            FsError::FileTooLarge => "file too large for the filesystem"@,
            FsError::ReadOnlyFile => "read-only file"@,
            FsError::PermissionDenied => "permission denied"@,
            FsError::Corrupt(k) => k.text(),
            FsError::Unsupported => "unsupported filesystem"@,
        }
    }

    /// The message of this error; for a storage error the part that comes
    /// before the storage's own message.
    pub fn message(&self) -> (r: &'static str)
        ensures
            r@ == self.text(),
    {
        match self {
            FsError::Io(_) => "I/O error: ",
            FsError::NotFound => "not found",
            FsError::AlreadyExists => "already exists",
            FsError::NotADirectory => "not a directory",
            FsError::IsADirectory => "is a directory",
            FsError::DirectoryNotEmpty => "directory not empty",
            FsError::FileLocked => "file locked",
            FsError::StorageFull => "storage full",
            FsError::RootDirectoryFull => "root directory full",
            FsError::InvalidInput => "invalid input",
            FsError::FileTooLarge => "file too large for the filesystem",
            FsError::ReadOnlyFile => "read-only file",
            FsError::PermissionDenied => "permission denied",
            FsError::Corrupt(k) => k.message(),
            FsError::Unsupported => "unsupported filesystem",
        }
    }
}

impl<I> FileError<I> {
    /// The same error with the storage error's details left out.
    pub open spec fn kind(self) -> FileError<()> {
        match self {
            FileError::Io(_) => FileError::Io(()),
            FileError::StorageFull => FileError::StorageFull,
            FileError::FileTooLarge => FileError::FileTooLarge,
            FileError::ReadOnly => FileError::ReadOnly,
            FileError::InvalidSeek => FileError::InvalidSeek,
            FileError::Corrupt => FileError::Corrupt,
        }
    }

    /// The message of this error; for a storage error the part that comes
    /// before the storage's own message.
    pub open spec fn text(self) -> Seq<char> {
        match self {
            FileError::Io(_) => "underlying storage error: "@,
            FileError::StorageFull => "the volume ran out of free space"@,
            FileError::FileTooLarge => "the file reached the format's maximum size"@,
            FileError::ReadOnly => "write attempted on a read-only handle"@,
            FileError::InvalidSeek => "seek before the start of the file"@,
            FileError::Corrupt => "the on-disk structures backing this file are malformed"@,
        }
    }

    /// The message of this error; for a storage error the part that comes
    /// before the storage's own message.
    pub fn message(&self) -> (r: &'static str)
        ensures
            r@ == self.text(),
    {
        match self {
            FileError::Io(_) => "underlying storage error: ",
            FileError::StorageFull => "the volume ran out of free space",
            FileError::FileTooLarge => "the file reached the format's maximum size",
            FileError::ReadOnly => "write attempted on a read-only handle",
            FileError::InvalidSeek => "seek before the start of the file",
            FileError::Corrupt => "the on-disk structures backing this file are malformed",
        }
    }
}

/// The file error that a volume error becomes while a file is open.
pub open spec fn file_error_of<I>(e: FsError<I>) -> FileError<I> {
    match e {
        FsError::Io(x) => FileError::Io(x),
        FsError::StorageFull => FileError::StorageFull,
        FsError::RootDirectoryFull => FileError::StorageFull,
        FsError::FileTooLarge => FileError::FileTooLarge,
        FsError::ReadOnlyFile => FileError::ReadOnly,
        _ => FileError::Corrupt,
    }
}

/// The volume error that a file error becomes.
pub open spec fn fs_error_of<I>(e: FileError<I>) -> FsError<I> {
    match e {
        FileError::Io(x) => FsError::Io(x),
        FileError::StorageFull => FsError::StorageFull,
        FileError::FileTooLarge => FsError::FileTooLarge,
        FileError::ReadOnly => FsError::ReadOnlyFile,
        FileError::InvalidSeek => FsError::InvalidInput,
        FileError::Corrupt => FsError::Corrupt(CorruptKind::Other),
    }
}

impl<I> From<FsError<I>> for FileError<I> {
    fn from(value: FsError<I>) -> (r: Self) {
        match value {
            FsError::Io(e) => FileError::Io(e),
            FsError::StorageFull => FileError::StorageFull,
            FsError::RootDirectoryFull => FileError::StorageFull,
            FsError::FileTooLarge => FileError::FileTooLarge,
            FsError::ReadOnlyFile => FileError::ReadOnly,
            _ => FileError::Corrupt,
        }
    }
}

impl<I> vstd::std_specs::convert::FromSpecImpl<FsError<I>> for FileError<I> {
    open spec fn obeys_from_spec() -> bool {
        true
    }

    open spec fn from_spec(value: FsError<I>) -> Self {
        file_error_of(value)
    }
}

impl<I> From<FileError<I>> for FsError<I> {
    fn from(value: FileError<I>) -> (r: Self) {
        match value {
            FileError::Io(e) => FsError::Io(e),
            FileError::StorageFull => FsError::StorageFull,
            FileError::FileTooLarge => FsError::FileTooLarge,
            FileError::ReadOnly => FsError::ReadOnlyFile,
            FileError::InvalidSeek => FsError::InvalidInput,
            // `FileError::Corrupt` carries no structure kind; don't
            // invent one on the way back.
            FileError::Corrupt => FsError::Corrupt(CorruptKind::Other),
        }
    }
}

impl<I> vstd::std_specs::convert::FromSpecImpl<FileError<I>> for FsError<I> {
    open spec fn obeys_from_spec() -> bool {
        true
    }

    open spec fn from_spec(value: FileError<I>) -> Self {
        fs_error_of(value)
    }
}

/// Every file error but a failed seek survives the way through the volume
/// error and back.
pub proof fn law_file_error_round_trip<I>(e: FileError<I>)
    requires
        !(e is InvalidSeek),
    ensures
        file_error_of(fs_error_of(e)) == e,
{
}

} // verus!
