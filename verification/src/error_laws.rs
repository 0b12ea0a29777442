//! What the messages of errors tell.

use vstd::prelude::*;

use crate::error::{CorruptKind, FileError, FsError};

verus! {

/// The length of a message and its first character, by kind.
spec fn mark(e: FsError<()>) -> (int, char) {
    match e {
        FsError::Io(_) => (11, 'I'),
        FsError::NotFound => (9, 'n'),
        FsError::AlreadyExists => (14, 'a'),
        FsError::NotADirectory => (15, 'n'),
        FsError::IsADirectory => (14, 'i'),
        FsError::DirectoryNotEmpty => (19, 'd'),
        FsError::FileLocked => (11, 'f'),
        FsError::StorageFull => (12, 's'),
        FsError::RootDirectoryFull => (19, 'r'),
        FsError::InvalidInput => (13, 'i'),
        FsError::FileTooLarge => (33, 'f'),
        FsError::ReadOnlyFile => (14, 'r'),
        FsError::PermissionDenied => (17, 'p'),
        FsError::Corrupt(CorruptKind::BootSector) => (27, 'c'),
        FsError::Corrupt(CorruptKind::FsInfo) => (23, 'c'),
        FsError::Corrupt(CorruptKind::FatTables) => (26, 'c'),
        FsError::Corrupt(CorruptKind::ClusterChain) => (29, 'c'),
        FsError::Corrupt(CorruptKind::DirEntry) => (25, 'c'),
        FsError::Corrupt(CorruptKind::Codec) => (22, 'c'),
        FsError::Corrupt(CorruptKind::Other) => (22, 'c'),
        FsError::Unsupported => (22, 'u'),
    }
}

proof fn lemma_marked(e: FsError<()>)
    ensures
        e.text().len() == mark(e).0,
        e.text()[0] == mark(e).1,
        e == FsError::<()>::Corrupt(CorruptKind::Codec) ==> e.text()[16] == 'C',
        e == FsError::<()>::Corrupt(CorruptKind::Other) ==> e.text()[16] == 'O',
{
    reveal_strlit("I/O error: ");
    reveal_strlit("not found");
    reveal_strlit("already exists");
    reveal_strlit("not a directory");
    reveal_strlit("is a directory");
    reveal_strlit("directory not empty");
    reveal_strlit("file locked");
    reveal_strlit("storage full");
    reveal_strlit("root directory full");
    reveal_strlit("invalid input");
    reveal_strlit("file too large for the filesystem");
    reveal_strlit("read-only file");
    reveal_strlit("permission denied");
    reveal_strlit("corrupt volume (BootSector)");
    reveal_strlit("corrupt volume (FsInfo)");
    reveal_strlit("corrupt volume (FatTables)");
    reveal_strlit("corrupt volume (ClusterChain)");
    reveal_strlit("corrupt volume (DirEntry)");
    reveal_strlit("corrupt volume (Codec)");
    reveal_strlit("corrupt volume (Other)");
    reveal_strlit("unsupported filesystem");
}

/// Errors of different kinds have different messages.
pub proof fn law_messages_tell_errors_apart(a: FsError<()>, b: FsError<()>)
    ensures
        a.text() == b.text() ==> a.kind() == b.kind(),
{
    lemma_marked(a);
    lemma_marked(b);
}

/// So have the errors of an open file.
pub proof fn law_file_messages_tell_errors_apart(a: FileError<()>, b: FileError<()>)
    ensures
        a.text() == b.text() ==> a.kind() == b.kind(),
{
    reveal_strlit("underlying storage error: ");
    reveal_strlit("the volume ran out of free space");
    reveal_strlit("the file reached the format's maximum size");
    reveal_strlit("write attempted on a read-only handle");
    reveal_strlit("seek before the start of the file");
    reveal_strlit("the on-disk structures backing this file are malformed");
    assert("underlying storage error: "@.len() == 26);
    assert("the volume ran out of free space"@.len() == 32);
    assert("the file reached the format's maximum size"@.len() == 42);
    assert("write attempted on a read-only handle"@.len() == 37);
    assert("seek before the start of the file"@.len() == 33);
    assert("the on-disk structures backing this file are malformed"@.len() == 54);
}

} // verus!
