//! Backend-agnostic directory listing ([`DirEntry`]) and [`Metadata`].

use vstd::prelude::*;

use crate::attrs::{has_bits, unpacked_attributes, Attributes, DIRECTORY};
use crate::calendar::{Date, PrimitiveDateTime};
use crate::device::Device;
use crate::error::FsError;
use crate::exfat::direntry::{EntryFields, ExfatDirEntry};
use crate::exfat::readdir::{is_dots, visible, ExfatReadDir};
use crate::fat::directory::{fat_metadata, FatDirectory};
use crate::fat::entry::FatFields;
use crate::fat::fs::FatVfs;
use crate::fat::readdir::FatReadDir;

verus! {

/// Metadata for a file or directory, common to both FAT and exFAT.
#[derive(Debug, Clone, Copy, PartialEq, Eq, Structural)]
pub struct Metadata {
    pub len: u64,
    pub is_dir: bool,
    pub attributes: Attributes,
    pub created: Option<PrimitiveDateTime>,
    pub modified: Option<PrimitiveDateTime>,
    pub accessed: Option<Date>,
}

/// The metadata of an exFAT entry. `DataLength` is the file's byte size;
/// directories report 0 like the FAT backend (their `DataLength` is the
/// cluster allocation, not user-meaningful content).
pub open spec fn exfat_metadata(e: EntryFields) -> Metadata {
    Metadata {
        len: if has_bits(e.attributes, DIRECTORY) {
            0
        } else {
            e.data_length
        },
        is_dir: has_bits(e.attributes, DIRECTORY),
        attributes: unpacked_attributes(e.attributes),
        created: e.created,
        modified: e.modified,
        accessed: e.accessed,
    }
}

/// The metadata of a root directory.
pub open spec fn root_metadata() -> Metadata {
    Metadata {
        len: 0,
        is_dir: true,
        attributes: Attributes { read_only: false, hidden: false, system: false, archive: false },
        created: None,
        modified: None,
        accessed: None,
    }
}

impl Metadata {
    /// Size of the file's contents in bytes (`0` for directories).
    #[must_use]
    pub fn len(&self) -> (r: u64)
        ensures
            r == self.len,
    {
        self.len
    }

    /// Whether the entry has no content bytes.
    pub fn is_empty(&self) -> (r: bool)
        ensures
            r == (self.len == 0),
    {
        self.len == 0
    }

    /// Whether the entry is a directory.
    #[must_use]
    pub fn is_dir(&self) -> (r: bool)
        ensures
            r == self.is_dir,
    {
        self.is_dir
    }

    /// Whether the entry is a regular file.
    pub fn is_file(&self) -> (r: bool)
        ensures
            r == !self.is_dir,
    {
        !self.is_dir
    }

    /// The entry's attribute flags.
    pub fn attributes(&self) -> (r: Attributes)
        ensures
            r == self.attributes,
    {
        self.attributes
    }

    /// Whether the read-only attribute is set.
    pub fn is_read_only(&self) -> (r: bool)
        ensures
            r == self.attributes.read_only,
    {
        self.attributes.read_only
    }

    /// Whether the hidden attribute is set.
    pub fn is_hidden(&self) -> (r: bool)
        ensures
            r == self.attributes.hidden,
    {
        self.attributes.hidden
    }

    /// Whether the system attribute is set.
    pub fn is_system(&self) -> (r: bool)
        ensures
            r == self.attributes.system,
    {
        self.attributes.system
    }

    /// Creation timestamp, if the backend records one.
    pub fn created(&self) -> (r: Option<PrimitiveDateTime>)
        ensures
            r == self.created,
    {
        self.created
    }

    /// Last-modification timestamp, if the backend records one.
    pub fn modified(&self) -> (r: Option<PrimitiveDateTime>)
        ensures
            r == self.modified,
    {
        self.modified
    }

    /// Last-access date, if the backend records one.
    pub fn accessed(&self) -> (r: Option<Date>)
        ensures
            r == self.accessed,
    {
        self.accessed
    }

    /// The metadata of a root directory.
    pub fn root() -> (r: Self)
        ensures
            r == root_metadata(),
    {
        Metadata {
            len: 0,
            is_dir: true,
            attributes: Attributes::default(),
            created: None,
            modified: None,
            accessed: None,
        }
    }

    /// The metadata of an exFAT entry.
    pub fn from_exfat(entry: &ExfatDirEntry) -> (r: Self)
        ensures
            r == exfat_metadata(entry@),
    {
        Metadata {
            len: if entry.is_dir() {
                0
            } else {
                entry.data_length
            },
            is_dir: entry.is_dir(),
            attributes: entry.attributes.to_attributes(),
            created: entry.created,
            modified: entry.modified,
            accessed: entry.accessed,
        }
    }
}

/// A single entry of a directory listing; `.`/`..` are never surfaced.
#[derive(Debug, Clone, PartialEq, Eq)]
pub struct DirEntry {
    name: String,
    path: String,
    metadata: Metadata,
}

/// The path of `name` in the directory `base`.
pub open spec fn joined_path(base: Seq<char>, name: Seq<char>) -> Seq<char> {
    if base.len() == 0 || crate::path::is_separator(base.last()) {
        base + name
    } else {
        base.push('\\') + name
    }
}

impl DirEntry {
    /// The entry `name` of the directory `base`.
    pub fn new(base: &str, name: &str, metadata: Metadata) -> (r: Self)
        ensures
            r@ == (Listed { name: name@, path: joined_path(base@, name@), metadata }),
    {
        let mut path = String::new();
        path.append(base);
        let n: usize = base.unicode_len();
        if n > 0 {
            let last: char = base.get_char(n - 1);
            if last != '\\' && last != '/' {
                path.push('\\');
            }
        }
        path.append(name);
        let mut own = String::new();
        own.append(name);
        proof {
            assert(path@ =~= joined_path(base@, name@));
            assert(own@ =~= name@);
        }
        DirEntry { name: own, path, metadata }
    }

    /// The entry's file name (final path component).
    pub fn file_name(&self) -> (r: &str)
        ensures
            r@ == self@.name,
    {
        self.name.as_str()
    }

    /// The entry's full path from the volume root.
    pub fn path(&self) -> (r: &str)
        ensures
            r@ == self@.path,
    {
        self.path.as_str()
    }

    /// The entry's [`Metadata`].
    pub fn metadata(&self) -> (r: &Metadata)
        ensures
            *r == self@.metadata,
    {
        &self.metadata
    }

    /// Whether the entry is a directory.
    #[must_use]
    pub fn is_dir(&self) -> (r: bool)
        ensures
            r == self@.metadata.is_dir,
    {
        self.metadata.is_dir
    }

    /// Whether the entry is a regular file.
    pub fn is_file(&self) -> (r: bool)
        ensures
            r == !self@.metadata.is_dir,
    {
        !self.metadata.is_dir
    }
}

/// What a directory listing says of one entry.
pub struct Listed {
    pub name: Seq<char>,
    pub path: Seq<char>,
    pub metadata: Metadata,
}

impl View for DirEntry {
    type V = Listed;

    closed spec fn view(&self) -> Listed {
        Listed { name: self.name@, path: self.path@, metadata: self.metadata }
    }
}

/// The FAT entry `f` as listed under `base`.
pub open spec fn fat_listed(base: Seq<char>, f: FatFields) -> Listed {
    Listed { name: f.name, path: joined_path(base, f.name), metadata: fat_metadata(f) }
}

/// The exFAT entry `e` as listed under `base`.
pub open spec fn exfat_listed(base: Seq<char>, e: EntryFields) -> Listed {
    Listed { name: e.name, path: joined_path(base, e.name), metadata: exfat_metadata(e) }
}

/// Iteration over the entries of a directory; `.`/`..` are never surfaced.
pub struct ReadDir<'a, D: Device> {
    pub base: String,
    pub inner: ReadDirInner<'a, D>,
}

/// The backend's own iteration.
pub enum ReadDirInner<'a, D: Device> {
    Fat(&'a FatVfs<D>, FatReadDir),
    Exfat(ExfatReadDir),
}

impl<'a, D: Device> ReadDir<'a, D> {
    pub open spec fn wf(self) -> bool {
        match self.inner {
            ReadDirInner::Fat(fs, it) => fs.wf() && it.wf(),
            ReadDirInner::Exfat(it) => it.wf(),
        }
    }

    /// The storage below does not fail.
    pub open spec fn reliable(self) -> bool {
        match self.inner {
            ReadDirInner::Fat(fs, _) => fs.dev.reliable(),
            ReadDirInner::Exfat(_) => true,
        }
    }

    /// The entries still to come, and the error that cuts them short if there
    /// is one.
    pub open spec fn rest(self) -> (Seq<Listed>, Option<FsError<()>>) {
        match self.inner {
            ReadDirInner::Fat(fs, it) => {
                let rest = it.rest(fs.layout, fs.dev.contents());
                (rest.0.map_values(|f: FatFields| fat_listed(self.base@, f)), rest.1)
            },
            ReadDirInner::Exfat(it) => (
                visible(it.rest()).map_values(|e: EntryFields| exfat_listed(self.base@, e)),
                None,
            ),
        }
    }

    /// Iteration over a FAT directory at `base`.
    pub fn fat(base: String, fs: &'a FatVfs<D>, inner: FatReadDir) -> (r: Self)
        requires
            fs.wf(),
            inner.wf(),
        ensures
            r.wf(),
            r.base@ == base@,
            r.inner == ReadDirInner::Fat(fs, inner),
    {
        ReadDir { base, inner: ReadDirInner::Fat(fs, inner) }
    }

    /// Iteration over an exFAT directory at `base`.
    pub fn exfat(base: String, inner: ExfatReadDir) -> (r: Self)
        requires
            inner.wf(),
        ensures
            r.wf(),
            r.base@ == base@,
            r.inner == ReadDirInner::<'a, D>::Exfat(inner),
    {
        ReadDir { base, inner: ReadDirInner::Exfat(inner) }
    }

    /// The next entry; `None` at the end. After an error the listing is over.
    pub fn next(&mut self) -> (r: Option<Result<DirEntry, FsError<D::Error>>>)
        requires
            old(self).wf(),
        ensures
            final(self).wf(),
            final(self).base@ == old(self).base@,
            match r {
                None => {
                    &&& old(self).rest() == (Seq::<Listed>::empty(), None::<FsError<()>>)
                    &&& final(self).rest() == old(self).rest()
                },
                Some(Ok(e)) => {
                    &&& old(self).rest() == (
                        seq![e@] + final(self).rest().0,
                        final(self).rest().1,
                    )
                    &&& !is_dots(e@.name)
                },
                Some(Err(FsError::Io(_))) => !old(self).reliable(),
                Some(Err(e)) => {
                    &&& old(self).rest() == (Seq::<Listed>::empty(), Some(e.kind()))
                    &&& final(self).rest() == (Seq::<Listed>::empty(), None::<FsError<()>>)
                },
            },
    {
        let ghost base = self.base@;
        match &mut self.inner {
            ReadDirInner::Fat(fs, it) => {
                let ghost f = |f: FatFields| fat_listed(base, f);
                let ghost all = it.rest(fs.layout, fs.dev.contents());
                match it.next(*fs) {
                    None => {
                        assert(all.0.map_values(f) =~= Seq::<Listed>::empty());
                        None
                    },
                    Some(Ok(p)) => {
                        let metadata = FatDirectory::metadata_of(&p);
                        let e = DirEntry::new(self.base.as_str(), p.name.as_str(), metadata);
                        assert(all.0.map_values(f) =~= seq![e@] + it.rest(
                            fs.layout,
                            fs.dev.contents(),
                        ).0.map_values(f));
                        Some(Ok(e))
                    },
                    Some(Err(e)) => {
                        assert(all.0.len() == 0 ==> all.0.map_values(f) =~= Seq::<Listed>::empty());
                        Some(Err(e))
                    },
                }
            },
            ReadDirInner::Exfat(it) => {
                let ghost f = |e: EntryFields| exfat_listed(base, e);
                let ghost all = visible(it.rest());
                match it.next_visible() {
                    None => {
                        assert(all.map_values(f) =~= Seq::<Listed>::empty());
                        None
                    },
                    Some(p) => {
                        let metadata = Metadata::from_exfat(&p);
                        let e = DirEntry::new(self.base.as_str(), p.name.as_str(), metadata);
                        assert(all.map_values(f) =~= seq![e@] + visible(it.rest()).map_values(f));
                        Some(Ok(e))
                    },
                }
            },
        }
    }
}

} // verus!
