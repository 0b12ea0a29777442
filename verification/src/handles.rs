//! Concurrent open-handle tracking shared by FAT and exFAT.
//!
//! Writable opens are exclusive; read-only opens may be shared. Callers pass
//! keys that are normalized and case-folded already (names resolve
//! case-insensitively, so `foo.TXT` and `FOO.txt` must collide; see
//! [`crate::name::NamePolicy::fold_path`]); this table only compares them.

use vstd::prelude::*;

use crate::error::FsError;

verus! {

/// Book-keeping for a tracked open handle.
#[derive(Debug, Clone, Copy, PartialEq, Eq, Structural)]
pub enum OpenMode {
    /// One or more read-only handles.
    ReadOnly(u32),
    /// Exactly one read-write handle.
    ReadWrite,
}

/// Path-keyed table of live opens.
#[derive(Debug)]
pub struct HandleTable {
    keys: Vec<Vec<u16>>,
    modes: Vec<OpenMode>,
}

/// The UTF-16 unit between the components of a key.
pub const KEY_SEPARATOR: u16 = 0x5C;

/// `key` is `prefix` or lies below it in the tree. The empty key is the root.
pub open spec fn at_or_under(key: Seq<u16>, prefix: Seq<u16>) -> bool {
    prefix.len() == 0 || (prefix.is_prefix_of(key) && (key.len() == prefix.len()
        || key[prefix.len() as int] == KEY_SEPARATOR))
}

fn same_key(a: &[u16], b: &[u16]) -> (r: bool)
    ensures
        r == (a@ == b@),
{
    if a.len() != b.len() {
        return false;
    }
    let mut i: usize = 0;
    while i < a.len()
        invariant
            i <= a@.len(),
            a@.len() == b@.len(),
            forall|k: int| 0 <= k < i ==> a@[k] == b@[k],
        decreases a@.len() - i,
    {
        if a[i] != b[i] {
            return false;
        }
        i += 1;
    }
    assert(a@ =~= b@);
    true
}

/// `true` when `key` is `prefix` or the key of something below it.
pub fn key_under(key: &[u16], prefix: &[u16]) -> (r: bool)
    ensures
        r == at_or_under(key@, prefix@),
{
    let n: usize = key.len();
    let m: usize = prefix.len();
    if m == 0 {
        return true;
    }
    if n < m {
        return false;
    }
    let mut i: usize = 0;
    while i < m
        invariant
            0 < m,
            i <= m <= n,
            n == key@.len(),
            m == prefix@.len(),
            forall|k: int| 0 <= k < i ==> key@[k] == prefix@[k],
        decreases m - i,
    {
        if key[i] != prefix[i] {
            assert(key@.subrange(0, m as int)[i as int] != prefix@[i as int]);
            return false;
        }
        i += 1;
    }
    assert(key@.subrange(0, m as int) =~= prefix@);
    n == m || key[m] == KEY_SEPARATOR
}

impl HandleTable {
    /// No key is listed twice, and a shared entry counts at least one handle.
    pub closed spec fn wf(self) -> bool {
        &&& self.keys@.len() == self.modes@.len()
        &&& forall|i: int, j: int|
            0 <= i < j < self.keys@.len() ==> (#[trigger] self.keys@[i])@ != (
            #[trigger] self.keys@[j])@
        &&& forall|i: int| 0 <= i < self.modes@.len() ==> #[trigger] self.modes@[i] !== OpenMode::ReadOnly(0)
    }

    /// How `key` is open, if it is.
    pub closed spec fn mode(self, key: Seq<u16>) -> Option<OpenMode> {
        if exists|i: int| 0 <= i < self.keys@.len() && (#[trigger] self.keys@[i])@ == key {
            let i = choose|i: int| 0 <= i < self.keys@.len() && (#[trigger] self.keys@[i])@ == key;
            Some(self.modes@[i])
        } else {
            None
        }
    }

    proof fn lemma_mode(self, i: int)
        requires
            self.wf(),
            0 <= i < self.keys@.len(),
        ensures
            self.mode(self.keys@[i]@) == Some(self.modes@[i]),
    {
        let key = self.keys@[i]@;
        let j = choose|j: int| 0 <= j < self.keys@.len() && (#[trigger] self.keys@[j])@ == key;
        assert(self.keys@[i]@ == key);
        assert(j == i);
    }

    /// An empty table.
    pub fn new() -> (r: Self)
        ensures
            r.wf(),
            forall|k: Seq<u16>| r.mode(k) is None,
    {
        HandleTable { keys: Vec::new(), modes: Vec::new() }
    }

    fn find(&self, key: &[u16]) -> (r: Option<usize>)
        requires
            self.wf(),
        ensures
            match r {
                Some(i) => {
                    &&& i < self.keys@.len()
                    &&& self.keys@[i as int]@ == key@
                    &&& self.mode(key@) == Some(self.modes@[i as int])
                },
                None => {
                    &&& self.mode(key@) is None
                    &&& forall|i: int| 0 <= i < self.keys@.len() ==> (#[trigger] self.keys@[i])@
                        != key@
                },
            },
    {
        let mut i: usize = 0;
        while i < self.keys.len()
            invariant
                self.wf(),
                i <= self.keys@.len(),
                forall|k: int| 0 <= k < i ==> (#[trigger] self.keys@[k])@ != key@,
            decreases self.keys@.len() - i,
        {
            if same_key(self.keys[i].as_slice(), key) {
                proof {
                    self.lemma_mode(i as int);
                }
                return Some(i);
            }
            i += 1;
        }
        None
    }

    fn add_key(&mut self, key: &[u16], mode: OpenMode)
        requires
            old(self).wf(),
            forall|i: int| 0 <= i < old(self).keys@.len() ==> (#[trigger] old(self).keys@[i])@ != key@,
            mode !== OpenMode::ReadOnly(0),
        ensures
            final(self).wf(),
            forall|k: Seq<u16>|
                #[trigger] final(self).mode(k) == (if k == key@ {
                    Some(mode)
                } else {
                    old(self).mode(k)
                }),
    {
        let mut owned: Vec<u16> = Vec::new();
        owned.extend_from_slice(key);
        assert(owned@ =~= key@);
        self.keys.push(owned);
        self.modes.push(mode);
        proof {
            let ghost n = old(self).keys@.len();
            assert(self.wf());
            assert forall|k: Seq<u16>| #[trigger] self.mode(k) == (if k == key@ {
                Some(mode)
            } else {
                old(self).mode(k)
            }) by {
                if k == key@ {
                    self.lemma_mode(n as int);
                } else if exists|i: int|
                    0 <= i < old(self).keys@.len() && (#[trigger] old(self).keys@[i])@ == k {
                    let i = choose|i: int|
                        0 <= i < old(self).keys@.len() && (#[trigger] old(self).keys@[i])@ == k;
                    assert(self.keys@[i] == old(self).keys@[i]);
                    self.lemma_mode(i);
                    old(self).lemma_mode(i);
                } else {
                    assert forall|i: int| 0 <= i < self.keys@.len() implies (
                    #[trigger] self.keys@[i])@ != k by {
                        if i < n {
                            assert(self.keys@[i] == old(self).keys@[i]);
                        }
                    }
                }
            }
        }
    }

    fn set_mode(&mut self, at: usize, mode: OpenMode)
        requires
            old(self).wf(),
            at < old(self).keys@.len(),
            mode !== OpenMode::ReadOnly(0),
        ensures
            final(self).wf(),
            forall|k: Seq<u16>|
                #[trigger] final(self).mode(k) == (if k == old(self).keys@[at as int]@ {
                    Some(mode)
                } else {
                    old(self).mode(k)
                }),
    {
        self.modes.set(at, mode);
        proof {
            assert(self.wf());
            assert forall|k: Seq<u16>| #[trigger] self.mode(k) == (if k == old(
                self,
            ).keys@[at as int]@ {
                Some(mode)
            } else {
                old(self).mode(k)
            }) by {
                if k == old(self).keys@[at as int]@ {
                    self.lemma_mode(at as int);
                } else if exists|i: int|
                    0 <= i < old(self).keys@.len() && (#[trigger] old(self).keys@[i])@ == k {
                    let i = choose|i: int|
                        0 <= i < old(self).keys@.len() && (#[trigger] old(self).keys@[i])@ == k;
                    self.lemma_mode(i);
                    old(self).lemma_mode(i);
                }
            }
        }
    }

    fn drop_key(&mut self, at: usize)
        requires
            old(self).wf(),
            at < old(self).keys@.len(),
        ensures
            final(self).wf(),
            forall|k: Seq<u16>|
                #[trigger] final(self).mode(k) == (if k == old(self).keys@[at as int]@ {
                    None
                } else {
                    old(self).mode(k)
                }),
    {
        self.keys.remove(at);
        self.modes.remove(at);
        proof {
            let before = old(self).keys@;
            assert(self.wf());
            assert forall|k: Seq<u16>| #[trigger] self.mode(k) == (if k == before[at as int]@ {
                None
            } else {
                old(self).mode(k)
            }) by {
                if k == before[at as int]@ {
                    assert forall|i: int| 0 <= i < self.keys@.len() implies (
                    #[trigger] self.keys@[i])@ != k by {
                        if i < at {
                            assert(self.keys@[i] == before[i]);
                        } else {
                            assert(self.keys@[i] == before[i + 1]);
                        }
                    }
                } else if exists|i: int| 0 <= i < before.len() && (#[trigger] before[i])@ == k {
                    let i = choose|i: int| 0 <= i < before.len() && (#[trigger] before[i])@ == k;
                    let j = if i < at {
                        i
                    } else {
                        i - 1
                    };
                    assert(self.keys@[j] == before[i]);
                    self.lemma_mode(j);
                    old(self).lemma_mode(i);
                } else {
                    assert forall|i: int| 0 <= i < self.keys@.len() implies (
                    #[trigger] self.keys@[i])@ != k by {
                        if i < at {
                            assert(self.keys@[i] == before[i]);
                        } else {
                            assert(self.keys@[i] == before[i + 1]);
                        }
                    }
                }
            }
        }
    }

    /// Register a read-only open. Fails if a RW handle is outstanding.
    pub fn lock_ro<E>(&mut self, key: &[u16]) -> (r: Result<(), FsError<E>>)
        requires
            old(self).wf(),
            old(self).mode(key@) !== Some(OpenMode::ReadOnly(u32::MAX)),
        ensures
            final(self).wf(),
            match old(self).mode(key@) {
                None => {
                    &&& r is Ok
                    &&& forall|k: Seq<u16>|
                        #[trigger] final(self).mode(k) == (if k == key@ {
                            Some(OpenMode::ReadOnly(1))
                        } else {
                            old(self).mode(k)
                        })
                },
                Some(OpenMode::ReadOnly(n)) => {
                    &&& r is Ok
                    &&& forall|k: Seq<u16>|
                        #[trigger] final(self).mode(k) == (if k == key@ {
                            Some(OpenMode::ReadOnly((n + 1) as u32))
                        } else {
                            old(self).mode(k)
                        })
                },
                Some(OpenMode::ReadWrite) => {
                    &&& r == Err::<(), FsError<E>>(FsError::FileLocked)
                    &&& *final(self) == *old(self)
                },
            },
    {
        match self.find(key) {
            None => {
                self.add_key(key, OpenMode::ReadOnly(1));
                Ok(())
            },
            Some(i) => match self.modes[i] {
                OpenMode::ReadOnly(count) => {
                    self.set_mode(i, OpenMode::ReadOnly(count + 1));
                    Ok(())
                },
                OpenMode::ReadWrite => Err(FsError::FileLocked),
            },
        }
    }

    /// Register a read-write open. Exclusive: fails if any other handle exists.
    pub fn lock_rw<E>(&mut self, key: &[u16]) -> (r: Result<(), FsError<E>>)
        requires
            old(self).wf(),
        ensures
            final(self).wf(),
            match old(self).mode(key@) {
                None => {
                    &&& r is Ok
                    &&& forall|k: Seq<u16>|
                        #[trigger] final(self).mode(k) == (if k == key@ {
                            Some(OpenMode::ReadWrite)
                        } else {
                            old(self).mode(k)
                        })
                },
                Some(_) => {
                    &&& r == Err::<(), FsError<E>>(FsError::FileLocked)
                    &&& *final(self) == *old(self)
                },
            },
    {
        match self.find(key) {
            Some(_) => Err(FsError::FileLocked),
            None => {
                self.add_key(key, OpenMode::ReadWrite);
                Ok(())
            },
        }
    }

    /// `true` when any live handle is registered at `prefix` or anywhere
    /// below it. Used to guard rename/remove of directories.
    pub fn any_open_under(&self, prefix: &[u16]) -> (r: bool)
        requires
            self.wf(),
        ensures
            r <==> exists|k: Seq<u16>| #[trigger] self.mode(k) is Some && at_or_under(k, prefix@),
    {
        let mut i: usize = 0;
        while i < self.keys.len()
            invariant
                self.wf(),
                i <= self.keys@.len(),
                forall|k: int| 0 <= k < i ==> !at_or_under((#[trigger] self.keys@[k])@, prefix@),
            decreases self.keys@.len() - i,
        {
            if key_under(self.keys[i].as_slice(), prefix) {
                proof {
                    self.lemma_mode(i as int);
                    assert(self.mode(self.keys@[i as int]@) is Some);
                }
                return true;
            }
            i += 1;
        }
        proof {
            assert forall|k: Seq<u16>| #[trigger] self.mode(k) is Some implies !at_or_under(
                k,
                prefix@,
            ) by {
                let j = choose|j: int| 0 <= j < self.keys@.len() && (#[trigger] self.keys@[j])@ == k;
                assert(!at_or_under(self.keys@[j]@, prefix@));
            }
        }
        false
    }

    /// Release a read-only handle. A key without one is left alone.
    pub fn release_ro(&mut self, key: &[u16])
        requires
            old(self).wf(),
        ensures
            final(self).wf(),
            forall|k: Seq<u16>|
                #[trigger] final(self).mode(k) == (if k != key@ {
                    old(self).mode(k)
                } else {
                    match old(self).mode(k) {
                        Some(OpenMode::ReadOnly(n)) => if n == 1 {
                            None
                        } else {
                            Some(OpenMode::ReadOnly((n - 1) as u32))
                        },
                        other => other,
                    }
                }),
    {
        match self.find(key) {
            Some(i) => match self.modes[i] {
                OpenMode::ReadOnly(count) => {
                    assert(self.modes@[i as int] !== OpenMode::ReadOnly(0));
                    if count == 1 {
                        self.drop_key(i);
                    } else {
                        self.set_mode(i, OpenMode::ReadOnly(count - 1));
                    }
                },
                OpenMode::ReadWrite => {},
            },
            None => {},
        }
    }

    /// Release a read-write handle: the key is no longer listed.
    pub fn release_rw(&mut self, key: &[u16])
        requires
            old(self).wf(),
        ensures
            final(self).wf(),
            forall|k: Seq<u16>|
                #[trigger] final(self).mode(k) == (if k == key@ {
                    None
                } else {
                    old(self).mode(k)
                }),
    {
        match self.find(key) {
            Some(i) => {
                self.drop_key(i);
            },
            None => {},
        }
    }
}

} // verus!
