//! Directory iteration without `.` and `..`.

use vstd::prelude::*;

use super::dir_slots::FatDir;
use super::directory::{is_dot_entry, without_dots};
use super::entry::{FatFields, RawProperties};
use super::fs::FatVfs;
use super::layout::FatLayout;
use super::slot_iter::{fat_listing, listed_from, FatSlotIter};
use crate::device::Device;
use crate::error::FsError;
use crate::path::{is_dot, is_dotdot};

verus! {

/// Yields each child of a directory in on-disk slot order.
///
/// Callers should treat that order as unspecified.
pub struct FatReadDir {
    pub inner: FatSlotIter,
}

/// Leaving `.` and `..` out, entry by entry.
pub proof fn lemma_without_dots_first(f: FatFields, rest: Seq<FatFields>)
    ensures
        without_dots(seq![f] + rest) == (if is_dot_entry(f) {
            seq![]
        } else {
            seq![f]
        }) + without_dots(rest),
    decreases rest.len(),
{
    let all = seq![f] + rest;
    let head: Seq<FatFields> = if is_dot_entry(f) {
        seq![]
    } else {
        seq![f]
    };
    if rest.len() == 0 {
        assert(all.drop_last() =~= seq![]);
        assert(all.last() == f);
        assert(without_dots(all.drop_last()) =~= seq![]);
        assert(without_dots(all) =~= head + without_dots(rest));
    } else {
        assert(all.last() == rest.last());
        assert(all.drop_last() =~= seq![f] + rest.drop_last());
        lemma_without_dots_first(f, rest.drop_last());
        assert(without_dots(all) =~= head + without_dots(rest));
    }
}

impl FatReadDir {
    pub open spec fn wf(self) -> bool {
        self.inner.wf()
    }

    /// The entries still to come, and the error that cuts them short if there
    /// is one.
    pub open spec fn rest(self, l: FatLayout, img: Seq<u8>) -> (
        Seq<FatFields>,
        Option<FsError<()>>,
    ) {
        let all = listed_from(l, img, self.inner.state());
        (without_dots(all.0), all.1)
    }

    pub fn new<D: Device>(fs: &FatVfs<D>, dir: FatDir) -> (r: Self)
        requires
            fs.wf(),
        ensures
            r.wf(),
            r.rest(fs.layout, fs.dev.contents()) == (
                without_dots(fat_listing(fs.layout, fs.dev.contents(), dir).0),
                fat_listing(fs.layout, fs.dev.contents(), dir).1,
            ),
    {
        FatReadDir { inner: FatSlotIter::new(fs, dir) }
    }

    /// The next entry; `None` at the end. After an error the listing is over.
    pub fn next<D: Device>(&mut self, fs: &FatVfs<D>) -> (r: Option<
        Result<RawProperties, FsError<D::Error>>,
    >)
        requires
            fs.wf(),
            old(self).wf(),
        ensures
            final(self).wf(),
            ({
                let all = old(self).rest(fs.layout, fs.dev.contents());
                let rest = final(self).rest(fs.layout, fs.dev.contents());
                match r {
                    None => {
                        &&& all == (Seq::<FatFields>::empty(), None::<FsError<()>>)
                        &&& rest == all
                    },
                    Some(Ok(p)) => {
                        &&& p@.wf()
                        &&& !is_dot_entry(p@)
                        &&& all == (seq![p@] + rest.0, rest.1)
                    },
                    Some(Err(FsError::Io(_))) => !fs.dev.reliable(),
                    Some(Err(e)) => {
                        &&& all == (Seq::<FatFields>::empty(), Some(e.kind()))
                        &&& rest == (Seq::<FatFields>::empty(), None::<FsError<()>>)
                    },
                }
            }),
    {
        let ghost l = fs.layout;
        let ghost img = fs.dev.contents();
        loop
            invariant
                fs.wf(),
                self.wf(),
                l == fs.layout,
                img == fs.dev.contents(),
                self.rest(l, img) == old(self).rest(l, img),
            decreases super::slot_iter::MAX_DIR_SLOTS - self.inner.slots_seen,
        {
            let ghost before = listed_from(l, img, self.inner.state());
            match self.inner.next(fs) {
                None => {
                    return None;
                },
                Some(Err(e)) => {
                    return Some(Err(e));
                },
                Some(Ok(p)) => {
                    proof {
                        let rest = listed_from(l, img, self.inner.state());
                        lemma_without_dots_first(p@, rest.0);
                        assert(Seq::<FatFields>::empty() + without_dots(rest.0) =~= without_dots(
                            rest.0,
                        ));
                    }
                    if !is_dot(p.name.as_str()) && !is_dotdot(p.name.as_str()) {
                        return Some(Ok(p));
                    }
                },
            }
        }
    }
}

} // verus!
