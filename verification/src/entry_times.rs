//! Shared create/modify/access stamp bundle used when building new entries.

use vstd::prelude::*;

use crate::calendar::{epoch_datetime, Date, PrimitiveDateTime};

verus! {

/// The three timestamps carried by a directory entry on both backends.
#[derive(Debug, Clone, Copy)]
pub struct EntryTimes {
    pub created: Option<PrimitiveDateTime>,
    pub modified: Option<PrimitiveDateTime>,
    pub accessed: Option<Date>,
}

impl Default for EntryTimes {
    fn default() -> (r: Self)
        ensures
            r.created is None && r.modified is None && r.accessed is None,
    {
        EntryTimes { created: None, modified: None, accessed: None }
    }
}

impl EntryTimes {
    /// Every stamp that is present is a real date or time.
    pub open spec fn wf(self) -> bool {
        &&& self.created matches Some(t) ==> t.wf()
        &&& self.modified matches Some(t) ==> t.wf()
        &&& self.accessed matches Some(d) ==> d.wf()
    }

    /// All three stamped with the clock reading `now` (accessed truncated to
    /// a date), for a freshly-created entry.
    pub fn now(now: PrimitiveDateTime) -> (r: Self)
        ensures
            r.created == Some(now),
            r.modified == Some(now),
            r.accessed == Some(now.date),
            now.wf() ==> r.wf(),
    {
        EntryTimes { created: Some(now), modified: Some(now), accessed: Some(now.date) }
    }

    /// The modification stamp, defaulting to the epoch if absent.
    #[inline]
    pub fn modified_or_epoch(self) -> (r: PrimitiveDateTime)
        ensures
            r == (match self.modified {
                Some(t) => t,
                None => epoch_datetime(),
            }),
            self.wf() ==> r.wf(),
    {
        match self.modified {
            Some(t) => t,
            None => PrimitiveDateTime::epoch(),
        }
    }
}

} // verus!
