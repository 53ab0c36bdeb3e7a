//! Change tracker: decides, from one clipboard snapshot to the next, whether
//! the clipboard content really changed.
//!
//! The tracker itself performs no I/O. A composing loop reads the operating
//! system clipboard, hands the snapshot (or `None` when the clipboard is
//! unreadable or holds no text) to [`Tracker::observe`], and sleeps for
//! [`Tracker::poll_interval_ms`] milliseconds whenever `observe` reports no
//! change.

use vstd::prelude::*;

verus! {

use crate::clone_bytes;

/// Default delay between two snapshot evaluations, in milliseconds.
pub const DEFAULT_POLL_INTERVAL_MS: u64 = 1000;

/// Watches the stream of clipboard snapshots and resolves exactly once per
/// genuine change.
pub struct Tracker {
    current: Option<Vec<u8>>,
    poll_interval_ms: u64,
}

impl Tracker {
    /// The snapshot observed last, if any.
    pub closed spec fn last_seen(&self) -> Option<Seq<u8>> {
        match self.current {
            Some(v) => Some(v@),
            None => None,
        }
    }

    /// The configured delay between evaluations.
    pub closed spec fn interval_ms(&self) -> u64 {
        self.poll_interval_ms
    }

    /// A fresh tracker that has seen nothing yet.
    pub fn new() -> (t: Tracker)
        ensures
            t.last_seen() is None,
            t.interval_ms() == DEFAULT_POLL_INTERVAL_MS,
    {
        Tracker { current: None, poll_interval_ms: DEFAULT_POLL_INTERVAL_MS }
    }

    /// How long the composing loop should sleep before re-evaluating.
    pub fn poll_interval_ms(&self) -> (r: u64)
        ensures
            r == self.interval_ms(),
    {
        self.poll_interval_ms
    }

    /// One evaluation step. `snapshot` is the clipboard content the caller
    /// just read, or `None` when no content was available; an unreadable
    /// clipboard counts as "no change", never as an error.
    ///
    /// Returns `Some(bytes)` exactly when the snapshot differs from the last
    /// observed one (or nothing was observed yet), and then remembers the new
    /// snapshot; otherwise returns `None` and leaves the tracker unchanged.
    pub fn observe(&mut self, snapshot: Option<Vec<u8>>) -> (changed: Option<Vec<u8>>)
        ensures
            match snapshot {
                None => changed is None && *final(self) == *old(self),
                Some(b) => {
                    if old(self).last_seen() == Some(b@) {
                        changed is None && *final(self) == *old(self)
                    } else {
                        &&& changed matches Some(c) && c@ == b@
                        &&& final(self).last_seen() == Some(b@)
                        &&& final(self).interval_ms() == old(self).interval_ms()
                    }
                },
            },
    {
        match snapshot {
            None => None,
            Some(b) => {
                let same: bool = match &self.current {
                    Some(c) => {
                        let eq: bool = *c == b;
                        proof {
                            if eq {
                                assert(c@ =~= b@);
                            } else {
                                assert(!(c@ =~= b@));
                            }
                        }
                        eq
                    },
                    None => false,
                };
                if same {
                    None
                } else {
                    let kept = clone_bytes(&b);
                    self.current = Some(kept);
                    Some(b)
                }
            },
        }
    }
}


} // verus!

