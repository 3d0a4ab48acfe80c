//! Decisions of the work engine that are pure data: which targets a run
//! wants, and the per-pool concurrency accounting that caps how many edges
//! of a pool run at once.

use crate::graph::FileId;
use vstd::prelude::*;

verus! {

/// Pick the targets of a run: the explicitly requested files if there are
/// any, otherwise the `default` list; a run with neither is an error
/// ("no path specified and no default").
pub fn select_targets(requested: Vec<FileId>, default: Vec<FileId>) -> (r: Option<Vec<FileId>>)
    ensures
        match r {
            Some(v) => (requested@.len() > 0 && v@ == requested@) || (requested@.len() == 0
                && default@.len() > 0 && v@ == default@),
            None => requested@.len() == 0 && default@.len() == 0,
        },
{
    if requested.len() > 0 {
        Some(requested)
    } else if default.len() > 0 {
        Some(default)
    } else {
        None
    }
}

/// A concurrency bucket: at most `depth` edges of this pool run at once.
/// The global parallelism cap is itself such a bucket; an edge runs only
/// while it holds a slot in its pool and in the global bucket.
pub struct Pool {
    depth: usize,
    running: usize,
}

impl Pool {
    /// The cap this pool was created with.
    pub closed spec fn cap(&self) -> nat {
        self.depth as nat
    }

    /// How many edges of this pool are running now.
    pub closed spec fn active(&self) -> nat {
        self.running as nat
    }

    /// The pool bound: at no instant do more edges run than the cap allows.
    pub open spec fn wf(&self) -> bool {
        self.active() <= self.cap()
    }

    /// A new, idle pool with the given depth.
    pub fn new(depth: usize) -> (p: Pool)
        ensures
            p.wf(),
            p.cap() == depth,
            p.active() == 0,
    {
        Pool { depth, running: 0 }
    }

    /// Try to take a running slot: succeeds exactly when the pool is below
    /// its cap, and never drives it above the cap.
    pub fn try_start(&mut self) -> (r: bool)
        requires
            old(self).wf(),
        ensures
            final(self).wf(),
            final(self).cap() == old(self).cap(),
            r == (old(self).active() < old(self).cap()),
            r ==> final(self).active() == old(self).active() + 1,
            !r ==> final(self).active() == old(self).active(),
    {
        if self.running < self.depth {
            self.running += 1;
            true
        } else {
            false
        }
    }

    /// Return a running slot when an edge of this pool completes.
    pub fn finish(&mut self)
        requires
            old(self).wf(),
            old(self).active() > 0,
        ensures
            final(self).wf(),
            final(self).cap() == old(self).cap(),
            final(self).active() == old(self).active() - 1,
    {
        self.running -= 1;
    }
}

} // verus!
