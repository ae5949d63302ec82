//! Per-worker private scratch: wake batches and reusable buffers, so the
//! sweep allocates nothing on the hot path.

use vstd::prelude::*;
use crate::TaskId;

verus! {

/// A worker's private bookkeeping for one sweep.
pub struct Private {
    /// Tasks whose producers emitted during this sweep; woken at sweep end.
    pub to_trigger: Vec<TaskId>,
    /// Reusable buffer for output sequence-number snapshots.
    pub seqno_buf: Vec<usize>,
}

impl Private {
    /// Fresh scratch with empty buffers.
    pub fn new() -> (r: Private)
        ensures
            r.to_trigger@.len() == 0,
            r.seqno_buf@.len() == 0,
    {
        Private { to_trigger: Vec::new(), seqno_buf: Vec::new() }
    }

    /// Pre-reserve buffer room for `n` tasks; contents are unchanged.
    pub fn ensure_size(&mut self, n: usize)
        ensures
            final(self).to_trigger@ == old(self).to_trigger@,
            final(self).seqno_buf@ == old(self).seqno_buf@,
    {
        self.to_trigger.reserve(n);
    }

    /// The wake batch collected so far.
    pub fn to_trigger(&self) -> (r: &Vec<TaskId>)
        ensures
            r@ == self.to_trigger@,
    {
        &self.to_trigger
    }

    /// Empty the wake batch for the next sweep.
    pub fn clear(&mut self)
        ensures
            final(self).to_trigger@.len() == 0,
            final(self).seqno_buf@ == old(self).seqno_buf@,
    {
        self.to_trigger.clear();
    }
}

} // verus!
