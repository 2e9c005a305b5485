//! The counters a worker keeps of its run.

use vstd::prelude::*;

verus! {

/// Counters of one worker's run: rounds of its loop, nodes it sent to other
/// workers, and rounds in which it had nothing worth expanding.
#[derive(Debug, Clone, Copy, PartialEq, Eq, Structural)]
pub struct Log {
    pub iter_cnt: i32,
    pub node_cnt: i32,
    pub abort_cnt: i32,
}

impl Log {
    /// Counters at zero.
    pub fn new() -> (log: Log)
        ensures
            log.iter_cnt == 0,
            log.node_cnt == 0,
            log.abort_cnt == 0,
    {
        Log { iter_cnt: 0, node_cnt: 0, abort_cnt: 0 }
    }

    /// Whether `other` can be merged into these counters without leaving
    /// `i32`.
    pub open spec fn can_merge(self, other: Log) -> bool {
        &&& i32::MIN <= self.iter_cnt + other.iter_cnt <= i32::MAX
        &&& i32::MIN <= self.abort_cnt + other.abort_cnt <= i32::MAX
        &&& i32::MIN <= self.node_cnt + other.abort_cnt <= i32::MAX
    }

    /// Adds the rounds and the idle rounds of `log` to these counters; the
    /// node counter grows by the idle rounds of `log` as well.
    pub fn merge(&mut self, log: Log)
        requires
            old(self).can_merge(log),
        ensures
            final(self).iter_cnt == old(self).iter_cnt + log.iter_cnt,
            final(self).abort_cnt == old(self).abort_cnt + log.abort_cnt,
            final(self).node_cnt == old(self).node_cnt + log.abort_cnt,
    {
        self.iter_cnt = self.iter_cnt + log.iter_cnt;
        self.abort_cnt = self.abort_cnt + log.abort_cnt;
        self.node_cnt = self.node_cnt + log.abort_cnt;
    }
}

} // verus!
