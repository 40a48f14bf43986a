use vstd::prelude::*;

verus! {

/// Why a call at the pool's boundary was refused.
#[derive(Clone, Copy, Debug, PartialEq, Eq, Structural)]
pub enum ConfigError {
    /// A pool needs at least one worker.
    NoWorkers,
    /// A request needs at least one replica.
    ZeroFanout,
}

/// The accounting of one bulk submission, as a snapshot. Times are in the
/// pool's clock ticks.
#[derive(Clone, Copy, Debug, PartialEq, Eq, Structural)]
pub struct Request {
    /// How many task replicas the request is expanded into.
    pub fanout: usize,
    /// When the request was submitted.
    pub declared_at: u64,
    /// Sum of the execution times of its tasks that have finished.
    pub accumulated_runtime: u64,
    /// Time from submission to its latest task completion.
    pub observed_latency: u64,
    /// How many of its replicas have not finished yet.
    pub remaining: usize,
    /// How many of its replicas reported a failure.
    pub failures: usize,
    /// Whether a worker has expanded it into tasks.
    pub expanded: bool,
}

impl Request {
    /// A request just submitted: nothing run, nothing finished.
    pub fn new(fanout: usize, declared_at: u64) -> (r: Request)
        ensures
            r.fanout == fanout,
            r.declared_at == declared_at,
            r.accumulated_runtime == 0,
            r.observed_latency == 0,
            r.remaining == fanout,
            r.failures == 0,
            !r.expanded,
    {
        Request {
            fanout,
            declared_at,
            accumulated_runtime: 0,
            observed_latency: 0,
            remaining: fanout,
            failures: 0,
            expanded: false,
        }
    }

    /// Whether a task of this request may still be run by a worker other
    /// than the one holding it.
    pub open spec fn spec_stealable(self, threshold: u64) -> bool {
        self.accumulated_runtime < threshold
    }

    pub fn is_stealable(&self, threshold: u64) -> (r: bool)
        ensures
            r == self.spec_stealable(threshold),
    {
        self.accumulated_runtime < threshold
    }

    /// Records that one replica finished at `now` after running `exec_time`
    /// ticks, failed or not.
    pub fn record_completion(&mut self, exec_time: u64, now: u64, failed: bool)
        requires
            old(self).remaining > 0,
            old(self).declared_at <= now,
            old(self).failures < old(self).fanout - old(self).remaining + 1,
        ensures
            final(self).fanout == old(self).fanout,
            final(self).declared_at == old(self).declared_at,
            final(self).expanded == old(self).expanded,
            final(self).accumulated_runtime == if old(self).accumulated_runtime + exec_time
                <= u64::MAX {
                (old(self).accumulated_runtime + exec_time) as u64
            } else {
                u64::MAX
            },
            final(self).observed_latency == now - old(self).declared_at,
            final(self).remaining == old(self).remaining - 1,
            final(self).failures == old(self).failures + if failed {
                1int
            } else {
                0int
            },
    {
        self.accumulated_runtime = self.accumulated_runtime.saturating_add(exec_time);
        self.observed_latency = now - self.declared_at;
        self.remaining = self.remaining - 1;
        if failed {
            self.failures = self.failures + 1;
        }
    }
}

} // verus!
