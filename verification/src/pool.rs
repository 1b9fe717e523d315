//! The bounded-concurrency probe pool, modelled as a state machine.
//! The driver that owns the sockets steps this state and obeys its
//! answers; the state carries the proof that the number of in-flight
//! probes never exceeds the configured bound, and that exactly one
//! completion is counted per input.
use vstd::prelude::*;

verus! {

pub struct ProbePool {
    /// How many inputs the run has overall.
    pub total: usize,
    /// The concurrency bound.
    pub batch: usize,
    /// How many probes have been launched so far.
    pub launched: usize,
    /// How many probes have completed so far.
    pub completed: usize,
}

impl ProbePool {
    pub open spec fn wf(&self) -> bool {
        &&& self.completed <= self.launched <= self.total
        &&& self.launched - self.completed <= self.batch
    }

    /// The probes launched and not yet completed.
    pub open spec fn in_flight(&self) -> int {
        self.launched - self.completed
    }

    pub open spec fn done(&self) -> bool {
        self.completed == self.total
    }

    /// A fresh pool primes one probe per input up to the bound, and no
    /// more.
    pub fn new(total: usize, batch: usize) -> (p: ProbePool)
        requires
            batch >= 1,
        ensures
            p.wf(),
            p.total == total,
            p.batch == batch,
            p.completed == 0,
            p.launched == if total < batch {
                total
            } else {
                batch
            },
            p.in_flight() <= p.batch,
    {
        let primed: usize = if total < batch {
            total
        } else {
            batch
        };
        ProbePool { total, batch, launched: primed, completed: 0 }
    }

    /// Counts one completion and, while input remains, launches exactly
    /// one replacement, keeping the pool at its steady size.  The
    /// result says whether a replacement was launched.
    pub fn on_completion(&mut self) -> (launched_more: bool)
        requires
            old(self).wf(),
            old(self).in_flight() > 0,
        ensures
            final(self).wf(),
            final(self).total == old(self).total,
            final(self).batch == old(self).batch,
            final(self).completed == old(self).completed + 1,
            final(self).launched == if old(self).launched < old(self).total {
                old(self).launched + 1
            } else {
                old(self).launched as int
            },
            launched_more == (old(self).launched < old(self).total),
            final(self).in_flight() <= final(self).batch,
    {
        self.completed = self.completed + 1;
        if self.launched < self.total {
            self.launched = self.launched + 1;
            true
        } else {
            false
        }
    }
}

/// At no step does the number of in-flight probes exceed the
/// configured bound: every reachable pool state is well formed, and a
/// well-formed state keeps `in_flight` at or below `batch`.  The
/// constructor establishes well-formedness and `on_completion`
/// preserves it, so this invariant holds over any run.
pub proof fn lemma_concurrency_bound(p: ProbePool)
    requires
        p.wf(),
    ensures
        p.in_flight() <= p.batch,
{
}

/// A full run of the pool: stepping from the fresh state until it is
/// done counts exactly one completion per input, with the concurrency
/// bound held at every step.
pub fn run_pool_schedule(total: usize, batch: usize) -> (completions: usize)
    requires
        batch >= 1,
    ensures
        completions == total,
{
    let mut pool: ProbePool = ProbePool::new(total, batch);
    while pool.completed < pool.total
        invariant
            pool.wf(),
            pool.total == total,
            pool.batch == batch,
            batch >= 1,
            // refilling by one per completion keeps the pool at its
            // steady size until the input runs out
            pool.launched == if pool.completed + pool.batch < pool.total {
                pool.completed + pool.batch
            } else {
                pool.total as int
            },
        decreases pool.total - pool.completed,
    {
        proof {
            lemma_concurrency_bound(pool);
            assert(pool.in_flight() > 0);
        }
        let _ = pool.on_completion();
    }
    pool.completed
}

} // verus!
