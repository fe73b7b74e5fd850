//! The worker pool: its interface, and the supervisor that keeps its size.
use crate::error::Result;
use vstd::prelude::*;

verus! {

/// A pool of threads that runs submitted jobs.
pub trait ThreadPool: Sized {
    /// Creates a pool of `threads` workers.
    fn new(threads: u32) -> Result<Self>;

    /// Hands a job to the pool; some worker runs it later.
    fn spawn<F: FnOnce() + Send + 'static>(&self, job: F);
}

/// Why a worker stopped.
pub enum WorkerExit {
    /// The job it ran panicked.
    Panicked,
    /// The queue of jobs was closed: the pool is going away.
    QueueClosed,
}

/// What the supervisor asks for after a worker stopped.
pub enum SupervisorAction {
    /// Start a fresh worker in its place.
    Respawn,
    /// Let the pool shrink.
    Retire,
}

/// Counts the live workers of a pool of fixed size and decides, each time a
/// worker stops, whether a new one takes its place.
pub struct PoolSupervisor {
    size: usize,
    live: usize,
    pending: usize,
}

impl PoolSupervisor {
    /// The size the pool was made with.
    pub closed spec fn size_view(&self) -> nat {
        self.size as nat
    }

    /// The workers that run now.
    pub closed spec fn live_view(&self) -> nat {
        self.live as nat
    }

    /// The workers asked for and not yet started.
    pub closed spec fn pending_view(&self) -> nat {
        self.pending as nat
    }

    /// The pool's capacity: the workers that run or are on their way.
    pub open spec fn capacity(&self) -> nat {
        self.live_view() + self.pending_view()
    }

    /// Live and pending workers never outnumber the size.
    pub closed spec fn wf(&self) -> bool {
        self.live + self.pending <= self.size
    }

    /// A supervisor for a pool of `size` workers, none of them started yet.
    pub fn new(size: usize) -> (r: PoolSupervisor)
        ensures
            r.wf(),
            r.size_view() == size,
            r.live_view() == 0,
            r.pending_view() == size,
    {
        PoolSupervisor { size, live: 0, pending: size }
    }

    /// A worker that was asked for has started.
    pub fn worker_started(&mut self)
        requires
            old(self).wf(),
            old(self).pending_view() > 0,
        ensures
            final(self).wf(),
            final(self).size_view() == old(self).size_view(),
            final(self).live_view() == old(self).live_view() + 1,
            final(self).pending_view() == old(self).pending_view() - 1,
    {
        self.live = self.live + 1;
        self.pending = self.pending - 1;
    }

    /// A worker stopped. One whose job panicked is replaced; one that found
    /// the queue closed is not.
    pub fn worker_stopped(&mut self, exit: WorkerExit) -> (r: SupervisorAction)
        requires
            old(self).wf(),
            old(self).live_view() > 0,
        ensures
            final(self).wf(),
            final(self).size_view() == old(self).size_view(),
            final(self).live_view() == old(self).live_view() - 1,
            r is Respawn <==> exit is Panicked,
            exit is Panicked ==> final(self).pending_view() == old(self).pending_view() + 1,
            exit is QueueClosed ==> final(self).pending_view() == old(self).pending_view(),
    {
        self.live = self.live - 1;
        match exit {
            WorkerExit::Panicked => {
                self.pending = self.pending + 1;
                SupervisorAction::Respawn
            },
            WorkerExit::QueueClosed => SupervisorAction::Retire,
        }
    }

    /// The number of workers that run now.
    pub fn live(&self) -> (r: usize)
        ensures
            r == self.live_view(),
    {
        self.live
    }

    /// The number of workers asked for and not yet started.
    pub fn pending(&self) -> (r: usize)
        ensures
            r == self.pending_view(),
    {
        self.pending
    }

    /// The size the pool was made with.
    pub fn size(&self) -> (r: usize)
        ensures
            r == self.size_view(),
    {
        self.size
    }
}

/// `t` is what `worker_stopped(WorkerExit::Panicked)` makes of `s`.
pub open spec fn panicked_stop(s: PoolSupervisor, t: PoolSupervisor) -> bool {
    &&& s.live_view() > 0
    &&& t.size_view() == s.size_view()
    &&& t.live_view() == s.live_view() - 1
    &&& t.pending_view() == s.pending_view() + 1
}

/// `t` is what `worker_started` makes of `s`.
pub open spec fn started(s: PoolSupervisor, t: PoolSupervisor) -> bool {
    &&& s.pending_view() > 0
    &&& t.size_view() == s.size_view()
    &&& t.live_view() == s.live_view() + 1
    &&& t.pending_view() == s.pending_view() - 1
}

/// Panics never shrink the pool: after any number of workers stopped by a
/// panicking job, each replaced by the fresh worker that the supervisor asks
/// for, the pool has as many live workers as before, and as much capacity.
pub proof fn lemma_capacity_kept(states: Seq<PoolSupervisor>, rounds: nat)
    requires
        states.len() == 2 * rounds + 1,
        forall|i: int|
            0 <= i < rounds ==> panicked_stop(#[trigger] states[2 * i], states[2 * i + 1])
                && started(states[2 * i + 1], states[2 * i + 2]),
    ensures
        states.last().live_view() == states[0].live_view(),
        states.last().capacity() == states[0].capacity(),
        states.last().size_view() == states[0].size_view(),
    decreases rounds,
{
    if rounds > 0 {
        let prefix = states.take(2 * rounds - 1);
        assert forall|i: int| 0 <= i < rounds - 1 implies panicked_stop(
            #[trigger] prefix[2 * i],
            prefix[2 * i + 1],
        ) && started(prefix[2 * i + 1], prefix[2 * i + 2]) by {
            assert(prefix[2 * i] == states[2 * i]);
        }
        lemma_capacity_kept(prefix, (rounds - 1) as nat);
        let k = rounds - 1;
        assert(panicked_stop(states[2 * k], states[2 * k + 1]));
    }
}

} // verus!
