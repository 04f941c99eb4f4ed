//! The worker pool's shared state and its termination detector.
//!
//! N workers share one queue of directories. Each worker repeatedly asks the
//! pool for work with `acquire` and reports what it found with `complete`; a
//! worker that could not list its directory has nothing to report and simply
//! asks again. Taking a directory and marking a worker idle happen in one
//! step of the pool, so a worker is counted idle only while it holds no
//! directory and can publish none. The pool is quiescent when every worker is
//! idle; only then are workers told to exit.
//!
//! A `Pool` is a plain value: workers that run in parallel share it behind a
//! lock and hold the lock for one call at a time.

use crate::model::paths_of;
use crate::queue::WorkQueue;
use vstd::prelude::*;

verus! {

/// The state of one worker, as the pool accounts for it.
#[derive(Debug, Clone, Copy, PartialEq, Eq, Structural)]
pub enum WorkerState {
    /// Holds a directory, or is about to ask for one; may still publish
    /// subdirectories.
    Working,
    /// Found the queue empty and waits for work to appear.
    Idle,
    /// Saw the pool quiescent and left.
    Terminated,
}

/// What the pool tells a worker to do next.
#[derive(Debug, Clone, PartialEq, Eq)]
pub enum Action {
    /// Traverse this directory, then report with `complete`.
    Process(String),
    /// Nothing is queued, but other workers may still publish: wait, then ask
    /// again.
    Wait,
    /// The pool is quiescent: stop.
    Exit,
}

/// The mathematical value of an `Action`.
pub enum Step {
    Process(Seq<char>),
    Wait,
    Exit,
}

impl View for Action {
    type V = Step;

    open spec fn view(&self) -> Step {
        match self {
            Action::Process(path) => Step::Process(path@),
            Action::Wait => Step::Wait,
            Action::Exit => Step::Exit,
        }
    }
}

/// The number of workers among `states` that are not working.
pub open spec fn idle_among(states: Seq<WorkerState>) -> nat
    decreases states.len(),
{
    if states.len() == 0 {
        0
    } else if states.last() == WorkerState::Working {
        idle_among(states.drop_last())
    } else {
        idle_among(states.drop_last()) + 1
    }
}

/// The processed-directories count after one more directory; it stops at the
/// largest value the counter can hold.
pub open spec fn bumped(count: u64) -> u64 {
    if count < u64::MAX {
        (count + 1) as u64
    } else {
        count
    }
}

/// The mathematical value of a `Pool`.
pub struct PoolView {
    /// The queued directories, head first.
    pub queue: Seq<Seq<char>>,
    /// The state of each worker; the length is the configured worker count.
    pub states: Seq<WorkerState>,
    /// The number of directories traversed so far, for progress display.
    pub processed: u64,
}

impl PoolView {
    /// Every worker is idle or gone: no worker holds work.
    pub open spec fn quiescent(self) -> bool {
        idle_among(self.states) == self.states.len()
    }

    /// What holds of the pool at all times: there is at least one worker, a
    /// quiescent pool has an empty queue, and a worker has left only if the
    /// pool is quiescent.
    pub open spec fn inv(self) -> bool {
        &&& self.states.len() >= 1
        &&& self.quiescent() ==> self.queue.len() == 0
        &&& forall|w: int|
            0 <= w < self.states.len() && self.states[w] == WorkerState::Terminated
                ==> self.quiescent()
    }

    /// The pool with worker `w` in state `state`.
    pub open spec fn with_state(self, w: int, state: WorkerState) -> PoolView {
        PoolView { states: self.states.update(w, state), ..self }
    }

    /// Worker `w` asks for work: the pool after the request, and the answer.
    ///
    /// A worker that has left, or that finds the pool quiescent, is told to
    /// exit. Otherwise the head of the queue, if there is one, goes to the
    /// worker, which counts as working from then on. If the queue is empty
    /// the worker is counted idle; if that makes the pool quiescent the
    /// worker is told to exit at once, else to wait.
    pub open spec fn acquire(self, w: int) -> (PoolView, Step) {
        if self.states[w] == WorkerState::Terminated {
            (self, Step::Exit)
        } else if self.quiescent() {
            (self.with_state(w, WorkerState::Terminated), Step::Exit)
        } else if self.queue.len() > 0 {
            (
                PoolView {
                    queue: self.queue.drop_first(),
                    states: self.states.update(w, WorkerState::Working),
                    processed: self.processed,
                },
                Step::Process(self.queue[0]),
            )
        } else if self.with_state(w, WorkerState::Idle).quiescent() {
            (self.with_state(w, WorkerState::Terminated), Step::Exit)
        } else {
            (self.with_state(w, WorkerState::Idle), Step::Wait)
        }
    }

    /// Worker `w` reports a traversed directory and the subdirectories it
    /// found: the pool after the report, and whether it was accepted. Only a
    /// working worker can publish; a report from any other is refused and
    /// changes nothing.
    pub open spec fn complete(self, w: int, subdirs: Seq<Seq<char>>) -> (PoolView, bool) {
        if self.states[w] == WorkerState::Working {
            (
                PoolView {
                    queue: self.queue + subdirs,
                    states: self.states,
                    processed: bumped(self.processed),
                },
                true,
            )
        } else {
            (self, false)
        }
    }
}

/// The count of idle workers is at most the number of workers, and reaches
/// it exactly when no worker is working.
pub proof fn lemma_idle_among_bounds(states: Seq<WorkerState>)
    ensures
        idle_among(states) <= states.len(),
        idle_among(states) == states.len() <==> forall|w: int|
            0 <= w < states.len() ==> states[w] != WorkerState::Working,
    decreases states.len(),
{
    if states.len() > 0 {
        let earlier = states.drop_last();
        lemma_idle_among_bounds(earlier);
        if idle_among(states) == states.len() {
            assert forall|w: int| 0 <= w < states.len() implies states[w]
                != WorkerState::Working by {
                if w < earlier.len() {
                    assert(earlier[w] == states[w]);
                }
            }
        }
        if forall|w: int| 0 <= w < states.len() ==> states[w] != WorkerState::Working {
            assert forall|w: int| 0 <= w < earlier.len() implies earlier[w]
                != WorkerState::Working by {
                assert(earlier[w] == states[w]);
            }
        }
    }
}

/// Changing one worker's state changes the idle count by that worker alone.
pub proof fn lemma_idle_among_update(states: Seq<WorkerState>, w: int, state: WorkerState)
    requires
        0 <= w < states.len(),
    ensures
        idle_among(states.update(w, state)) + (if states[w] == WorkerState::Working {
            0nat
        } else {
            1nat
        }) == idle_among(states) + (if state == WorkerState::Working {
            0nat
        } else {
            1nat
        }),
    decreases states.len(),
{
    let changed = states.update(w, state);
    if w == states.len() - 1 {
        assert(changed.drop_last() =~= states.drop_last());
    } else {
        lemma_idle_among_update(states.drop_last(), w, state);
        assert(changed.drop_last() =~= states.drop_last().update(w, state));
    }
}

/// The shared state of one scan: the work queue, the state of every worker,
/// the count of idle workers, and the progress counter.
pub struct Pool {
    queue: WorkQueue,
    states: Vec<WorkerState>,
    idle: usize,
    processed: u64,
}

impl View for Pool {
    type V = PoolView;

    closed spec fn view(&self) -> PoolView {
        PoolView { queue: self.queue@, states: self.states@, processed: self.processed }
    }
}

impl Pool {
    /// The idle counter agrees with the workers' states, and the pool's
    /// invariant holds.
    pub closed spec fn wf(&self) -> bool {
        &&& self.idle == idle_among(self.states@)
        &&& self@.inv()
    }

    /// A pool of `workers` working workers whose queue holds `roots`.
    pub fn new(workers: usize, roots: Vec<String>) -> (pool: Pool)
        requires
            workers >= 1,
        ensures
            pool.wf(),
            pool@.inv(),
            pool@.queue == paths_of(roots@),
            pool@.states == Seq::new(workers as nat, |w: int| WorkerState::Working),
            pool@.processed == 0,
    {
        let mut states: Vec<WorkerState> = Vec::new();
        let mut made: usize = 0;
        while made < workers
            invariant
                made <= workers,
                states@ == Seq::new(made as nat, |w: int| WorkerState::Working),
                idle_among(states@) == 0,
            decreases workers - made,
        {
            let ghost before = states@;
            states.push(WorkerState::Working);
            made += 1;
            assert(states@.drop_last() =~= before);
            assert(states@ =~= Seq::new(made as nat, |w: int| WorkerState::Working));
        }
        let mut queue = WorkQueue::new();
        queue.extend(roots);
        assert(queue@ =~= paths_of(roots@));
        Pool { queue, states, idle: 0, processed: 0 }
    }

    /// Worker `worker` asks for work. See `PoolView::acquire`.
    pub fn acquire(&mut self, worker: usize) -> (action: Action)
        requires
            old(self).wf(),
            worker < old(self)@.states.len(),
        ensures
            final(self).wf(),
            final(self)@.inv(),
            final(self)@ == old(self)@.acquire(worker as int).0,
            action@ == old(self)@.acquire(worker as int).1,
    {
        let ghost before = self@;
        let ghost w = worker as int;
        proof {
            lemma_idle_among_bounds(before.states);
            lemma_acquire_keeps_inv(before, w);
        }
        let state = self.states[worker];
        if let WorkerState::Terminated = state {
            return Action::Exit;
        }
        if self.idle == self.states.len() {
            self.states[worker] = WorkerState::Terminated;
            proof {
                lemma_idle_among_update(before.states, w, WorkerState::Terminated);
            }
            return Action::Exit;
        }
        match self.queue.pop() {
            Some(path) => {
                proof {
                    lemma_idle_among_update(before.states, w, WorkerState::Working);
                }
                if let WorkerState::Idle = state {
                    self.idle = self.idle - 1;
                }
                self.states[worker] = WorkerState::Working;
                Action::Process(path)
            },
            None => {
                if let WorkerState::Working = state {
                    self.idle = self.idle + 1;
                }
                proof {
                    lemma_idle_among_update(before.states, w, WorkerState::Idle);
                    lemma_idle_among_bounds(before.states.update(w, WorkerState::Idle));
                    lemma_idle_among_update(before.states, w, WorkerState::Terminated);
                }
                if self.idle == self.states.len() {
                    self.states[worker] = WorkerState::Terminated;
                    Action::Exit
                } else {
                    self.states[worker] = WorkerState::Idle;
                    Action::Wait
                }
            },
        }
    }

    /// Worker `worker` reports a traversed directory and the subdirectories
    /// it found there. See `PoolView::complete`.
    pub fn complete(&mut self, worker: usize, subdirs: Vec<String>) -> (accepted: bool)
        requires
            old(self).wf(),
            worker < old(self)@.states.len(),
        ensures
            final(self).wf(),
            final(self)@.inv(),
            final(self)@ == old(self)@.complete(worker as int, paths_of(subdirs@)).0,
            accepted == old(self)@.complete(worker as int, paths_of(subdirs@)).1,
    {
        proof {
            lemma_complete_keeps_inv(self@, worker as int, paths_of(subdirs@));
        }
        if let WorkerState::Working = self.states[worker] {
            self.queue.extend(subdirs);
            if self.processed < u64::MAX {
                self.processed = self.processed + 1;
            }
            true
        } else {
            false
        }
    }

    /// Whether the pool is quiescent: every worker is idle or gone. Then the
    /// queue is empty and no worker can publish, so the scan is over.
    pub fn is_quiescent(&self) -> (quiescent: bool)
        requires
            self.wf(),
        ensures
            quiescent == self@.quiescent(),
            quiescent ==> self@.queue.len() == 0 && forall|w: int|
                0 <= w < self@.states.len() ==> self@.states[w] != WorkerState::Working,
    {
        proof {
            lemma_idle_among_bounds(self@.states);
        }
        self.idle == self.states.len()
    }

    /// The configured number of workers.
    pub fn workers(&self) -> (n: usize)
        ensures
            n == self@.states.len(),
    {
        self.states.len()
    }

    /// The number of workers that are not working.
    pub fn idle_count(&self) -> (n: usize)
        requires
            self.wf(),
        ensures
            n == idle_among(self@.states),
    {
        self.idle
    }

    /// The state of worker `worker`.
    pub fn state_of(&self, worker: usize) -> (state: WorkerState)
        requires
            worker < self@.states.len(),
        ensures
            state == self@.states[worker as int],
    {
        self.states[worker]
    }

    /// The number of queued directories.
    pub fn pending(&self) -> (n: usize)
        ensures
            n == self@.queue.len(),
    {
        self.queue.len()
    }

    /// The number of directories traversed so far.
    pub fn processed(&self) -> (n: u64)
        ensures
            n == self@.processed,
    {
        self.processed
    }

    /// The number of directories known so far, traversed or queued, for the
    /// length of a progress display; it stops at the largest value a `u64`
    /// holds.
    pub fn total_known(&self) -> (n: u64)
        ensures
            n == if self@.processed + self@.queue.len() <= u64::MAX {
                self@.processed + self@.queue.len()
            } else {
                u64::MAX as int
            },
    {
        let queued: u64 = self.queue.len() as u64;
        if queued > u64::MAX - self.processed {
            u64::MAX
        } else {
            self.processed + queued
        }
    }
}

/// A request for work keeps the pool's invariant.
pub proof fn lemma_acquire_keeps_inv(pool: PoolView, w: int)
    requires
        pool.inv(),
        0 <= w < pool.states.len(),
    ensures
        pool.acquire(w).0.inv(),
{
    let after = pool.acquire(w).0;
    lemma_idle_among_bounds(pool.states);
    lemma_idle_among_bounds(after.states);
    lemma_idle_among_update(pool.states, w, WorkerState::Terminated);
    lemma_idle_among_update(pool.states, w, WorkerState::Idle);
    lemma_idle_among_update(pool.states, w, WorkerState::Working);
    if pool.states[w] == WorkerState::Terminated {
    } else if pool.quiescent() {
    } else if pool.queue.len() > 0 {
        assert(after.states[w] == WorkerState::Working);
        assert forall|v: int|
            0 <= v < after.states.len() && after.states[v]
                == WorkerState::Terminated implies after.quiescent() by {
            assert(pool.states[v] == WorkerState::Terminated);
        }
    } else if pool.with_state(w, WorkerState::Idle).quiescent() {
        lemma_idle_among_bounds(pool.states.update(w, WorkerState::Idle));
        assert forall|v: int| 0 <= v < after.states.len() implies after.states[v]
            != WorkerState::Working by {
            if v != w {
                assert(pool.states.update(w, WorkerState::Idle)[v] != WorkerState::Working);
            }
        }
    } else {
        assert forall|v: int|
            0 <= v < after.states.len() && after.states[v]
                == WorkerState::Terminated implies after.quiescent() by {
            assert(pool.states[v] == WorkerState::Terminated);
        }
    }
}

/// A report of a traversed directory keeps the pool's invariant.
pub proof fn lemma_complete_keeps_inv(pool: PoolView, w: int, subdirs: Seq<Seq<char>>)
    requires
        pool.inv(),
        0 <= w < pool.states.len(),
    ensures
        pool.complete(w, subdirs).0.inv(),
{
    lemma_idle_among_bounds(pool.states);
}

/// Workers are told to exit only at quiescence: whenever the answer to a
/// request is `Exit`, the pool after it is quiescent, its queue is empty and
/// no worker is working.
pub proof fn lemma_exit_means_quiescent(pool: PoolView, w: int)
    requires
        pool.inv(),
        0 <= w < pool.states.len(),
        pool.acquire(w).1 == Step::Exit,
    ensures
        pool.acquire(w).0.quiescent(),
        pool.acquire(w).0.queue.len() == 0,
        forall|v: int|
            0 <= v < pool.states.len() ==> pool.acquire(w).0.states[v] != WorkerState::Working,
{
    let after = pool.acquire(w).0;
    lemma_acquire_keeps_inv(pool, w);
    lemma_idle_among_bounds(pool.states);
    lemma_idle_among_bounds(after.states);
    lemma_idle_among_update(pool.states, w, WorkerState::Terminated);
    lemma_idle_among_update(pool.states, w, WorkerState::Idle);
    if pool.states[w] != WorkerState::Terminated && !pool.quiescent() {
        lemma_idle_among_bounds(pool.states.update(w, WorkerState::Idle));
    }
}

/// Quiescence is final: in a quiescent pool every request is answered with
/// `Exit`, every report is refused, and the pool stays quiescent with its
/// queue and its progress counter unchanged.
pub proof fn lemma_quiescence_is_final(pool: PoolView, w: int, subdirs: Seq<Seq<char>>)
    requires
        pool.inv(),
        pool.quiescent(),
        0 <= w < pool.states.len(),
    ensures
        pool.acquire(w).1 == Step::Exit,
        pool.acquire(w).0.quiescent(),
        pool.acquire(w).0.queue == pool.queue,
        pool.acquire(w).0.processed == pool.processed,
        pool.complete(w, subdirs) == (pool, false),
{
    lemma_idle_among_bounds(pool.states);
    lemma_idle_among_update(pool.states, w, WorkerState::Terminated);
}

/// Work is never taken by two workers nor dropped: a request either hands
/// out the head of the queue and removes exactly it, or leaves the queue as
/// it was.
pub proof fn lemma_acquire_takes_the_head(pool: PoolView, w: int)
    requires
        0 <= w < pool.states.len(),
    ensures
        match pool.acquire(w).1 {
            Step::Process(path) => pool.queue.len() > 0 && path == pool.queue[0] && pool.acquire(
                w,
            ).0.queue == pool.queue.drop_first(),
            _ => pool.acquire(w).0.queue == pool.queue,
        },
{
}

} // verus!
