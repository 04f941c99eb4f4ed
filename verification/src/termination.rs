//! Why every scan of a finite forest ends: each step of a worker either
//! leaves the scan exactly as it was (a worker that has left asks again, or
//! an idle worker finds the queue still empty) or uses up some of a finite
//! amount of effort; and until every worker has left, some worker can take a
//! step of the second kind.

use crate::pool::{
    idle_among, lemma_idle_among_bounds, lemma_idle_among_update, Step, WorkerState,
};
use crate::traversal::{
    lemma_quiescent_scan_is_complete, lemma_start_is_consistent, lemma_step_is_consistent, Event,
    Forest, Scan,
};
use vstd::prelude::*;

verus! {

/// The number of workers among `states` that have left.
pub open spec fn gone_among(states: Seq<WorkerState>) -> nat
    decreases states.len(),
{
    if states.len() == 0 {
        0
    } else if states.last() == WorkerState::Terminated {
        gone_among(states.drop_last()) + 1
    } else {
        gone_among(states.drop_last())
    }
}

/// The number of workers that hold a directory.
pub open spec fn holding_among(holding: Seq<Option<Seq<char>>>) -> nat
    decreases holding.len(),
{
    if holding.len() == 0 {
        0
    } else if holding.last().is_some() {
        holding_among(holding.drop_last()) + 1
    } else {
        holding_among(holding.drop_last())
    }
}

/// At most every worker has left, and every worker has left exactly when the
/// count says so.
pub proof fn lemma_gone_among_bounds(states: Seq<WorkerState>)
    ensures
        gone_among(states) <= states.len(),
        gone_among(states) == states.len() <==> forall|w: int|
            0 <= w < states.len() ==> states[w] == WorkerState::Terminated,
    decreases states.len(),
{
    if states.len() > 0 {
        let earlier = states.drop_last();
        lemma_gone_among_bounds(earlier);
        if gone_among(states) == states.len() {
            assert forall|w: int| 0 <= w < states.len() implies states[w]
                == WorkerState::Terminated by {
                if w < earlier.len() {
                    assert(earlier[w] == states[w]);
                }
            }
        }
        if forall|w: int| 0 <= w < states.len() ==> states[w] == WorkerState::Terminated {
            assert forall|w: int| 0 <= w < earlier.len() implies earlier[w]
                == WorkerState::Terminated by {
                assert(earlier[w] == states[w]);
            }
        }
    }
}

/// Changing one worker's state changes the count of workers that have left
/// by that worker alone.
pub proof fn lemma_gone_among_update(states: Seq<WorkerState>, w: int, state: WorkerState)
    requires
        0 <= w < states.len(),
    ensures
        gone_among(states.update(w, state)) + (if states[w] == WorkerState::Terminated {
            1nat
        } else {
            0nat
        }) == gone_among(states) + (if state == WorkerState::Terminated {
            1nat
        } else {
            0nat
        }),
    decreases states.len(),
{
    let changed = states.update(w, state);
    if w == states.len() - 1 {
        assert(changed.drop_last() =~= states.drop_last());
    } else {
        lemma_gone_among_update(states.drop_last(), w, state);
        assert(changed.drop_last() =~= states.drop_last().update(w, state));
    }
}

/// Changing what one worker holds changes the count of holding workers by
/// that worker alone.
pub proof fn lemma_holding_among_update(
    holding: Seq<Option<Seq<char>>>,
    w: int,
    held: Option<Seq<char>>,
)
    requires
        0 <= w < holding.len(),
    ensures
        holding_among(holding.update(w, held)) + (if holding[w].is_some() {
            1nat
        } else {
            0nat
        }) == holding_among(holding) + (if held.is_some() {
            1nat
        } else {
            0nat
        }),
    decreases holding.len(),
{
    let changed = holding.update(w, held);
    if w == holding.len() - 1 {
        assert(changed.drop_last() =~= holding.drop_last());
    } else {
        lemma_holding_among_update(holding.drop_last(), w, held);
        assert(changed.drop_last() =~= holding.drop_last().update(w, held));
    }
}

impl Scan {
    /// The directories of the forest that no worker has been handed yet.
    pub open spec fn untaken(self, forest: Forest) -> Set<Seq<char>> {
        forest.subdirs.dom().filter(|dir: Seq<char>| !self.held(dir) && !self.done.contains(dir))
    }

    /// A bound on the effective steps that are still to come: three for each
    /// directory not yet handed out (to take it, to report it, and for the
    /// taker to wake up), one for each directory held, one for each worker
    /// still working and one for each worker still there.
    pub open spec fn effort_left(self, forest: Forest) -> nat {
        3 * self.untaken(forest).len() + holding_among(self.holding) + (self.pool.states.len()
            - idle_among(self.pool.states)) as nat + (self.pool.states.len() - gone_among(
            self.pool.states,
        )) as nat
    }

    /// Whether `event` is a step that changes nothing: a worker that has left
    /// asks for work, or an idle worker asks while the queue is empty and
    /// other workers are still working.
    pub open spec fn stutters(self, event: Event) -> bool {
        match event {
            Event::Acquire { worker } => self.pool.states[worker] == WorkerState::Terminated || (
            self.pool.states[worker] == WorkerState::Idle && self.pool.queue.len() == 0
                && !self.pool.quiescent()),
            Event::Complete { worker } => false,
            Event::Abandon { worker } => false,
        }
    }

    /// Whether every worker has left.
    pub open spec fn finished(self) -> bool {
        forall|w: int| 0 <= w < self.pool.states.len() ==> self.pool.states[w]
            == WorkerState::Terminated
    }

    /// The state after the steps `events`, taken from the start in order.
    pub open spec fn after(forest: Forest, workers: nat, events: Seq<Event>) -> Scan
        decreases events.len(),
    {
        if events.len() == 0 {
            Scan::start(forest, workers)
        } else {
            Scan::after(forest, workers, events.drop_last()).next(forest, events.last())
        }
    }

    /// Whether `events` is a possible history of a scan: each step can
    /// happen in the state the steps before it lead to.
    pub open spec fn possible(forest: Forest, workers: nat, events: Seq<Event>) -> bool
        decreases events.len(),
    {
        events.len() == 0 || (Scan::possible(forest, workers, events.drop_last()) && Scan::after(
            forest,
            workers,
            events.drop_last(),
        ).enabled(forest, events.last()))
    }

    /// The number of steps of the history `events` that changed something.
    pub open spec fn effective_steps(forest: Forest, workers: nat, events: Seq<Event>) -> nat
        decreases events.len(),
    {
        if events.len() == 0 {
            0
        } else if Scan::after(forest, workers, events.drop_last()).stutters(events.last()) {
            Scan::effective_steps(forest, workers, events.drop_last())
        } else {
            Scan::effective_steps(forest, workers, events.drop_last()) + 1
        }
    }
}

/// A step that stutters changes nothing; every other step uses up effort.
pub proof fn lemma_step_makes_progress(s: Scan, forest: Forest, event: Event)
    requires
        forest.wf(),
        s.consistent(forest),
        s.enabled(forest, event),
    ensures
        s.stutters(event) ==> s.next(forest, event) == s,
        !s.stutters(event) ==> s.next(forest, event).effort_left(forest) < s.effort_left(forest),
{
    let t = s.next(forest, event);
    let states = s.pool.states;
    lemma_idle_among_bounds(states);
    lemma_gone_among_bounds(states);
    lemma_idle_among_bounds(t.pool.states);
    lemma_gone_among_bounds(t.pool.states);
    match event {
        Event::Acquire { worker: w } => {
            assert forall|dir: Seq<char>| !s.holds(w, dir) by {}
            lemma_idle_among_update(states, w, WorkerState::Terminated);
            lemma_idle_among_update(states, w, WorkerState::Idle);
            lemma_idle_among_update(states, w, WorkerState::Working);
            lemma_gone_among_update(states, w, WorkerState::Terminated);
            lemma_gone_among_update(states, w, WorkerState::Idle);
            lemma_gone_among_update(states, w, WorkerState::Working);
            match s.pool.acquire(w).1 {
                Step::Process(dir) => {
                    lemma_holding_among_update(s.holding, w, Some(dir));
                    assert(s.pool.queue.contains(dir));
                    assert(s.known(dir));
                    assert(!s.held(dir));
                    assert(t.holds(w, dir));
                    assert forall|x: Seq<char>| t.held(x) == (s.held(x) || x == dir) by {
                        if t.held(x) {
                            let v = choose|v: int| t.holds(v, x);
                            if v != w {
                                assert(s.holds(v, x));
                            }
                        }
                        if s.held(x) {
                            let v = choose|v: int| s.holds(v, x);
                            assert(t.holds(v, x));
                        }
                    }
                    assert(t.untaken(forest) =~= s.untaken(forest).remove(dir));
                    assert(s.untaken(forest).contains(dir));
                    assert(s.untaken(forest).finite());
                },
                _ => {
                    assert forall|v: int, x: Seq<char>| t.holds(v, x) == s.holds(v, x) by {}
                    assert forall|x: Seq<char>| t.held(x) == s.held(x) by {
                        if t.held(x) {
                            let v = choose|v: int| t.holds(v, x);
                            assert(s.holds(v, x));
                        }
                        if s.held(x) {
                            let v = choose|v: int| s.holds(v, x);
                            assert(t.holds(v, x));
                        }
                    }
                    assert(t.untaken(forest) =~= s.untaken(forest));
                    if s.stutters(event) {
                        if states[w] != WorkerState::Terminated {
                            assert(states.update(w, WorkerState::Idle) =~= states);
                        }
                        assert(t.pool == s.pool);
                    } else if !s.pool.quiescent() {
                        assert(states[w] == WorkerState::Working);
                    }
                },
            }
        },
        Event::Complete { worker: w } | Event::Abandon { worker: w } => {
            let dir = s.holding[w].unwrap();
            lemma_holding_among_update(s.holding, w, None);
            assert(s.holds(w, dir));
            assert(s.held(dir));
            assert forall|x: Seq<char>| t.held(x) == (s.held(x) && x != dir) by {
                if t.held(x) {
                    let v = choose|v: int| t.holds(v, x);
                    assert(s.holds(v, x));
                    if x == dir {
                        assert(s.holds(w, x));
                    }
                }
                if s.held(x) && x != dir {
                    let v = choose|v: int| s.holds(v, x);
                    assert(t.holds(v, x));
                }
            }
            assert forall|x: Seq<char>| t.done.contains(x) == (s.done.contains(x) || x
                == dir) by {
                if t.done.contains(x) {
                    let i = choose|i: int| 0 <= i < t.done.len() && t.done[i] == x;
                    if i < s.done.len() {
                        assert(s.done[i] == x);
                    }
                }
                if s.done.contains(x) {
                    let i = choose|i: int| 0 <= i < s.done.len() && s.done[i] == x;
                    assert(t.done[i] == x);
                }
                assert(t.done[s.done.len() as int] == dir);
            }
            assert(t.untaken(forest) =~= s.untaken(forest));
        },
    }
}

/// Until every worker has left, some worker can take a step that uses up
/// effort: the scan cannot get stuck.
pub proof fn lemma_some_step_makes_progress(s: Scan, forest: Forest)
    requires
        forest.wf(),
        s.consistent(forest),
        !s.finished(),
    ensures
        exists|event: Event| #[trigger] s.enabled(forest, event) && !s.stutters(event),
{
    lemma_idle_among_bounds(s.pool.states);
    if exists|w: int| 0 <= w < s.holding.len() && (#[trigger] s.holding[w]).is_some() {
        let w = choose|w: int| 0 <= w < s.holding.len() && (#[trigger] s.holding[w]).is_some();
        let event = Event::Complete { worker: w };
        assert(s.enabled(forest, event) && !s.stutters(event));
    } else {
        let w = choose|w: int|
            0 <= w < s.pool.states.len() && s.pool.states[w] != WorkerState::Terminated;
        let event = Event::Acquire { worker: w };
        assert(s.holding[w].is_none());
        if s.stutters(event) {
            let v = choose|v: int|
                0 <= v < s.pool.states.len() && s.pool.states[v] == WorkerState::Working;
            let other = Event::Acquire { worker: v };
            assert(s.holding[v].is_none());
            assert(s.enabled(forest, other) && !s.stutters(other));
        } else {
            assert(s.enabled(forest, event) && !s.stutters(event));
        }
    }
}

/// Once every worker has left, the pool is quiescent, so the scan is
/// complete.
pub proof fn lemma_finished_scan_is_quiescent(s: Scan, forest: Forest)
    requires
        s.consistent(forest),
        s.finished(),
    ensures
        s.pool.quiescent(),
{
    assert(s.pool.states[0] == WorkerState::Terminated);
}

/// Every state that a possible history leads to is consistent.
pub proof fn lemma_history_is_consistent(forest: Forest, workers: nat, events: Seq<Event>)
    requires
        forest.wf(),
        workers >= 1,
        Scan::possible(forest, workers, events),
    ensures
        Scan::after(forest, workers, events).consistent(forest),
    decreases events.len(),
{
    if events.len() == 0 {
        lemma_start_is_consistent(forest, workers);
    } else {
        lemma_history_is_consistent(forest, workers, events.drop_last());
        lemma_step_is_consistent(
            Scan::after(forest, workers, events.drop_last()),
            forest,
            events.last(),
        );
    }
}

/// The effort that a scan starts with: three steps for each directory of the
/// forest and two for each worker.
pub proof fn lemma_effort_at_start(forest: Forest, workers: nat)
    requires
        forest.wf(),
    ensures
        Scan::start(forest, workers).effort_left(forest) == 3 * forest.subdirs.dom().len() + 2
            * workers,
{
    let s = Scan::start(forest, workers);
    assert forall|dir: Seq<char>| !s.held(dir) by {
        if s.held(dir) {
            let w = choose|w: int| s.holds(w, dir);
        }
    }
    assert(s.untaken(forest) =~= forest.subdirs.dom());
    lemma_all_working(workers);
    lemma_none_holding(workers);
}

proof fn lemma_all_working(workers: nat)
    ensures
        idle_among(Seq::new(workers, |w: int| WorkerState::Working)) == 0,
        gone_among(Seq::new(workers, |w: int| WorkerState::Working)) == 0,
    decreases workers,
{
    if workers > 0 {
        lemma_all_working((workers - 1) as nat);
        assert(Seq::new(workers, |w: int| WorkerState::Working).drop_last() =~= Seq::new(
            (workers - 1) as nat,
            |w: int| WorkerState::Working,
        ));
    }
}

proof fn lemma_none_holding(workers: nat)
    ensures
        holding_among(Seq::new(workers, |w: int| None)) == 0,
    decreases workers,
{
    if workers > 0 {
        lemma_none_holding((workers - 1) as nat);
        assert(Seq::new(workers, |w: int| None::<Seq<char>>).drop_last() =~= Seq::new(
            (workers - 1) as nat,
            |w: int| None::<Seq<char>>,
        ));
    }
}

/// Termination: in any possible history of a scan of a finite forest, the
/// steps that changed something number at most three for each directory and
/// two for each worker, however the workers interleave.
pub proof fn lemma_history_is_bounded(forest: Forest, workers: nat, events: Seq<Event>)
    requires
        forest.wf(),
        workers >= 1,
        Scan::possible(forest, workers, events),
    ensures
        Scan::effective_steps(forest, workers, events) + Scan::after(
            forest,
            workers,
            events,
        ).effort_left(forest) <= 3 * forest.subdirs.dom().len() + 2 * workers,
    decreases events.len(),
{
    if events.len() == 0 {
        lemma_effort_at_start(forest, workers);
    } else {
        let earlier = events.drop_last();
        lemma_history_is_bounded(forest, workers, earlier);
        lemma_history_is_consistent(forest, workers, earlier);
        lemma_step_makes_progress(Scan::after(forest, workers, earlier), forest, events.last());
    }
}

/// Correctness of a whole scan: for any number of workers and any finite
/// forest, whenever a possible history has brought the pool to quiescence,
/// every reachable directory has been traversed exactly once, no other
/// directory has been traversed, nothing is queued or held, and the index is
/// that of the files of the traversed directories.
pub proof fn lemma_scan_is_correct(forest: Forest, workers: nat, events: Seq<Event>)
    requires
        forest.wf(),
        workers >= 1,
        Scan::possible(forest, workers, events),
        Scan::after(forest, workers, events).pool.quiescent(),
    ensures
        Scan::after(forest, workers, events).pool.queue.len() == 0,
        Scan::after(forest, workers, events).done.no_duplicates(),
        forall|dir: Seq<char>|
            Scan::after(forest, workers, events).done.contains(dir) <==> forest.reachable(dir),
        Scan::after(forest, workers, events).index == crate::aggregate::index_of(
            forest.files_of_all(Scan::after(forest, workers, events).done),
        ),
{
    lemma_history_is_consistent(forest, workers, events);
    lemma_quiescent_scan_is_complete(Scan::after(forest, workers, events), forest);
}

} // verus!
