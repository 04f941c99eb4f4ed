//! The scan as a whole, as a transition system over the pool: any number of
//! workers interleave their steps in any order. A worker asks the pool for
//! work, and then either reports the directory it was handed as traversed or
//! gives it up as unlistable. The laws proved here say that whatever the
//! interleaving, no directory is lost or traversed twice, and that when the
//! pool is quiescent every reachable directory has been traversed exactly
//! once and the index holds exactly the files found in them.

use crate::aggregate::record_each;
use crate::model::FileRecord;
use crate::pool::{
    lemma_acquire_keeps_inv, lemma_complete_keeps_inv, lemma_idle_among_bounds, PoolView, Step,
    WorkerState,
};
use vstd::prelude::*;

verus! {

/// What a scan finds on disk: the start directories, and for every directory
/// the subdirectories that its traversal queues and the files that its
/// traversal records. A directory that cannot be listed has neither.
pub struct Forest {
    pub roots: Seq<Seq<char>>,
    pub subdirs: Map<Seq<char>, Seq<Seq<char>>>,
    pub files: Map<Seq<char>, Seq<FileRecord>>,
}

impl Forest {
    /// The subdirectories queued by a traversal of `dir`.
    pub open spec fn children(self, dir: Seq<char>) -> Seq<Seq<char>> {
        if self.subdirs.contains_key(dir) {
            self.subdirs[dir]
        } else {
            Seq::empty()
        }
    }

    /// The files recorded by a traversal of `dir`.
    pub open spec fn files_in(self, dir: Seq<char>) -> Seq<FileRecord> {
        if self.files.contains_key(dir) {
            self.files[dir]
        } else {
            Seq::empty()
        }
    }

    /// Whether a traversal of `parent` queues `child`.
    pub open spec fn is_child(self, parent: Seq<char>, child: Seq<char>) -> bool {
        self.children(parent).contains(child)
    }

    /// The directories form a finite forest: finitely many directories, no
    /// start directory given twice or found below another directory, no
    /// directory listed twice by its parent or listed by two parents.
    pub open spec fn wf(self) -> bool {
        &&& self.subdirs.dom().finite()
        &&& self.roots.no_duplicates()
        &&& forall|root: Seq<char>| #[trigger]
            self.roots.contains(root) ==> self.subdirs.contains_key(root)
        &&& forall|parent: Seq<char>, child: Seq<char>| #[trigger]
            self.is_child(parent, child) ==> self.subdirs.contains_key(child)
                && !self.roots.contains(child)
        &&& forall|parent: Seq<char>| (#[trigger] self.children(parent)).no_duplicates()
        &&& forall|first: Seq<char>, second: Seq<char>, child: Seq<char>|
            #![trigger self.is_child(first, child), self.is_child(second, child)]
            self.is_child(first, child) && self.is_child(second, child) ==> first == second
    }

    /// Whether `dir` lies `depth` levels below a start directory.
    pub open spec fn reached_at(self, dir: Seq<char>, depth: nat) -> bool
        decreases depth,
    {
        if depth == 0 {
            self.roots.contains(dir)
        } else {
            exists|parent: Seq<char>|
                self.reached_at(parent, (depth - 1) as nat) && #[trigger] self.is_child(
                    parent,
                    dir,
                )
        }
    }

    /// Whether `dir` is a start directory or lies below one.
    pub open spec fn reachable(self, dir: Seq<char>) -> bool {
        exists|depth: nat| #[trigger] self.reached_at(dir, depth)
    }

    /// The files of the directories `dirs`, directory after directory.
    pub open spec fn files_of_all(self, dirs: Seq<Seq<char>>) -> Seq<FileRecord>
        decreases dirs.len(),
    {
        if dirs.len() == 0 {
            Seq::empty()
        } else {
            self.files_of_all(dirs.drop_last()) + self.files_in(dirs.last())
        }
    }
}

/// One step of one worker.
pub enum Event {
    /// The worker asks the pool for work.
    Acquire { worker: int },
    /// The worker reports the directory it holds as traversed, publishing its
    /// subdirectories and recording its files.
    Complete { worker: int },
    /// The worker gives up the directory it holds because it cannot be
    /// listed, and reports nothing to the pool.
    Abandon { worker: int },
}

/// The state of a scan in progress.
pub struct Scan {
    /// The pool shared by the workers.
    pub pool: PoolView,
    /// For each worker, the directory it was handed and has not yet reported.
    pub holding: Seq<Option<Seq<char>>>,
    /// The directories reported as traversed, in the order of the reports.
    pub done: Seq<Seq<char>>,
    /// The index of the files recorded so far.
    pub index: Map<Seq<char>, Seq<FileRecord>>,
}

impl Scan {
    /// The state before any worker has moved: the start directories are
    /// queued, all `workers` workers are working, nothing is recorded.
    pub open spec fn start(forest: Forest, workers: nat) -> Scan {
        Scan {
            pool: PoolView {
                queue: forest.roots,
                states: Seq::new(workers, |w: int| WorkerState::Working),
                processed: 0,
            },
            holding: Seq::new(workers, |w: int| None),
            done: Seq::empty(),
            index: Map::empty(),
        }
    }

    /// Whether worker `w` holds `dir`.
    pub open spec fn holds(self, w: int, dir: Seq<char>) -> bool {
        0 <= w < self.holding.len() && self.holding[w] == Some(dir)
    }

    /// Whether some worker holds `dir`.
    pub open spec fn held(self, dir: Seq<char>) -> bool {
        exists|w: int| self.holds(w, dir)
    }

    /// Whether the scan has come across `dir`: it is queued, held or done.
    pub open spec fn known(self, dir: Seq<char>) -> bool {
        self.pool.queue.contains(dir) || self.held(dir) || self.done.contains(dir)
    }

    /// Whether `event` can happen: a worker asks for work only while it holds
    /// nothing, reports only a directory it holds, and gives up only a
    /// directory it holds in which the scan finds nothing.
    pub open spec fn enabled(self, forest: Forest, event: Event) -> bool {
        match event {
            Event::Acquire { worker } => 0 <= worker < self.holding.len()
                && self.holding[worker].is_none(),
            Event::Complete { worker } => 0 <= worker < self.holding.len()
                && self.holding[worker].is_some(),
            Event::Abandon { worker } => 0 <= worker < self.holding.len()
                && self.holding[worker].is_some() && forest.children(
                self.holding[worker].unwrap(),
            ).len() == 0 && forest.files_in(self.holding[worker].unwrap()).len() == 0,
        }
    }

    /// The state after `event`.
    pub open spec fn next(self, forest: Forest, event: Event) -> Scan {
        match event {
            Event::Acquire { worker } => {
                let (pool, step) = self.pool.acquire(worker);
                match step {
                    Step::Process(dir) => Scan {
                        pool,
                        holding: self.holding.update(worker, Some(dir)),
                        ..self
                    },
                    _ => Scan { pool, ..self },
                }
            },
            Event::Complete { worker } => {
                let dir = self.holding[worker].unwrap();
                Scan {
                    pool: self.pool.complete(worker, forest.children(dir)).0,
                    holding: self.holding.update(worker, None),
                    done: self.done.push(dir),
                    index: record_each(self.index, forest.files_in(dir)),
                }
            },
            Event::Abandon { worker } => Scan {
                holding: self.holding.update(worker, None),
                done: self.done.push(self.holding[worker].unwrap()),
                ..self
            },
        }
    }

    /// What holds of every state of a scan of `forest`.
    ///
    /// The pool's own invariant holds and only working workers hold a
    /// directory. A directory is in at most one place (queued, held by one
    /// worker, or done) and there at most once. Every known directory is
    /// reachable; every start directory is known; the subdirectories of a
    /// done directory are known; and a known directory that is no start
    /// directory has its parent among the done. The index holds the files of
    /// the done directories.
    pub open spec fn consistent(self, forest: Forest) -> bool {
        &&& self.pool.inv()
        &&& self.holding.len() == self.pool.states.len()
        &&& forall|w: int, dir: Seq<char>| #[trigger]
            self.holds(w, dir) ==> self.pool.states[w] == WorkerState::Working
        &&& self.pool.queue.no_duplicates()
        &&& self.done.no_duplicates()
        &&& forall|v: int, w: int, dir: Seq<char>|
            #![trigger self.holds(v, dir), self.holds(w, dir)]
            self.holds(v, dir) && self.holds(w, dir) ==> v == w
        &&& forall|dir: Seq<char>| #[trigger]
            self.held(dir) ==> !self.pool.queue.contains(dir) && !self.done.contains(dir)
        &&& forall|dir: Seq<char>|
            !(#[trigger] self.pool.queue.contains(dir) && self.done.contains(dir))
        &&& forall|dir: Seq<char>| #[trigger]
            self.known(dir) ==> forest.reachable(dir) && forest.subdirs.contains_key(dir)
        &&& forall|root: Seq<char>| #[trigger] forest.roots.contains(root) ==> self.known(root)
        &&& forall|parent: Seq<char>, child: Seq<char>|
            self.done.contains(parent) && #[trigger] forest.is_child(parent, child)
                ==> self.known(child)
        &&& forall|dir: Seq<char>| #[trigger]
            self.known(dir) && !forest.roots.contains(dir) ==> exists|parent: Seq<char>|
                self.done.contains(parent) && #[trigger] forest.is_child(parent, dir)
        &&& self.index == record_each(Map::empty(), forest.files_of_all(self.done))
    }
}

/// Recording one batch of files after another is recording them all in one
/// go.
pub proof fn lemma_record_each_concat(
    index: Map<Seq<char>, Seq<FileRecord>>,
    first: Seq<FileRecord>,
    second: Seq<FileRecord>,
)
    ensures
        record_each(index, first + second) == record_each(record_each(index, first), second),
    decreases second.len(),
{
    if second.len() == 0 {
        assert(first + second =~= first);
    } else {
        lemma_record_each_concat(index, first, second.drop_last());
        assert((first + second).drop_last() =~= first + second.drop_last());
        assert((first + second).last() == second.last());
    }
}

/// The start state of a scan is consistent.
pub proof fn lemma_start_is_consistent(forest: Forest, workers: nat)
    requires
        forest.wf(),
        workers >= 1,
    ensures
        Scan::start(forest, workers).consistent(forest),
{
    let s = Scan::start(forest, workers);
    lemma_idle_among_bounds(s.pool.states);
    assert(s.pool.states[0] == WorkerState::Working);
    assert(!s.pool.quiescent());
    assert forall|dir: Seq<char>| #[trigger] s.known(dir) implies forest.reachable(dir)
        && forest.subdirs.contains_key(dir) by {
        assert(forest.roots.contains(dir));
        assert(forest.reached_at(dir, 0));
    }
}

/// An effective request for work moves the head of the queue into the hands
/// of the worker and changes nothing else about what is known.
proof fn lemma_acquire_consistent(s: Scan, forest: Forest, w: int)
    requires
        forest.wf(),
        s.consistent(forest),
        s.enabled(forest, Event::Acquire { worker: w }),
    ensures
        s.next(forest, Event::Acquire { worker: w }).consistent(forest),
{
    let t = s.next(forest, Event::Acquire { worker: w });
    lemma_acquire_keeps_inv(s.pool, w);
    assert forall|dir: Seq<char>| !s.holds(w, dir) by {}
    match s.pool.acquire(w).1 {
        Step::Process(dir) => {
            assert(dir == s.pool.queue[0]);
            assert(s.pool.queue.contains(dir));
            assert(t.holds(w, dir));
            assert forall|x: Seq<char>| t.pool.queue.contains(x) implies s.pool.queue.contains(
                x,
            ) && x != dir by {
                let i = choose|i: int| 0 <= i < t.pool.queue.len() && t.pool.queue[i] == x;
                assert(s.pool.queue[i + 1] == x);
            }
            assert forall|v: int, x: Seq<char>| t.holds(v, x) implies (v == w && x == dir)
                || s.holds(v, x) by {}
            assert forall|v: int, x: Seq<char>| s.holds(v, x) implies t.holds(v, x) by {}
            assert forall|x: Seq<char>| t.held(x) implies x == dir || s.held(x) by {
                let v = choose|v: int| t.holds(v, x);
                if !(v == w && x == dir) {
                    assert(s.holds(v, x));
                }
            }
            assert forall|x: Seq<char>| s.held(x) implies t.held(x) by {
                let v = choose|v: int| s.holds(v, x);
                assert(t.holds(v, x));
            }
            assert(!s.held(dir));
            assert forall|x: Seq<char>| s.pool.queue.contains(x) && x != dir implies t.pool.queue.contains(
                x,
            ) by {
                let i = choose|i: int| 0 <= i < s.pool.queue.len() && s.pool.queue[i] == x;
                assert(i > 0);
                assert(t.pool.queue[i - 1] == x);
            }
            assert forall|x: Seq<char>| t.known(x) == s.known(x) by {
                if t.known(x) {
                    assert(s.known(x));
                }
                if s.known(x) {
                    if x == dir {
                        assert(t.held(x));
                    }
                    assert(t.known(x));
                }
            }
            assert(t.pool.queue.no_duplicates()) by {
                assert forall|i: int, j: int|
                    0 <= i < t.pool.queue.len() && 0 <= j < t.pool.queue.len() && i
                        != j implies t.pool.queue[i] != t.pool.queue[j] by {
                    assert(s.pool.queue[i + 1] != s.pool.queue[j + 1]);
                }
            }
            assert forall|v: int, x: Seq<char>| #[trigger] t.holds(v, x) implies t.pool.states[v]
                == WorkerState::Working by {
                if v != w {
                    assert(s.holds(v, x));
                }
            }
            assert forall|a: int, b: int, x: Seq<char>|
                #![trigger t.holds(a, x), t.holds(b, x)]
                t.holds(a, x) && t.holds(b, x) implies a == b by {
                if a != w && b != w {
                    assert(s.holds(a, x) && s.holds(b, x));
                } else if a != b {
                    let other = if a == w {
                        b
                    } else {
                        a
                    };
                    assert(s.holds(other, x));
                    assert(s.held(x));
                }
            }
            assert forall|x: Seq<char>| #[trigger] t.held(x) implies !t.pool.queue.contains(x)
                && !t.done.contains(x) by {
                if x != dir {
                    assert(s.held(x));
                }
            }
            assert forall|x: Seq<char>| #[trigger]
                t.known(x) && !forest.roots.contains(x) implies exists|parent: Seq<char>|
                t.done.contains(parent) && #[trigger] forest.is_child(parent, x) by {
                assert(s.known(x));
            }
            assert forall|parent: Seq<char>, child: Seq<char>|
                t.done.contains(parent) && #[trigger] forest.is_child(
                    parent,
                    child,
                ) implies t.known(child) by {
                assert(s.known(child));
            }
            assert forall|x: Seq<char>| #[trigger] t.known(x) implies forest.reachable(x)
                && forest.subdirs.contains_key(x) by {
                assert(s.known(x));
            }
            assert forall|root: Seq<char>| #[trigger] forest.roots.contains(root) implies t.known(
                root,
            ) by {
                assert(s.known(root));
            }
        },
        _ => {
            assert(t.holding == s.holding);
            assert(t.pool.queue == s.pool.queue);
            assert forall|v: int, x: Seq<char>| t.holds(v, x) == s.holds(v, x) by {}
            assert forall|x: Seq<char>| t.held(x) == s.held(x) by {
                if t.held(x) {
                    let v = choose|v: int| t.holds(v, x);
                    assert(s.holds(v, x));
                }
                if s.held(x) {
                    let v = choose|v: int| s.holds(v, x);
                    assert(t.holds(v, x));
                }
            }
            assert forall|x: Seq<char>| t.known(x) == s.known(x) by {}
            assert forall|v: int, x: Seq<char>| #[trigger] t.holds(v, x) implies t.pool.states[v]
                == WorkerState::Working by {
                assert(s.holds(v, x));
                assert(v != w);
            }
            assert forall|a: int, b: int, x: Seq<char>|
                #![trigger t.holds(a, x), t.holds(b, x)]
                t.holds(a, x) && t.holds(b, x) implies a == b by {
                assert(s.holds(a, x) && s.holds(b, x));
            }
            assert forall|x: Seq<char>| #[trigger] t.held(x) implies !t.pool.queue.contains(x)
                && !t.done.contains(x) by {
                assert(s.held(x));
            }
            assert forall|x: Seq<char>| #[trigger]
                t.known(x) && !forest.roots.contains(x) implies exists|parent: Seq<char>|
                t.done.contains(parent) && #[trigger] forest.is_child(parent, x) by {
                assert(s.known(x));
            }
            assert forall|parent: Seq<char>, child: Seq<char>|
                t.done.contains(parent) && #[trigger] forest.is_child(
                    parent,
                    child,
                ) implies t.known(child) by {
                assert(s.known(child));
            }
            assert forall|x: Seq<char>| #[trigger] t.known(x) implies forest.reachable(x)
                && forest.subdirs.contains_key(x) by {
                assert(s.known(x));
            }
            assert forall|root: Seq<char>| #[trigger] forest.roots.contains(root) implies t.known(
                root,
            ) by {
                assert(s.known(root));
            }
        },
    }
}

/// Letting go of a directory moves it from the worker's hands to the done,
/// queues its subdirectories, none of which was known before, and records
/// its files.
proof fn lemma_release_consistent(s: Scan, forest: Forest, w: int, t: Scan)
    requires
        forest.wf(),
        s.consistent(forest),
        0 <= w < s.holding.len(),
        s.holding[w].is_some(),
        t.pool.inv(),
        t.pool.queue == s.pool.queue + forest.children(s.holding[w].unwrap()),
        t.pool.states == s.pool.states,
        t.holding == s.holding.update(w, None),
        t.done == s.done.push(s.holding[w].unwrap()),
        t.index == record_each(s.index, forest.files_in(s.holding[w].unwrap())),
    ensures
        t.consistent(forest),
{
    let dir = s.holding[w].unwrap();
    let found = forest.children(dir);
    assert(s.holds(w, dir));
    assert(s.held(dir));
    assert(s.known(dir));
    // None of the subdirectories found was known.
    assert forall|child: Seq<char>| found.contains(child) implies !s.known(child) by {
        assert(forest.is_child(dir, child));
        if s.known(child) {
            let parent = choose|parent: Seq<char>|
                s.done.contains(parent) && #[trigger] forest.is_child(parent, child);
            assert(parent == dir);
        }
    }
    assert forall|v: int, x: Seq<char>| t.holds(v, x) implies s.holds(v, x) && v != w by {}
    assert forall|v: int, x: Seq<char>| s.holds(v, x) && v != w implies t.holds(v, x) by {}
    assert forall|x: Seq<char>| t.held(x) implies s.held(x) && x != dir by {
        let v = choose|v: int| t.holds(v, x);
        assert(s.holds(v, x));
        if x == dir {
            assert(s.holds(w, x));
        }
    }
    assert forall|x: Seq<char>| s.held(x) && x != dir implies t.held(x) by {
        let v = choose|v: int| s.holds(v, x);
        assert(t.holds(v, x));
    }
    assert forall|x: Seq<char>| t.pool.queue.contains(x) == (s.pool.queue.contains(x)
        || found.contains(x)) by {
        if t.pool.queue.contains(x) {
            let i = choose|i: int| 0 <= i < t.pool.queue.len() && t.pool.queue[i] == x;
            if i < s.pool.queue.len() {
                assert(s.pool.queue[i] == x);
            } else {
                assert(found[i - s.pool.queue.len()] == x);
            }
        }
        if s.pool.queue.contains(x) {
            let i = choose|i: int| 0 <= i < s.pool.queue.len() && s.pool.queue[i] == x;
            assert(t.pool.queue[i] == x);
        }
        if found.contains(x) {
            let i = choose|i: int| 0 <= i < found.len() && found[i] == x;
            assert(t.pool.queue[s.pool.queue.len() + i] == x);
        }
    }
    assert forall|x: Seq<char>| t.done.contains(x) == (s.done.contains(x) || x == dir) by {
        if t.done.contains(x) {
            let i = choose|i: int| 0 <= i < t.done.len() && t.done[i] == x;
            if i < s.done.len() {
                assert(s.done[i] == x);
            }
        }
        if s.done.contains(x) {
            let i = choose|i: int| 0 <= i < s.done.len() && s.done[i] == x;
            assert(t.done[i] == x);
        }
        assert(t.done[s.done.len() as int] == dir);
    }
    assert forall|x: Seq<char>| t.known(x) == (s.known(x) || found.contains(x)) by {
        if s.known(x) {
            if s.held(x) && x != dir {
                assert(t.held(x));
            }
            assert(t.known(x));
        }
    }
    assert(t.pool.queue.no_duplicates()) by {
        assert forall|i: int, j: int|
            0 <= i < t.pool.queue.len() && 0 <= j < t.pool.queue.len() && i
                != j implies t.pool.queue[i] != t.pool.queue[j] by {
            let n = s.pool.queue.len() as int;
            if i < n && j < n {
            } else if i >= n && j >= n {
                assert(found[i - n] != found[j - n]);
            } else if i < n {
                assert(s.pool.queue.contains(s.pool.queue[i]));
                assert(found.contains(found[j - n]));
            } else {
                assert(s.pool.queue.contains(s.pool.queue[j]));
                assert(found.contains(found[i - n]));
            }
        }
    }
    assert(t.done.no_duplicates()) by {
        assert forall|i: int, j: int|
            0 <= i < t.done.len() && 0 <= j < t.done.len() && i != j implies t.done[i]
            != t.done[j] by {
            let n = s.done.len() as int;
            if i < n {
                assert(s.done.contains(s.done[i]));
            }
            if j < n {
                assert(s.done.contains(s.done[j]));
            }
        }
    }
    assert forall|v: int, x: Seq<char>| #[trigger] t.holds(v, x) implies t.pool.states[v]
        == WorkerState::Working by {
        assert(s.holds(v, x));
    }
    assert forall|a: int, b: int, x: Seq<char>|
        #![trigger t.holds(a, x), t.holds(b, x)]
        t.holds(a, x) && t.holds(b, x) implies a == b by {
        assert(s.holds(a, x) && s.holds(b, x));
    }
    assert forall|x: Seq<char>| #[trigger] t.held(x) implies !t.pool.queue.contains(x)
        && !t.done.contains(x) by {
        assert(s.held(x) && x != dir);
        assert(s.known(x));
    }
    assert forall|x: Seq<char>|
        !(#[trigger] t.pool.queue.contains(x) && t.done.contains(x)) by {
        if t.pool.queue.contains(x) && t.done.contains(x) {
            if s.pool.queue.contains(x) {
                assert(s.known(x));
            } else {
                assert(found.contains(x));
                assert(!s.known(x));
            }
        }
    }
    assert forall|x: Seq<char>| #[trigger] t.known(x) implies forest.reachable(x)
        && forest.subdirs.contains_key(x) by {
        if !s.known(x) {
            assert(found.contains(x));
            assert(forest.is_child(dir, x));
            let depth = choose|depth: nat| #[trigger] forest.reached_at(dir, depth);
            assert(forest.reached_at(x, depth + 1));
        }
    }
    assert forall|root: Seq<char>| #[trigger] forest.roots.contains(root) implies t.known(
        root,
    ) by {
        assert(s.known(root));
    }
    assert forall|parent: Seq<char>, child: Seq<char>|
        t.done.contains(parent) && #[trigger] forest.is_child(parent, child) implies t.known(
        child,
    ) by {
        if parent == dir {
            assert(found.contains(child));
        } else {
            assert(s.known(child));
        }
    }
    assert forall|x: Seq<char>| #[trigger]
        t.known(x) && !forest.roots.contains(x) implies exists|parent: Seq<char>|
        t.done.contains(parent) && #[trigger] forest.is_child(parent, x) by {
        if s.known(x) {
            let parent = choose|parent: Seq<char>|
                s.done.contains(parent) && #[trigger] forest.is_child(parent, x);
            assert(t.done.contains(parent));
        } else {
            assert(forest.is_child(dir, x));
            assert(t.done.contains(dir));
        }
    }
    assert(t.index == record_each(Map::empty(), forest.files_of_all(t.done))) by {
        assert(t.done.drop_last() =~= s.done);
        lemma_record_each_concat(
            Map::empty(),
            forest.files_of_all(s.done),
            forest.files_in(dir),
        );
    }
}

/// No step of any worker breaks the scan's invariant.
pub proof fn lemma_step_is_consistent(s: Scan, forest: Forest, event: Event)
    requires
        forest.wf(),
        s.consistent(forest),
        s.enabled(forest, event),
    ensures
        s.next(forest, event).consistent(forest),
{
    let t = s.next(forest, event);
    match event {
        Event::Acquire { worker } => lemma_acquire_consistent(s, forest, worker),
        Event::Complete { worker } => {
            let dir = s.holding[worker].unwrap();
            assert(s.holds(worker, dir));
            lemma_complete_keeps_inv(s.pool, worker, forest.children(dir));
            lemma_release_consistent(s, forest, worker, t);
        },
        Event::Abandon { worker } => {
            let dir = s.holding[worker].unwrap();
            assert(s.pool.queue + forest.children(dir) =~= s.pool.queue);
            lemma_release_consistent(s, forest, worker, t);
        },
    }
}

/// A set of directories that holds the start directories and, with each
/// directory, its subdirectories, holds every reachable directory.
proof fn lemma_closed_holds_reachable(forest: Forest, done: Seq<Seq<char>>, dir: Seq<char>, depth: nat)
    requires
        forall|root: Seq<char>| #[trigger] forest.roots.contains(root) ==> done.contains(root),
        forall|parent: Seq<char>, child: Seq<char>|
            done.contains(parent) && #[trigger] forest.is_child(parent, child) ==> done.contains(
                child,
            ),
        forest.reached_at(dir, depth),
    ensures
        done.contains(dir),
    decreases depth,
{
    if depth > 0 {
        let parent = choose|parent: Seq<char>|
            forest.reached_at(parent, (depth - 1) as nat) && #[trigger] forest.is_child(
                parent,
                dir,
            );
        lemma_closed_holds_reachable(forest, done, parent, (depth - 1) as nat);
    }
}

/// Quiescence means the scan is complete: when the pool is quiescent nothing
/// is queued or held, the directories traversed are exactly the reachable
/// ones, each traversed once, and the index holds exactly their files.
pub proof fn lemma_quiescent_scan_is_complete(s: Scan, forest: Forest)
    requires
        forest.wf(),
        s.consistent(forest),
        s.pool.quiescent(),
    ensures
        s.pool.queue.len() == 0,
        forall|w: int| 0 <= w < s.holding.len() ==> s.holding[w].is_none(),
        s.done.no_duplicates(),
        forall|dir: Seq<char>| s.done.contains(dir) <==> forest.reachable(dir),
        s.index == record_each(Map::empty(), forest.files_of_all(s.done)),
{
    lemma_idle_among_bounds(s.pool.states);
    assert forall|w: int| 0 <= w < s.holding.len() implies s.holding[w].is_none() by {
        if s.holding[w].is_some() {
            assert(s.holds(w, s.holding[w].unwrap()));
        }
    }
    assert forall|dir: Seq<char>| !s.held(dir) by {
        if s.held(dir) {
            let w = choose|w: int| s.holds(w, dir);
            assert(s.holding[w].is_none());
        }
    }
    assert forall|dir: Seq<char>| s.known(dir) == s.done.contains(dir) by {
        if s.pool.queue.contains(dir) {
            let i = choose|i: int| 0 <= i < s.pool.queue.len() && s.pool.queue[i] == dir;
        }
    }
    assert forall|dir: Seq<char>| s.done.contains(dir) <==> forest.reachable(dir) by {
        if s.done.contains(dir) {
            assert(s.known(dir));
        }
        if forest.reachable(dir) {
            let depth = choose|depth: nat| #[trigger] forest.reached_at(dir, depth);
            assert forall|root: Seq<char>| #[trigger]
                forest.roots.contains(root) implies s.done.contains(root) by {
                assert(s.known(root));
            }
            assert forall|parent: Seq<char>, child: Seq<char>|
                s.done.contains(parent) && #[trigger] forest.is_child(
                    parent,
                    child,
                ) implies s.done.contains(child) by {
                assert(s.known(child));
            }
            lemma_closed_holds_reachable(forest, s.done, dir, depth);
        }
    }
}

} // verus!
