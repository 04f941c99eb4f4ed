//! The work queue: a first-in, first-out line of directories that await
//! traversal. Every directory pushed is popped exactly once, in the order of
//! pushing.

use crate::model::paths_of;
use std::collections::VecDeque;
use vstd::prelude::*;

verus! {

pub struct WorkQueue {
    items: VecDeque<String>,
}

impl View for WorkQueue {
    type V = Seq<Seq<char>>;

    /// The queued directories, head first.
    closed spec fn view(&self) -> Seq<Seq<char>> {
        paths_of(self.items@)
    }
}

impl WorkQueue {
    /// An empty queue.
    pub fn new() -> (queue: WorkQueue)
        ensures
            queue@ == Seq::<Seq<char>>::empty(),
    {
        let queue = WorkQueue { items: VecDeque::new() };
        assert(queue@ =~= Seq::<Seq<char>>::empty());
        queue
    }

    /// Appends one directory at the tail.
    pub fn push(&mut self, path: String)
        ensures
            final(self)@ == old(self)@.push(path@),
    {
        self.items.push_back(path);
        assert(self@ =~= old(self)@.push(path@));
    }

    /// Appends every directory of `paths` at the tail, in order.
    pub fn extend(&mut self, paths: Vec<String>)
        ensures
            final(self)@ == old(self)@ + paths_of(paths@),
    {
        let ghost start = self@;
        let ghost all = paths_of(paths@);
        for path in it: paths.into_iter()
            invariant
                it.seq() == paths@,
                all == paths_of(paths@),
                self@ == start + all.take(it.index() as int),
        {
            let ghost done = it.index() as int;
            self.push(path);
            assert(self@ =~= start + all.take(done + 1));
        }
        assert(all.take(paths@.len() as int) =~= all);
    }

    /// Removes and returns the head directory, or `None` when the queue is
    /// empty.
    pub fn pop(&mut self) -> (head: Option<String>)
        ensures
            match head {
                Some(path) => old(self)@.len() > 0 && path@ == old(self)@[0] && final(self)@
                    == old(self)@.drop_first(),
                None => old(self)@.len() == 0 && final(self)@ == old(self)@,
            },
    {
        let head = self.items.pop_front();
        assert(head.is_some() ==> self@ =~= old(self)@.drop_first());
        head
    }

    /// The number of queued directories.
    pub fn len(&self) -> (n: usize)
        ensures
            n == self@.len(),
    {
        self.items.len()
    }

    /// Whether no directory is queued.
    pub fn is_empty(&self) -> (empty: bool)
        ensures
            empty == (self@.len() == 0),
    {
        self.items.len() == 0
    }
}

} // verus!
