//! What the index of a finished scan holds, file by file: every file of every
//! reachable directory exactly once and nothing else, and the same whichever
//! way the workers interleaved.

use crate::aggregate::{
    index_of, lemma_every_file_indexed_once, lemma_index_holds_only_recorded,
    lemma_index_ignores_order,
};
use crate::model::FileRecord;
use crate::termination::lemma_scan_is_correct;
use crate::traversal::{Event, Forest, Scan};
use vstd::prelude::*;
use vstd::seq_lib::{lemma_multiset_commutative, to_multiset_build, to_multiset_remove};

verus! {

impl Forest {
    /// No file is found twice, neither in one directory nor in two.
    pub open spec fn files_are_distinct(self) -> bool {
        forall|first: Seq<char>, i: int, second: Seq<char>, j: int|
            #![trigger self.files_in(first)[i], self.files_in(second)[j]]
            0 <= i < self.files_in(first).len() && 0 <= j < self.files_in(second).len()
                && self.files_in(first)[i] == self.files_in(second)[j] ==> first == second && i
                == j
    }

    /// How often `file` occurs among the files of the directories `dirs`.
    pub open spec fn occurrences(self, dirs: Seq<Seq<char>>, file: FileRecord) -> nat {
        self.files_of_all(dirs).to_multiset().count(file)
    }
}

/// The files of a sequence of directories are those of all but the last,
/// and those of the last.
proof fn lemma_occurrences_split(forest: Forest, dirs: Seq<Seq<char>>, file: FileRecord)
    requires
        dirs.len() > 0,
    ensures
        forest.occurrences(dirs, file) == forest.occurrences(dirs.drop_last(), file)
            + forest.files_in(dirs.last()).to_multiset().count(file),
{
    lemma_multiset_commutative(forest.files_of_all(dirs.drop_last()), forest.files_in(dirs.last()));
}

/// Taking one directory out of a sequence takes out its files and no others.
proof fn lemma_occurrences_remove(forest: Forest, dirs: Seq<Seq<char>>, at: int, file: FileRecord)
    requires
        0 <= at < dirs.len(),
    ensures
        forest.occurrences(dirs, file) == forest.occurrences(dirs.remove(at), file)
            + forest.files_in(dirs[at]).to_multiset().count(file),
    decreases dirs.len(),
{
    lemma_occurrences_split(forest, dirs, file);
    if at == dirs.len() - 1 {
        assert(dirs.remove(at) =~= dirs.drop_last());
    } else {
        lemma_occurrences_remove(forest, dirs.drop_last(), at, file);
        let shorter = dirs.remove(at);
        assert(shorter.drop_last() =~= dirs.drop_last().remove(at));
        assert(shorter.last() == dirs.last());
        lemma_occurrences_split(forest, shorter, file);
    }
}

/// The order in which directories are traversed does not change how often a
/// file is found.
proof fn lemma_occurrences_ignore_order(
    forest: Forest,
    first: Seq<Seq<char>>,
    second: Seq<Seq<char>>,
    file: FileRecord,
)
    requires
        first.to_multiset() == second.to_multiset(),
    ensures
        forest.occurrences(first, file) == forest.occurrences(second, file),
    decreases first.len(),
{
    first.to_multiset_ensures();
    second.to_multiset_ensures();
    if first.len() == 0 {
        assert(second.len() == 0);
        assert(first =~= second);
    } else {
        let dir = first.last();
        let earlier = first.drop_last();
        assert(first =~= earlier.push(dir));
        to_multiset_build(earlier, dir);
        assert(first.contains(dir));
        assert(first.to_multiset().count(dir) > 0);
        assert(second.to_multiset().count(dir) > 0);
        assert(second.contains(dir));
        let at = choose|at: int| 0 <= at < second.len() && second[at] == dir;
        let others = second.remove(at);
        to_multiset_remove(second, at);
        assert(earlier.to_multiset() =~= first.to_multiset().remove(dir));
        assert(earlier.to_multiset() == others.to_multiset());
        lemma_occurrences_ignore_order(forest, earlier, others, file);
        lemma_occurrences_split(forest, first, file);
        lemma_occurrences_remove(forest, second, at, file);
    }
}

/// A directory that is not traversed contributes none of its files.
proof fn lemma_absent_directory_adds_nothing(
    forest: Forest,
    dirs: Seq<Seq<char>>,
    dir: Seq<char>,
    i: int,
)
    requires
        forest.files_are_distinct(),
        !dirs.contains(dir),
        0 <= i < forest.files_in(dir).len(),
    ensures
        forest.occurrences(dirs, forest.files_in(dir)[i]) == 0,
    decreases dirs.len(),
{
    let file = forest.files_in(dir)[i];
    if dirs.len() == 0 {
        assert(forest.files_of_all(dirs) =~= Seq::<FileRecord>::empty());
        forest.files_of_all(dirs).to_multiset_ensures();
        assert(!forest.files_of_all(dirs).contains(file));
    } else {
        let last = dirs.last();
        assert(dirs[dirs.len() - 1] == last);
        assert(last != dir);
        assert forall|k: int| 0 <= k < dirs.drop_last().len() implies dirs.drop_last()[k]
            != dir by {
            assert(dirs[k] == dirs.drop_last()[k]);
        }
        lemma_absent_directory_adds_nothing(forest, dirs.drop_last(), dir, i);
        lemma_occurrences_split(forest, dirs, file);
        forest.files_in(last).to_multiset_ensures();
        if forest.files_in(last).contains(file) {
            let k = choose|k: int|
                0 <= k < forest.files_in(last).len() && forest.files_in(last)[k] == file;
            assert(forest.files_in(last)[k] == forest.files_in(dir)[i]);
        }
    }
}

/// A directory that is traversed once contributes each of its files once.
proof fn lemma_present_directory_adds_once(
    forest: Forest,
    dirs: Seq<Seq<char>>,
    dir: Seq<char>,
    i: int,
)
    requires
        forest.files_are_distinct(),
        dirs.no_duplicates(),
        dirs.contains(dir),
        0 <= i < forest.files_in(dir).len(),
    ensures
        forest.occurrences(dirs, forest.files_in(dir)[i]) == 1,
    decreases dirs.len(),
{
    let file = forest.files_in(dir)[i];
    let last = dirs.last();
    let earlier = dirs.drop_last();
    lemma_occurrences_split(forest, dirs, file);
    forest.files_in(last).to_multiset_ensures();
    assert(earlier.no_duplicates()) by {
        assert forall|a: int, b: int|
            0 <= a < earlier.len() && 0 <= b < earlier.len() && a != b implies earlier[a]
            != earlier[b] by {
            assert(dirs[a] != dirs[b]);
        }
    }
    if last == dir {
        assert(!earlier.contains(dir)) by {
            if earlier.contains(dir) {
                let k = choose|k: int| 0 <= k < earlier.len() && earlier[k] == dir;
                assert(dirs[k] == dirs[dirs.len() - 1]);
            }
        }
        lemma_absent_directory_adds_nothing(forest, earlier, dir, i);
        let found = forest.files_in(dir);
        assert(found.no_duplicates()) by {
            assert forall|a: int, b: int|
                0 <= a < found.len() && 0 <= b < found.len() && a != b implies found[a]
                != found[b] by {
                if forest.files_in(dir)[a] == forest.files_in(dir)[b] {
                }
            }
        }
        found.lemma_multiset_has_no_duplicates();
        assert(found.contains(file));
        assert(found.to_multiset().contains(file));
    } else {
        let at = choose|at: int| 0 <= at < dirs.len() && dirs[at] == dir;
        assert(at < earlier.len());
        assert(earlier[at] == dir);
        lemma_present_directory_adds_once(forest, earlier, dir, i);
        if forest.files_in(last).contains(file) {
            let k = choose|k: int|
                0 <= k < forest.files_in(last).len() && forest.files_in(last)[k] == file;
            assert(forest.files_in(last)[k] == forest.files_in(dir)[i]);
        }
    }
}

/// Every file found among the files of `dirs` is a file of one of them.
proof fn lemma_files_have_a_directory(forest: Forest, dirs: Seq<Seq<char>>, file: FileRecord)
    requires
        forest.files_of_all(dirs).contains(file),
    ensures
        exists|dir: Seq<char>| dirs.contains(dir) && #[trigger] forest.files_in(dir).contains(file),
    decreases dirs.len(),
{
    if dirs.len() == 0 {
        assert(forest.files_of_all(dirs).len() == 0);
    } else {
        let before = forest.files_of_all(dirs.drop_last());
        let last = forest.files_in(dirs.last());
        let k = choose|k: int| 0 <= k < (before + last).len() && (before + last)[k] == file;
        if k < before.len() {
            assert(before[k] == file);
            lemma_files_have_a_directory(forest, dirs.drop_last(), file);
            let dir = choose|dir: Seq<char>|
                dirs.drop_last().contains(dir) && #[trigger] forest.files_in(dir).contains(file);
            let at = choose|at: int| 0 <= at < dirs.drop_last().len() && dirs.drop_last()[at]
                == dir;
            assert(dirs[at] == dir);
        } else {
            assert(last[k - before.len()] == file);
            assert(dirs[dirs.len() - 1] == dirs.last());
            assert(dirs.contains(dirs.last()) && forest.files_in(dirs.last()).contains(file));
        }
    }
}

/// No file lost, no file counted twice: when a scan of a finite forest with
/// distinct files has come to quiescence, each file of each reachable
/// directory stands in the index exactly once, under its own digest.
pub proof fn lemma_every_file_is_indexed_exactly_once(
    forest: Forest,
    workers: nat,
    events: Seq<Event>,
    dir: Seq<char>,
    i: int,
)
    requires
        forest.wf(),
        forest.files_are_distinct(),
        workers >= 1,
        Scan::possible(forest, workers, events),
        Scan::after(forest, workers, events).pool.quiescent(),
        forest.reachable(dir),
        0 <= i < forest.files_in(dir).len(),
    ensures
        Scan::after(forest, workers, events).index.contains_key(forest.files_in(dir)[i].hash),
        Scan::after(forest, workers, events).index[forest.files_in(
            dir,
        )[i].hash].to_multiset().count(forest.files_in(dir)[i]) == 1,
{
    let s = Scan::after(forest, workers, events);
    let file = forest.files_in(dir)[i];
    let recorded = forest.files_of_all(s.done);
    lemma_scan_is_correct(forest, workers, events);
    assert(s.done.contains(dir));
    lemma_present_directory_adds_once(forest, s.done, dir, i);
    recorded.to_multiset_ensures();
    assert(recorded.contains(file));
    let at = choose|at: int| 0 <= at < recorded.len() && recorded[at] == file;
    lemma_every_file_indexed_once(recorded, at);
}

/// Nothing else is indexed: every file in the index of a finished scan is a
/// file of a reachable directory and stands under its own digest.
pub proof fn lemma_indexed_files_were_found(
    forest: Forest,
    workers: nat,
    events: Seq<Event>,
    hash: Seq<char>,
    k: int,
)
    requires
        forest.wf(),
        workers >= 1,
        Scan::possible(forest, workers, events),
        Scan::after(forest, workers, events).pool.quiescent(),
        Scan::after(forest, workers, events).index.contains_key(hash),
        0 <= k < Scan::after(forest, workers, events).index[hash].len(),
    ensures
        Scan::after(forest, workers, events).index[hash][k].hash == hash,
        exists|dir: Seq<char>|
            forest.reachable(dir) && #[trigger] forest.files_in(dir).contains(
                Scan::after(forest, workers, events).index[hash][k],
            ),
{
    let s = Scan::after(forest, workers, events);
    let file = s.index[hash][k];
    lemma_scan_is_correct(forest, workers, events);
    lemma_index_holds_only_recorded(forest.files_of_all(s.done), hash, k);
    lemma_files_have_a_directory(forest, s.done, file);
    let dir = choose|dir: Seq<char>|
        s.done.contains(dir) && #[trigger] forest.files_in(dir).contains(file);
    assert(forest.reachable(dir) && forest.files_in(dir).contains(file));
}

/// Scanning is repeatable: two finished scans of the same forest, with any
/// numbers of workers and any interleavings, have indexes with the same
/// digests and, under each digest, the same files; only the order within a
/// list may differ.
pub proof fn lemma_scans_agree(
    forest: Forest,
    first_workers: nat,
    first: Seq<Event>,
    second_workers: nat,
    second: Seq<Event>,
)
    requires
        forest.wf(),
        first_workers >= 1,
        second_workers >= 1,
        Scan::possible(forest, first_workers, first),
        Scan::possible(forest, second_workers, second),
        Scan::after(forest, first_workers, first).pool.quiescent(),
        Scan::after(forest, second_workers, second).pool.quiescent(),
    ensures
        Scan::after(forest, first_workers, first).index.dom() == Scan::after(
            forest,
            second_workers,
            second,
        ).index.dom(),
        forall|hash: Seq<char>|
            Scan::after(forest, first_workers, first).index.contains_key(hash) ==> (
            #[trigger] Scan::after(forest, first_workers, first).index[hash]).to_multiset()
                == Scan::after(forest, second_workers, second).index[hash].to_multiset(),
{
    let a = Scan::after(forest, first_workers, first);
    let b = Scan::after(forest, second_workers, second);
    lemma_scan_is_correct(forest, first_workers, first);
    lemma_scan_is_correct(forest, second_workers, second);
    a.done.lemma_multiset_has_no_duplicates();
    b.done.lemma_multiset_has_no_duplicates();
    a.done.to_multiset_ensures();
    b.done.to_multiset_ensures();
    assert forall|dir: Seq<char>| a.done.to_multiset().count(dir) == b.done.to_multiset().count(
        dir,
    ) by {
        assert(a.done.contains(dir) == forest.reachable(dir));
        assert(b.done.contains(dir) == forest.reachable(dir));
        assert(a.done.to_multiset().contains(dir) == (a.done.to_multiset().count(dir) > 0));
        assert(b.done.to_multiset().contains(dir) == (b.done.to_multiset().count(dir) > 0));
    }
    assert(a.done.to_multiset() =~= b.done.to_multiset());
    assert forall|file: FileRecord|
        forest.files_of_all(a.done).to_multiset().count(file) == forest.files_of_all(
            b.done,
        ).to_multiset().count(file) by {
        lemma_occurrences_ignore_order(forest, a.done, b.done, file);
    }
    assert(forest.files_of_all(a.done).to_multiset() =~= forest.files_of_all(
        b.done,
    ).to_multiset());
    lemma_index_ignores_order(forest.files_of_all(a.done), forest.files_of_all(b.done));
    assert(a.index == index_of(forest.files_of_all(a.done)));
    assert(b.index == index_of(forest.files_of_all(b.done)));
}

} // verus!
