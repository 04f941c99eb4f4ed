//! The result aggregator: the content-addressed index that maps each digest
//! to the files that produced it. It only grows; a digest with more than one
//! file under it denotes duplicate content.

use crate::model::{records_of, FileRecord, ScannedFile};
use vstd::hash_map::StringHashMap;
use vstd::prelude::*;

verus! {

/// The files recorded under `hash`, or none when the digest is not a key.
pub open spec fn files_under(index: Map<Seq<char>, Seq<FileRecord>>, hash: Seq<char>) -> Seq<
    FileRecord,
> {
    if index.contains_key(hash) {
        index[hash]
    } else {
        Seq::empty()
    }
}

/// The index after one more file is recorded: the file is appended to the
/// list of its digest, which is created if the digest is new.
pub open spec fn record_into(
    index: Map<Seq<char>, Seq<FileRecord>>,
    file: FileRecord,
) -> Map<Seq<char>, Seq<FileRecord>> {
    index.insert(file.hash, files_under(index, file.hash).push(file))
}

/// The index after `files` are recorded one after another.
pub open spec fn record_each(
    index: Map<Seq<char>, Seq<FileRecord>>,
    files: Seq<FileRecord>,
) -> Map<Seq<char>, Seq<FileRecord>>
    decreases files.len(),
{
    if files.len() == 0 {
        index
    } else {
        record_into(record_each(index, files.drop_last()), files.last())
    }
}

/// The digests that first appear in `files` and are not in `seen`, in the
/// order of their first appearance, after `seen`.
pub open spec fn first_seen(seen: Seq<Seq<char>>, files: Seq<FileRecord>) -> Seq<Seq<char>>
    decreases files.len(),
{
    if files.len() == 0 {
        seen
    } else {
        let earlier = first_seen(seen, files.drop_last());
        if earlier.contains(files.last().hash) {
            earlier
        } else {
            earlier.push(files.last().hash)
        }
    }
}

/// The index of a scan that recorded exactly `files`, in that order.
pub open spec fn index_of(files: Seq<FileRecord>) -> Map<Seq<char>, Seq<FileRecord>> {
    record_each(Map::empty(), files)
}

/// The test for a file's digest being `hash`.
pub open spec fn has_digest(hash: Seq<char>) -> spec_fn(FileRecord) -> bool {
    |file: FileRecord| file.hash == hash
}

/// The files of `files` whose digest is `hash`, in their order.
pub open spec fn with_digest(files: Seq<FileRecord>, hash: Seq<char>) -> Seq<FileRecord> {
    files.filter(has_digest(hash))
}

/// The files recorded under one digest, in the order they were recorded.
struct Group {
    hash: String,
    files: Vec<ScannedFile>,
}

/// The content-addressed index of a scan.
pub struct ScanResult {
    index: StringHashMap<usize>,
    groups: Vec<Group>,
}

impl View for ScanResult {
    type V = Map<Seq<char>, Seq<FileRecord>>;

    /// The mapping from digest to the files recorded under it.
    closed spec fn view(&self) -> Map<Seq<char>, Seq<FileRecord>> {
        Map::new(
            |hash: Seq<char>| self.index@.contains_key(hash),
            |hash: Seq<char>| records_of(self.groups[self.index@[hash] as int].files@),
        )
    }
}

impl ScanResult {
    /// The digests of the index in the order in which they were first
    /// recorded.
    pub closed spec fn order(&self) -> Seq<Seq<char>> {
        self.groups@.map_values(|g: Group| g.hash@)
    }

    /// The internal agreement between the lookup table and the groups: each
    /// group is found under its digest, holds only files of that digest, and
    /// holds at least one.
    pub closed spec fn wf(&self) -> bool {
        &&& forall|i: int|
            0 <= i < self.groups.len() ==> self.index@.contains_key(
                (#[trigger] self.groups[i]).hash@,
            ) && self.index@[self.groups[i].hash@] == i
        &&& forall|hash: Seq<char>| #[trigger]
            self.index@.contains_key(hash) ==> self.index@[hash] < self.groups.len()
                && self.groups[self.index@[hash] as int].hash@ == hash
        &&& forall|i: int, j: int|
            0 <= i < self.groups.len() && 0 <= j < self.groups[i].files.len() ==> (
            #[trigger] self.groups[i].files[j]).hash@ == self.groups[i].hash@
        &&& forall|i: int|
            0 <= i < self.groups.len() ==> (#[trigger] self.groups[i]).files.len() > 0
    }

    /// An index with nothing recorded.
    pub fn new() -> (result: ScanResult)
        ensures
            result.wf(),
            result@ == Map::<Seq<char>, Seq<FileRecord>>::empty(),
            result.order() == Seq::<Seq<char>>::empty(),
    {
        let result = ScanResult { index: StringHashMap::new(), groups: Vec::new() };
        assert(result@ =~= Map::<Seq<char>, Seq<FileRecord>>::empty());
        assert(result.order() =~= Seq::<Seq<char>>::empty());
        result
    }

    /// Records one hashed file under its digest.
    pub fn record(&mut self, file: ScannedFile)
        requires
            old(self).wf(),
        ensures
            final(self).wf(),
            final(self)@ == record_into(old(self)@, file@),
            final(self).order() == if old(self)@.contains_key(file@.hash) {
                old(self).order()
            } else {
                old(self).order().push(file@.hash)
            },
    {
        let ghost before = *self;
        let ghost added = file@;
        proof {
            assert(before@.contains_key(added.hash) == before.index@.contains_key(added.hash));
        }
        let found = match self.index.get(file.hash.as_str()) {
            Some(position) => Some(*position),
            None => None,
        };
        match found {
            Some(position) => {
                self.groups[position].files.push(file);
                proof {
                    assert forall|i: int| 0 <= i < self.groups.len() implies (
                    #[trigger] self.groups[i]).hash@ == before.groups[i].hash@ by {}
                    assert forall|i: int, j: int|
                        0 <= i < self.groups.len() && 0 <= j < self.groups[i].files.len() implies (
                    #[trigger] self.groups[i].files[j]).hash@ == self.groups[i].hash@ by {
                        if i == position && j == before.groups[i].files.len() {
                        } else {
                            assert(self.groups[i].files[j] == before.groups[i].files[j]);
                        }
                    }
                    assert forall|hash: Seq<char>| #[trigger]
                        self.index@.contains_key(hash) implies self@[hash] == record_into(
                        before@,
                        added,
                    )[hash] by {
                        let at = self.index@[hash] as int;
                        if hash == added.hash {
                            assert(records_of(self.groups[at].files@) =~= records_of(
                                before.groups[at].files@,
                            ).push(added));
                        } else {
                            assert(self.groups[at].files@ == before.groups[at].files@);
                        }
                    }
                    assert(self@ =~= record_into(before@, added));
                    assert(self.order() =~= before.order());
                }
            },
            None => {
                let position = self.groups.len();
                let hash = file.hash.clone();
                let key = file.hash.clone();
                let mut files = Vec::new();
                files.push(file);
                self.groups.push(Group { hash, files });
                self.index.insert(key, position);
                proof {
                    assert forall|i: int| 0 <= i < before.groups.len() implies (
                    #[trigger] self.groups[i]) == before.groups[i] by {}
                    assert forall|hash: Seq<char>| #[trigger]
                        self.index@.contains_key(hash) implies self@[hash] == record_into(
                        before@,
                        added,
                    )[hash] by {
                        if hash == added.hash {
                            assert(records_of(self.groups[position as int].files@) =~= Seq::<
                                FileRecord,
                            >::empty().push(added));
                        } else {
                            let at = self.index@[hash] as int;
                            assert(self.groups[at] == before.groups[at]);
                        }
                    }
                    assert(self@ =~= record_into(before@, added));
                    assert(self.order() =~= before.order().push(added.hash));
                }
            },
        }
    }

    /// Records every file of `files`, in order.
    pub fn record_all(&mut self, files: Vec<ScannedFile>)
        requires
            old(self).wf(),
        ensures
            final(self).wf(),
            final(self)@ == record_each(old(self)@, records_of(files@)),
            final(self).order() == first_seen(old(self).order(), records_of(files@)),
    {
        let ghost all = records_of(files@);
        let ghost start = *self;
        for file in it: files.into_iter()
            invariant
                it.seq() == files@,
                all == records_of(files@),
                self.wf(),
                self@ == record_each(start@, all.take(it.index() as int)),
                self.order() == first_seen(start.order(), all.take(it.index() as int)),
        {
            let ghost done = it.index() as int;
            proof {
                assert(all.take(done + 1).drop_last() =~= all.take(done));
                assert(all.take(done + 1).last() == file@);
                self.order_lists_keys();
            }
            self.record(file);
        }
        proof {
            assert(all.take(files@.len() as int) =~= all);
        }
    }

    /// The number of distinct digests recorded.
    pub fn digest_count(&self) -> (count: usize)
        requires
            self.wf(),
        ensures
            count == self.order().len(),
    {
        self.groups.len()
    }

    /// Whether nothing has been recorded.
    pub fn is_empty(&self) -> (empty: bool)
        requires
            self.wf(),
        ensures
            empty == (self@ == Map::<Seq<char>, Seq<FileRecord>>::empty()),
    {
        proof {
            self.order_lists_keys();
            if self.groups.len() == 0 {
                assert(self@ =~= Map::<Seq<char>, Seq<FileRecord>>::empty());
            } else {
                assert(self@.contains_key(self.order()[0]));
            }
        }
        self.groups.len() == 0
    }

    /// The digest at `position` of the first-recorded order.
    pub fn digest_at(&self, position: usize) -> (hash: &String)
        requires
            self.wf(),
            position < self.order().len(),
        ensures
            hash@ == self.order()[position as int],
    {
        &self.groups[position].hash
    }

    /// The files under the digest at `position` of the first-recorded order.
    pub fn files_at(&self, position: usize) -> (files: &Vec<ScannedFile>)
        requires
            self.wf(),
            position < self.order().len(),
        ensures
            records_of(files@) == self@[self.order()[position as int]],
            files@.len() > 0,
    {
        &self.groups[position].files
    }

    /// The files recorded under `hash`, if any.
    pub fn get(&self, hash: &str) -> (files: Option<&Vec<ScannedFile>>)
        requires
            self.wf(),
        ensures
            files.is_some() == self@.contains_key(hash@),
            files.is_some() ==> records_of(files.unwrap()@) == self@[hash@],
    {
        match self.index.get(hash) {
            Some(position) => Some(&self.groups[*position].files),
            None => None,
        }
    }

    /// The digests in first-recorded order are exactly the keys of the index,
    /// each listed once, and every key has at least one file under it.
    pub proof fn order_lists_keys(&self)
        requires
            self.wf(),
        ensures
            self.order().no_duplicates(),
            forall|hash: Seq<char>| self@.contains_key(hash) <==> self.order().contains(hash),
            forall|hash: Seq<char>| self@.contains_key(hash) ==> (#[trigger] self@[hash]).len() > 0,
    {
        assert forall|i: int, j: int|
            0 <= i < self.order().len() && 0 <= j < self.order().len() && i != j implies self.order()[i]
            != self.order()[j] by {
            assert(self.index@[self.groups[i].hash@] == i);
            assert(self.index@[self.groups[j].hash@] == j);
        }
        assert forall|hash: Seq<char>| self@.contains_key(hash) <==> self.order().contains(
            hash,
        ) by {
            if self@.contains_key(hash) {
                assert(self.index@.contains_key(hash));
                assert(self.order()[self.index@[hash] as int] == hash);
            }
            if self.order().contains(hash) {
                let i = choose|i: int| 0 <= i < self.order().len() && self.order()[i] == hash;
                assert(self.index@.contains_key(self.groups[i].hash@));
            }
        }
        assert forall|hash: Seq<char>| self@.contains_key(hash) implies (#[trigger] self@[hash]).len()
            > 0 by {
            assert(self.index@.contains_key(hash));
            assert(self.groups[self.index@[hash] as int].files.len() > 0);
        }
    }
}

/// Recording files appends, under each digest, exactly the files of that
/// digest, in order, after what the index already held there; the keys are
/// the old keys and the digests of the recorded files.
pub proof fn lemma_record_each_groups(
    index: Map<Seq<char>, Seq<FileRecord>>,
    files: Seq<FileRecord>,
    hash: Seq<char>,
)
    ensures
        files_under(record_each(index, files), hash) == files_under(index, hash) + with_digest(
            files,
            hash,
        ),
        record_each(index, files).contains_key(hash) <==> index.contains_key(hash) || exists|
            i: int,
        |
            0 <= i < files.len() && (#[trigger] files[i]).hash == hash,
    decreases files.len(),
{
    reveal(Seq::filter);
    if files.len() == 0 {
        assert(files_under(index, hash) + with_digest(files, hash) =~= files_under(index, hash));
    } else {
        let earlier = files.drop_last();
        lemma_record_each_groups(index, earlier, hash);
        let before = record_each(index, earlier);
        if files.last().hash == hash {
            assert(with_digest(files, hash) =~= with_digest(earlier, hash).push(files.last()));
            assert(files_under(record_each(index, files), hash) =~= files_under(index, hash)
                + with_digest(files, hash));
        } else {
            assert(with_digest(files, hash) =~= with_digest(earlier, hash));
        }
        if record_each(index, files).contains_key(hash) && !index.contains_key(hash) {
            if before.contains_key(hash) {
                let i = choose|i: int| 0 <= i < earlier.len() && (#[trigger] earlier[i]).hash == hash;
                assert(files[i].hash == hash);
            } else {
                assert(files[files.len() - 1].hash == hash);
            }
        }
        if exists|i: int| 0 <= i < files.len() && (#[trigger] files[i]).hash == hash {
            let i = choose|i: int| 0 <= i < files.len() && (#[trigger] files[i]).hash == hash;
            if i < earlier.len() {
                assert(earlier[i].hash == hash);
            }
        }
    }
}

/// A file occurs among the files of a digest as often as it occurs in the
/// whole sequence when it has that digest, and not at all otherwise.
pub proof fn lemma_with_digest_counts(files: Seq<FileRecord>, hash: Seq<char>, file: FileRecord)
    ensures
        with_digest(files, hash).to_multiset().count(file) == if file.hash == hash {
            files.to_multiset().count(file)
        } else {
            0
        },
    decreases files.len(),
{
    reveal(Seq::filter);
    if files.len() == 0 {
        assert(with_digest(files, hash) =~= Seq::<FileRecord>::empty());
        assert(files =~= Seq::<FileRecord>::empty());
        Seq::<FileRecord>::empty().to_multiset_ensures();
        assert(Seq::<FileRecord>::empty().to_multiset().len() == 0);
    } else {
        let earlier = files.drop_last();
        lemma_with_digest_counts(earlier, hash, file);
        assert(files =~= earlier.push(files.last()));
        vstd::seq_lib::to_multiset_build(earlier, files.last());
        if files.last().hash == hash {
            assert(with_digest(files, hash) =~= with_digest(earlier, hash).push(files.last()));
            vstd::seq_lib::to_multiset_build(with_digest(earlier, hash), files.last());
        } else {
            assert(with_digest(files, hash) =~= with_digest(earlier, hash));
        }
    }
}

/// Content addressing: after a scan every recorded file is found in the list
/// of its own digest, exactly as often as it was recorded, so that files with
/// equal digests share one list and no file is lost or counted twice.
pub proof fn lemma_every_file_indexed_once(files: Seq<FileRecord>, i: int)
    requires
        0 <= i < files.len(),
    ensures
        index_of(files).contains_key(files[i].hash),
        index_of(files)[files[i].hash].contains(files[i]),
        index_of(files)[files[i].hash].to_multiset().count(files[i]) == files.to_multiset().count(
            files[i],
        ),
        forall|j: int|
            0 <= j < files.len() && (#[trigger] files[j]).hash == files[i].hash ==> index_of(
                files,
            )[files[i].hash].contains(files[j]),
{
    let hash = files[i].hash;
    let listed = index_of(files)[hash];
    lemma_record_each_groups(Map::empty(), files, hash);
    assert(Seq::<FileRecord>::empty() + with_digest(files, hash) =~= with_digest(files, hash));
    assert(listed == with_digest(files, hash));
    assert forall|j: int| 0 <= j < files.len() && (#[trigger] files[j]).hash == hash implies listed.contains(
        files[j],
    ) by {
        lemma_with_digest_counts(files, hash, files[j]);
        files.to_multiset_ensures();
        listed.to_multiset_ensures();
        assert(files.contains(files[j]));
    }
    assert(files[i].hash == hash);
    lemma_with_digest_counts(files, hash, files[i]);
}

/// Every file found in the index was recorded, and sits under its own
/// digest.
pub proof fn lemma_index_holds_only_recorded(files: Seq<FileRecord>, hash: Seq<char>, k: int)
    requires
        index_of(files).contains_key(hash),
        0 <= k < index_of(files)[hash].len(),
    ensures
        index_of(files)[hash][k].hash == hash,
        files.contains(index_of(files)[hash][k]),
{
    let listed = index_of(files)[hash];
    lemma_record_each_groups(Map::empty(), files, hash);
    assert(Seq::<FileRecord>::empty() + with_digest(files, hash) =~= with_digest(files, hash));
    lemma_with_digest_counts(files, hash, listed[k]);
    listed.to_multiset_ensures();
    files.to_multiset_ensures();
    assert(listed.contains(listed[k]));
}

/// The index does not depend on the order of recording beyond the order of
/// its lists: two scans that recorded the same files, in any order, have the
/// same digests and, under each digest, the same files.
pub proof fn lemma_index_ignores_order(first: Seq<FileRecord>, second: Seq<FileRecord>)
    requires
        first.to_multiset() == second.to_multiset(),
    ensures
        index_of(first).dom() == index_of(second).dom(),
        forall|hash: Seq<char>|
            index_of(first).contains_key(hash) ==> (#[trigger] index_of(first)[hash]).to_multiset()
                == index_of(second)[hash].to_multiset(),
{
    first.to_multiset_ensures();
    second.to_multiset_ensures();
    assert forall|hash: Seq<char>| index_of(first).contains_key(hash) == index_of(
        second,
    ).contains_key(hash) by {
        lemma_record_each_groups(Map::empty(), first, hash);
        lemma_record_each_groups(Map::empty(), second, hash);
        if exists|i: int| 0 <= i < first.len() && (#[trigger] first[i]).hash == hash {
            let i = choose|i: int| 0 <= i < first.len() && (#[trigger] first[i]).hash == hash;
            assert(first.contains(first[i]));
            assert(first.to_multiset().count(first[i]) > 0);
            assert(second.to_multiset().count(first[i]) > 0);
            assert(second.contains(first[i]));
            let j = choose|j: int| 0 <= j < second.len() && second[j] == first[i];
            assert(second[j].hash == hash);
        }
        if exists|i: int| 0 <= i < second.len() && (#[trigger] second[i]).hash == hash {
            let i = choose|i: int| 0 <= i < second.len() && (#[trigger] second[i]).hash == hash;
            assert(second.contains(second[i]));
            assert(second.to_multiset().count(second[i]) > 0);
            assert(first.to_multiset().count(second[i]) > 0);
            assert(first.contains(second[i]));
            let j = choose|j: int| 0 <= j < first.len() && first[j] == second[i];
            assert(first[j].hash == hash);
        }
    }
    assert(index_of(first).dom() =~= index_of(second).dom());
    assert forall|hash: Seq<char>| index_of(first).contains_key(hash) implies (#[trigger] index_of(
        first,
    )[hash]).to_multiset() == index_of(second)[hash].to_multiset() by {
        lemma_record_each_groups(Map::empty(), first, hash);
        lemma_record_each_groups(Map::empty(), second, hash);
        assert(Seq::<FileRecord>::empty() + with_digest(first, hash) =~= with_digest(first, hash));
        assert(Seq::<FileRecord>::empty() + with_digest(second, hash) =~= with_digest(
            second,
            hash,
        ));
        assert forall|file: FileRecord|
            with_digest(first, hash).to_multiset().count(file) == with_digest(
                second,
                hash,
            ).to_multiset().count(file) by {
            lemma_with_digest_counts(first, hash, file);
            lemma_with_digest_counts(second, hash, file);
        }
        assert(with_digest(first, hash).to_multiset() =~= with_digest(second, hash).to_multiset());
    }
}

/// Content addressing across a scan: when every file is recorded under the
/// address of its content, two files with identical content have equal
/// digests and stand in one and the same list of the index.
pub proof fn lemma_identical_content_shares_list(
    files: Seq<FileRecord>,
    contents: Seq<Seq<u8>>,
    i: int,
    j: int,
)
    requires
        contents.len() == files.len(),
        forall|k: int|
            0 <= k < files.len() ==> (#[trigger] files[k]).hash == crate::digest::digest_hex(
                contents[k],
            ),
        0 <= i < files.len(),
        0 <= j < files.len(),
        contents[i] == contents[j],
    ensures
        files[i].hash == files[j].hash,
        index_of(files).contains_key(files[i].hash),
        index_of(files)[files[i].hash].contains(files[i]),
        index_of(files)[files[i].hash].contains(files[j]),
{
    assert(files[i].hash == crate::digest::digest_hex(contents[i]));
    assert(files[j].hash == crate::digest::digest_hex(contents[j]));
    lemma_every_file_indexed_once(files, i);
}

} // verus!
