//! What the watched files looked like.

use vstd::prelude::*;
use crate::sorted::{
    find_rank, is_sorted, lemma_found_at_rank, lemma_insert_keeps_order, lemma_only_place,
    lemma_remove_keeps_order, rank,
};
use crate::text::{
    begins, chars_of, equal, head, law_beginnings_and_ends, optional_text, owned, same, texts,
};

verus! {

/// What is known of a file.
pub struct RecordModel {
    /// Content hash, where there is one.
    pub sha256: Option<Seq<char>>,
    /// Size in bytes.
    pub size: u64,
    /// Unix mode.
    pub mode: u32,
    /// Owning user.
    pub uid: u32,
    /// Owning group.
    pub gid: u32,
}

/// What the baseline remembers about one file.
#[derive(Debug, PartialEq, Eq)]
pub struct FileRecord {
    /// Content hash, absent for files too large to hash or unreadable.
    pub sha256: Option<String>,
    /// Size in bytes.
    pub size: u64,
    /// Unix mode.
    pub mode: u32,
    /// Owning user.
    pub uid: u32,
    /// Owning group.
    pub gid: u32,
}

impl View for FileRecord {
    type V = RecordModel;

    open spec fn view(&self) -> RecordModel {
        RecordModel {
            sha256: optional_text(self.sha256),
            size: self.size,
            mode: self.mode,
            uid: self.uid,
            gid: self.gid,
        }
    }
}

impl Clone for FileRecord {
    fn clone(&self) -> (copy: Self)
        ensures
            copy@ == self@,
    {
        FileRecord {
            sha256: match &self.sha256 {
                Some(hash) => Some(hash.clone()),
                None => None,
            },
            size: self.size,
            mode: self.mode,
            uid: self.uid,
            gid: self.gid,
        }
    }
}

/// A record as it is kept: sizes are signed 64-bit numbers in the store.
pub open spec fn stored(record: RecordModel) -> RecordModel {
    RecordModel {
        size: if record.size <= i64::MAX as u64 {
            record.size
        } else {
            i64::MAX as u64
        },
        ..record
    }
}

/// What a baseline holds: the paths in order, and what is known of each.
pub struct BaselineModel {
    /// The paths, in order.
    pub paths: Seq<Seq<char>>,
    /// What is known of the file at the same place.
    pub records: Seq<RecordModel>,
}

impl BaselineModel {
    /// The paths stand in order, and each has its record.
    pub open spec fn well_formed(self) -> bool {
        is_sorted(self.paths) && self.paths.len() == self.records.len()
    }

    /// What is known of a path.
    pub open spec fn known(self, path: Seq<char>) -> Option<RecordModel> {
        if self.paths.contains(path) {
            Some(self.records[rank(self.paths, path) as int])
        } else {
            None
        }
    }

    /// With a path recorded, in place of what was known of it.
    pub open spec fn recording(self, path: Seq<char>, record: RecordModel) -> BaselineModel {
        let k = rank(self.paths, path) as int;
        if self.paths.contains(path) {
            BaselineModel { records: self.records.update(k, record), ..self }
        } else {
            BaselineModel {
                paths: self.paths.insert(k, path),
                records: self.records.insert(k, record),
            }
        }
    }

    /// With a path forgotten.
    pub open spec fn forgetting(self, path: Seq<char>) -> BaselineModel {
        let k = rank(self.paths, path) as int;
        if self.paths.contains(path) {
            BaselineModel { paths: self.paths.remove(k), records: self.records.remove(k) }
        } else {
            self
        }
    }

    /// The paths that start with a text, in order.
    pub open spec fn starting(self, prefix: Seq<char>) -> Seq<Seq<char>> {
        starting(self.paths, prefix)
    }
}

/// The texts that start with another, in the order in which they stand.
pub open spec fn starting(paths: Seq<Seq<char>>, prefix: Seq<char>) -> Seq<Seq<char>>
    decreases paths.len(),
{
    if paths.len() == 0 {
        seq![]
    } else if begins(paths.last(), prefix) {
        starting(paths.drop_last(), prefix).push(paths.last())
    } else {
        starting(paths.drop_last(), prefix)
    }
}

/// The models of records.
pub open spec fn record_models(records: Seq<FileRecord>) -> Seq<RecordModel> {
    records.map_values(|record: FileRecord| record@)
}

/// The record of what the watched files looked like.
#[derive(Debug)]
pub struct Baseline {
    paths: Vec<String>,
    records: Vec<FileRecord>,
}

impl View for Baseline {
    type V = BaselineModel;

    closed spec fn view(&self) -> BaselineModel {
        BaselineModel { paths: texts(self.paths@), records: record_models(self.records@) }
    }
}

impl Default for Baseline {
    fn default() -> (baseline: Self)
        ensures
            baseline@ == (BaselineModel { paths: seq![], records: seq![] }),
            baseline@.well_formed(),
    {
        Self::new()
    }
}

impl Baseline {
    /// A baseline that knows no file.
    pub fn new() -> (baseline: Self)
        ensures
            baseline@ == (BaselineModel { paths: seq![], records: seq![] }),
            baseline@.well_formed(),
    {
        let baseline = Baseline { paths: Vec::new(), records: Vec::new() };
        assert(baseline@.paths =~= seq![]);
        assert(baseline@.records =~= seq![]);
        baseline
    }

    fn place(&self, path: &str) -> (place: (bool, usize))
        requires
            self@.well_formed(),
        ensures
            place.0 == self@.paths.contains(path@),
            place.1 == rank(self@.paths, path@),
            place.1 <= self@.paths.len(),
            place.0 ==> place.1 < self@.paths.len(),
    {
        proof {
            lemma_found_at_rank(self@.paths, path@);
        }
        let k: usize = find_rank(&self.paths, path);
        if k < self.paths.len() {
            assert(self@.paths[k as int] == self.paths@[k as int]@);
            (equal(self.paths[k].as_str(), path), k)
        } else {
            (false, k)
        }
    }

    /// Look up one path.
    pub fn get(&self, path: &str) -> (record: Option<&FileRecord>)
        requires
            self@.well_formed(),
        ensures
            match record {
                Some(record) => self@.known(path@) == Some(record@),
                None => self@.known(path@) is None,
            },
    {
        let (found, k): (bool, usize) = self.place(path);
        if found {
            assert(self@.records[k as int] == self.records@[k as int]@);
            Some(&self.records[k])
        } else {
            None
        }
    }

    /// Record the current state of one path.
    pub fn put(&mut self, path: &str, record: &FileRecord)
        requires
            old(self)@.well_formed(),
        ensures
            final(self)@ == old(self)@.recording(path@, stored(record@)),
            final(self)@.well_formed(),
    {
        let mut copy = record.clone();
        if copy.size > i64::MAX as u64 {
            copy.size = i64::MAX as u64;
        }
        let ghost paths = self@.paths;
        let ghost records = self@.records;
        let (found, k): (bool, usize) = self.place(path);
        let ghost model = copy@;
        if found {
            self.records.set(k, copy);
            assert(self@.records =~= records.update(k as int, model));
        } else {
            proof {
                lemma_insert_keeps_order(paths, path@);
            }
            self.paths.insert(k, owned(path));
            self.records.insert(k, copy);
            assert(self@.paths =~= paths.insert(k as int, path@));
            assert(self@.records =~= records.insert(k as int, model));
        }
    }

    /// Forget one path.
    pub fn remove(&mut self, path: &str)
        requires
            old(self)@.well_formed(),
        ensures
            final(self)@ == old(self)@.forgetting(path@),
            final(self)@.well_formed(),
    {
        let ghost paths = self@.paths;
        let ghost records = self@.records;
        let (found, k): (bool, usize) = self.place(path);
        if found {
            proof {
                lemma_remove_keeps_order(paths, k as int);
            }
            let _ = self.paths.remove(k);
            let _ = self.records.remove(k);
            assert(self@.paths =~= paths.remove(k as int));
            assert(self@.records =~= records.remove(k as int));
        }
    }

    /// Every path the baseline knows that starts with `prefix`.
    ///
    /// Used to find deletions: a path in the baseline that the walk did not reach
    /// is a path that is gone. The prefix is taken literally: whatever it holds,
    /// it is no wildcard.
    pub fn paths_under(&self, prefix: &str) -> (found: Vec<String>)
        ensures
            texts(found@) == self@.starting(prefix@),
    {
        let ghost all = self@.paths;
        let start = chars_of(prefix);
        let mut found: Vec<String> = Vec::new();
        let mut i: usize = 0;
        assert(texts(found@) =~= starting(all.take(0), prefix@));
        while i < self.paths.len()
            invariant
                all == self@.paths,
                i <= all.len(),
                start@ == prefix@,
                texts(found@) == starting(all.take(i as int), prefix@),
            decreases all.len() - i,
        {
            assert(all[i as int] == self.paths@[i as int]@);
            assert(all.take(i + 1).drop_last() =~= all.take(i as int));
            let path = chars_of(self.paths[i].as_str());
            if path.len() >= start.len() && same(
                head(path.as_slice(), start.len()),
                start.as_slice(),
            ) {
                let ghost before = found@;
                let copy = self.paths[i].clone();
                found.push(copy);
                assert(texts(found@) =~= texts(before).push(all[i as int]));
            }
            i = i + 1;
        }
        assert(all.take(i as int) =~= all);
        found
    }

    /// How many files the baseline is tracking.
    pub fn len(&self) -> (count: usize)
        ensures
            count == self@.paths.len(),
    {
        self.paths.len()
    }

    /// Whether the baseline has never been populated.
    pub fn is_empty(&self) -> (empty: bool)
        ensures
            empty == (self@.paths.len() == 0),
    {
        self.paths.len() == 0
    }

    /// The path and the record at a place, to save them elsewhere.
    pub fn entry(&self, i: usize) -> (entry: (&str, &FileRecord))
        requires
            self@.well_formed(),
            i < self@.paths.len(),
        ensures
            entry.0@ == self@.paths[i as int],
            entry.1@ == self@.records[i as int],
    {
        assert(self@.paths[i as int] == self.paths@[i as int]@);
        assert(self@.records[i as int] == self.records@[i as int]@);
        (self.paths[i].as_str(), &self.records[i])
    }
}

/// What is recorded of a path is what is then known of it, and of no other path
/// anything changes; a path that is forgotten is known no more.
pub proof fn law_a_baseline_remembers(
    baseline: BaselineModel,
    path: Seq<char>,
    record: RecordModel,
    other: Seq<char>,
)
    requires
        baseline.well_formed(),
    ensures
        baseline.recording(path, record).well_formed(),
        baseline.recording(path, record).known(path) == Some(record),
        other != path ==> baseline.recording(path, record).known(other) == baseline.known(other),
        baseline.forgetting(path).well_formed(),
        baseline.forgetting(path).known(path) is None,
        other != path ==> baseline.forgetting(path).known(other) == baseline.known(other),
{
    lemma_found_at_rank(baseline.paths, path);
    lemma_found_at_rank(baseline.paths, other);
    let k = rank(baseline.paths, path) as int;
    let put = baseline.recording(path, record);
    if !baseline.paths.contains(path) {
        lemma_insert_keeps_order(baseline.paths, path);
        assert(put.paths[k] == path);
    } else {
        lemma_remove_keeps_order(baseline.paths, k);
    }
    assert(put.paths.contains(path)) by {
        assert(put.paths[k] == path);
    }
    lemma_found_at_rank(put.paths, path);
    lemma_only_place(put.paths, path, k);
    if other != path {
        lemma_found_at_rank(put.paths, other);
        let i = rank(baseline.paths, other) as int;
        if baseline.paths.contains(other) {
            let j = if baseline.paths.contains(path) || i < k {
                i
            } else {
                i + 1
            };
            assert(put.paths[j] == other);
            lemma_only_place(put.paths, other, j);
        } else if put.paths.contains(other) {
            let j = choose|j: int| 0 <= j < put.paths.len() && put.paths[j] == other;
            let back = if baseline.paths.contains(path) || j < k {
                j
            } else {
                j - 1
            };
            assert(j != k);
            assert(baseline.paths[back] == other);
        }
    }
    let gone = baseline.forgetting(path);
    lemma_found_at_rank(gone.paths, path);
    if gone.paths.contains(path) {
        let j = choose|j: int| 0 <= j < gone.paths.len() && gone.paths[j] == path;
        if baseline.paths.contains(path) {
            let back = if j < k {
                j
            } else {
                j + 1
            };
            assert(baseline.paths[back] == path);
            lemma_only_place(baseline.paths, path, back);
        }
    }
    if other != path {
        lemma_found_at_rank(gone.paths, other);
        let i = rank(baseline.paths, other) as int;
        if baseline.paths.contains(other) {
            assert(i != k || !baseline.paths.contains(path));
            let j = if !baseline.paths.contains(path) || i < k {
                i
            } else {
                i - 1
            };
            assert(gone.paths[j] == other);
            lemma_only_place(gone.paths, other, j);
        } else if gone.paths.contains(other) {
            let j = choose|j: int| 0 <= j < gone.paths.len() && gone.paths[j] == other;
            let back = if !baseline.paths.contains(path) || j < k {
                j
            } else {
                j + 1
            };
            assert(baseline.paths[back] == other);
        }
    }
}

/// The paths that start with a text are those that do, in order.
pub proof fn law_paths_that_start_with_a_text(
    paths: Seq<Seq<char>>,
    prefix: Seq<char>,
    path: Seq<char>,
)
    ensures
        starting(paths, prefix).contains(path) <==> paths.contains(path) && path.len()
            >= prefix.len() && path.take(prefix.len() as int) == prefix,
        starting(paths, prefix).len() <= paths.len(),
    decreases paths.len(),
{
    law_beginnings_and_ends(path, prefix, seq![]);
    if paths.len() > 0 {
        let init = paths.drop_last();
        law_paths_that_start_with_a_text(init, prefix, path);
        let last = paths[paths.len() - 1];
        if paths.contains(path) && path != last {
            let i = choose|i: int| 0 <= i < paths.len() && paths[i] == path;
            assert(init[i] == path);
        }
        if init.contains(path) {
            let i = choose|i: int| 0 <= i < init.len() && init[i] == path;
            assert(paths[i] == path);
        }
        assert(paths.contains(last));
        let before = starting(init, prefix);
        if begins(last, prefix) {
            let after = before.push(last);
            assert(after[before.len() as int] == last);
            if before.contains(path) {
                let i = choose|i: int| 0 <= i < before.len() && before[i] == path;
                assert(after[i] == path);
            }
            if after.contains(path) && path != last {
                let i = choose|i: int| 0 <= i < after.len() && after[i] == path;
                assert(before[i] == path);
            }
        }
    }
}

/// What is kept of a file is what was recorded, but for a size that no signed number of
/// 64 bits holds, which is kept as the largest.
pub proof fn law_records_are_kept_as_they_are(record: RecordModel)
    ensures
        record.size <= 0x7fff_ffff_ffff_ffff ==> stored(record) == record,
        record.size > 0x7fff_ffff_ffff_ffff ==> stored(record).size == 0x7fff_ffff_ffff_ffff,
        stored(record).sha256 == record.sha256,
        stored(record).mode == record.mode,
        stored(record).uid == record.uid,
        stored(record).gid == record.gid,
{
}

} // verus!
