//! Collecting the regular files under a set of roots, bounded.
//!
//! A [`Walker`] says which path to look at next and takes in what was found
//! there; the caller looks. Symlinks are counted and skipped rather than
//! followed: following them would let a symlink planted inside a watched
//! directory pull the whole filesystem into the monitored set.

use vstd::prelude::*;
use crate::sorted::{
    find_rank, is_sorted, law_a_text_is_put_in_its_place, lemma_found_at_rank,
    lemma_insert_keeps_order, rank,
};
use crate::text::{equal, texts};
use super::path::{path_key, sort_key};

verus! {

/// What a walk hit, beyond the files it found.
#[derive(Debug, Clone, Copy, PartialEq, Eq, Structural)]
pub struct WalkLimits {
    /// Entries skipped because the most files that are tracked was reached.
    pub over_entry_limit: u64,
    /// Directories not descended into because of the deepest nesting walked.
    pub over_depth_limit: u64,
    /// Paths that could not be read.
    pub unreadable: u64,
    /// Symlinks not followed.
    pub symlinks_skipped: u64,
    /// The scan was asked to stop before it finished.
    pub abandoned: bool,
}

impl Default for WalkLimits {
    fn default() -> (limits: Self)
        ensures
            limits == WalkLimits::none(),
    {
        WalkLimits {
            over_entry_limit: 0,
            over_depth_limit: 0,
            unreadable: 0,
            symlinks_skipped: 0,
            abandoned: false,
        }
    }
}

impl WalkLimits {
    /// A walk that hit nothing.
    pub open spec fn none() -> WalkLimits {
        WalkLimits {
            over_entry_limit: 0,
            over_depth_limit: 0,
            unreadable: 0,
            symlinks_skipped: 0,
            abandoned: false,
        }
    }

    /// Whether anything was left out.
    pub open spec fn left_out(self) -> bool {
        self.abandoned || self.over_entry_limit > 0 || self.over_depth_limit > 0 || self.unreadable
            > 0
    }

    /// Whether anything was left out.
    pub fn truncated(&self) -> (truncated: bool)
        ensures
            truncated == self.left_out(),
    {
        self.abandoned || self.over_entry_limit > 0 || self.over_depth_limit > 0 || self.unreadable
            > 0
    }

    /// Whether every count can go up by so much.
    pub open spec fn has_room(self, more: int) -> bool {
        &&& self.over_entry_limit + more <= u64::MAX
        &&& self.over_depth_limit + more <= u64::MAX
        &&& self.unreadable + more <= u64::MAX
        &&& self.symlinks_skipped + more <= u64::MAX
    }
}

/// What a look at a path found, links not followed.
#[derive(Debug, Clone, Copy, PartialEq, Eq, Structural)]
pub enum EntryKind {
    /// It could not be looked at.
    Unreadable,
    /// A symlink.
    Symlink,
    /// A regular file.
    File,
    /// A directory.
    Directory,
    /// Anything else: a device node, a socket.
    Other,
}

/// Files in order, each once: their sort keys and, at the same place, the paths.
pub struct FoundModel {
    /// The sort keys, in order.
    pub keys: Seq<Seq<char>>,
    /// The paths.
    pub paths: Seq<Seq<char>>,
}

impl FoundModel {
    /// The keys stand in order, and each has its path.
    pub open spec fn well_formed(self) -> bool {
        is_sorted(self.keys) && self.keys.len() == self.paths.len() && forall|i: int|
            0 <= i < self.paths.len() ==> #[trigger] self.keys[i] == sort_key(self.paths[i])
    }

    /// With a path in its place; a path that is there already is not added.
    pub open spec fn adding(self, path: Seq<char>) -> FoundModel {
        let key = sort_key(path);
        if self.keys.contains(key) {
            self
        } else {
            let k = rank(self.keys, key) as int;
            FoundModel { keys: self.keys.insert(k, key), paths: self.paths.insert(k, path) }
        }
    }
}

/// Where a walk stands.
pub struct WalkModel {
    /// The roots.
    pub roots: Seq<Seq<char>>,
    /// How many of them have been begun.
    pub begun: nat,
    /// The paths still to look at, with their depths, the next one last.
    pub stack: Seq<(Seq<char>, nat)>,
    /// The depth of the path that is being looked at, and the path.
    pub current: Option<(Seq<char>, nat)>,
    /// The files found.
    pub found: FoundModel,
    /// What was left out.
    pub limits: WalkLimits,
    /// Deepest nesting walked.
    pub max_depth: nat,
    /// Most files tracked.
    pub max_entries: nat,
}

/// The paths still to look at, when the next one is asked for: those of the next
/// root where there are none.
pub open spec fn refilled(walk: WalkModel) -> WalkModel {
    if walk.stack.len() == 0 && walk.begun < walk.roots.len() {
        WalkModel {
            stack: seq![(walk.roots[walk.begun as int], 0nat)],
            begun: walk.begun + 1,
            ..walk
        }
    } else {
        walk
    }
}

/// A walk after the next path was asked for.
pub open spec fn stepped(walk: WalkModel) -> WalkModel {
    let full = refilled(walk);
    if full.stack.len() == 0 {
        WalkModel { current: None, ..full }
    } else {
        WalkModel { current: Some(full.stack.last()), stack: full.stack.drop_last(), ..full }
    }
}

/// A walk after a look at the path that was asked for.
pub open spec fn visited(walk: WalkModel, kind: EntryKind) -> WalkModel {
    match walk.current {
        None => walk,
        Some((path, depth)) => match kind {
            EntryKind::Unreadable => WalkModel {
                limits: WalkLimits {
                    unreadable: (walk.limits.unreadable + 1) as u64,
                    ..walk.limits
                },
                ..walk
            },
            EntryKind::Symlink => WalkModel {
                limits: WalkLimits {
                    symlinks_skipped: (walk.limits.symlinks_skipped + 1) as u64,
                    ..walk.limits
                },
                ..walk
            },
            EntryKind::File => if walk.found.paths.len() >= walk.max_entries {
                WalkModel {
                    limits: WalkLimits {
                        over_entry_limit: (walk.limits.over_entry_limit + 1) as u64,
                        ..walk.limits
                    },
                    ..walk
                }
            } else {
                WalkModel { found: walk.found.adding(path), ..walk }
            },
            EntryKind::Directory => if depth >= walk.max_depth {
                WalkModel {
                    limits: WalkLimits {
                        over_depth_limit: (walk.limits.over_depth_limit + 1) as u64,
                        ..walk.limits
                    },
                    ..walk
                }
            } else {
                walk
            },
            EntryKind::Other => walk,
        },
    }
}

/// Whether the entries of a path that was looked at are wanted.
pub open spec fn wants_entries(walk: WalkModel, kind: EntryKind) -> bool {
    kind == EntryKind::Directory && (match walk.current {
        Some((_, depth)) => depth < walk.max_depth,
        None => false,
    })
}

/// A walk after one entry of the directory that was looked at; one that could
/// not be read is counted.
pub open spec fn with_entry(walk: WalkModel, entry: Option<Seq<char>>, depth: nat) -> WalkModel {
    match entry {
        Some(path) => WalkModel { stack: walk.stack.push((path, depth)), ..walk },
        None => WalkModel {
            limits: WalkLimits { unreadable: (walk.limits.unreadable + 1) as u64, ..walk.limits },
            ..walk
        },
    }
}

/// A walk after the entries of a directory.
pub open spec fn with_listing(walk: WalkModel, entries: Seq<Option<Seq<char>>>, depth: nat) -> WalkModel
    decreases entries.len(),
{
    if entries.len() == 0 {
        walk
    } else {
        with_entry(with_listing(walk, entries.drop_last(), depth), entries.last(), depth)
    }
}

/// A walk after the directory that was looked at was listed, or could not be.
pub open spec fn listed(walk: WalkModel, entries: Option<Seq<Option<Seq<char>>>>) -> WalkModel {
    match walk.current {
        None => walk,
        Some((_, depth)) => match entries {
            Some(entries) => with_listing(walk, entries, depth + 1),
            None => WalkModel {
                limits: WalkLimits {
                    unreadable: (walk.limits.unreadable + 1) as u64,
                    ..walk.limits
                },
                ..walk
            },
        },
    }
}

/// The models of paths with depths.
pub open spec fn stack_models(stack: Seq<(String, usize)>) -> Seq<(Seq<char>, nat)> {
    stack.map_values(|entry: (String, usize)| (entry.0@, entry.1 as nat))
}

/// The models of entries.
pub open spec fn entry_models(entries: Seq<Option<String>>) -> Seq<Option<Seq<char>>> {
    entries.map_values(|entry: Option<String>| crate::text::optional_text(entry))
}

/// A walk over the files under a set of roots.
pub struct Walker {
    roots: Vec<String>,
    begun: usize,
    stack: Vec<(String, usize)>,
    current: Option<(String, usize)>,
    keys: Vec<String>,
    paths: Vec<String>,
    limits: WalkLimits,
    max_depth: usize,
    max_entries: usize,
}

impl View for Walker {
    type V = WalkModel;

    closed spec fn view(&self) -> WalkModel {
        WalkModel {
            roots: texts(self.roots@),
            begun: self.begun as nat,
            stack: stack_models(self.stack@),
            current: match self.current {
                Some((path, depth)) => Some((path@, depth as nat)),
                None => None,
            },
            found: FoundModel { keys: texts(self.keys@), paths: texts(self.paths@) },
            limits: self.limits,
            max_depth: self.max_depth as nat,
            max_entries: self.max_entries as nat,
        }
    }
}

/// What holds of every walk: the files stand in order and are no more than the
/// most that are tracked, and nothing lies deeper than the deepest nesting.
pub open spec fn sound(walk: WalkModel) -> bool {
    &&& walk.found.well_formed()
    &&& walk.found.paths.len() <= walk.max_entries
    &&& walk.begun <= walk.roots.len()
    &&& walk.current matches Some((_, depth)) ==> depth <= walk.max_depth
    &&& forall|i: int| 0 <= i < walk.stack.len() ==> (#[trigger] walk.stack[i]).1 <= walk.max_depth
}

impl Walker {
    /// Begin a walk.
    pub fn new(roots: &[String], max_depth: usize, max_entries: usize) -> (walker: Self)
        ensures
            walker@ == (WalkModel {
                roots: texts(roots@),
                begun: 0,
                stack: seq![],
                current: None,
                found: FoundModel { keys: seq![], paths: seq![] },
                limits: WalkLimits::none(),
                max_depth: max_depth as nat,
                max_entries: max_entries as nat,
            }),
            sound(walker@),
    {
        let mut copies: Vec<String> = Vec::new();
        let mut i: usize = 0;
        while i < roots.len()
            invariant
                i <= roots@.len(),
                copies@.len() == i,
                forall|j: int| 0 <= j < i ==> (#[trigger] copies@[j])@ == roots@[j]@,
            decreases roots@.len() - i,
        {
            copies.push(roots[i].clone());
            i = i + 1;
        }
        assert(texts(copies@) =~= texts(roots@));
        let walker = Walker {
            roots: copies,
            begun: 0,
            stack: Vec::new(),
            current: None,
            keys: Vec::new(),
            paths: Vec::new(),
            limits: WalkLimits::default(),
            max_depth,
            max_entries,
        };
        assert(walker@.stack =~= seq![]);
        assert(walker@.found.keys =~= seq![]);
        assert(walker@.found.paths =~= seq![]);
        walker
    }

    /// The next path to look at; none where the walk is done.
    pub fn next_path(&mut self) -> (path: Option<String>)
        requires
            sound(old(self)@),
        ensures
            final(self)@ == stepped(old(self)@),
            sound(final(self)@),
            match path {
                Some(path) => final(self)@.current matches Some((current, _)) && current == path@,
                None => final(self)@.current is None,
            },
    {
        let ghost start = self@;
        if self.stack.len() == 0 && self.begun < self.roots.len() {
            let root = self.roots[self.begun].clone();
            assert(start.roots[self.begun as int] == root@);
            self.stack.push((root, 0));
            self.begun = self.begun + 1;
            assert(self@.stack =~= seq![(root@, 0nat)]);
        }
        let ghost full = self@;
        assert(full == refilled(start));
        match self.stack.pop() {
            None => {
                self.current = None;
                assert(self@.stack =~= full.stack);
                None
            },
            Some((path, depth)) => {
                let copy = path.clone();
                proof {
                    assert(full.stack.last() == (path@, depth as nat));
                    assert(full.stack[full.stack.len() - 1].1 <= full.max_depth);
                }
                self.current = Some((path, depth));
                assert(self@.stack =~= full.stack.drop_last());
                Some(copy)
            },
        }
    }

    fn add_file(&mut self, path: String)
        requires
            sound(old(self)@),
            old(self)@.found.paths.len() < old(self)@.max_entries,
        ensures
            final(self)@ == (WalkModel {
                found: old(self)@.found.adding(path@),
                ..old(self)@
            }),
            sound(final(self)@),
    {
        let ghost found = self@.found;
        let key = path_key(path.as_str());
        proof {
            lemma_found_at_rank(found.keys, key@);
        }
        let place: usize = find_rank(&self.keys, key.as_str());
        if place < self.keys.len() && equal(self.keys[place].as_str(), key.as_str()) {
            assert(found.keys[place as int] == self.keys@[place as int]@);
            return;
        }
        proof {
            if place < self.keys@.len() {
                assert(found.keys[place as int] == self.keys@[place as int]@);
            }
            lemma_insert_keeps_order(found.keys, key@);
        }
        let ghost model = path@;
        self.keys.insert(place, key);
        self.paths.insert(place, path);
        assert(self@.found.keys =~= found.keys.insert(place as int, key@));
        assert(self@.found.paths =~= found.paths.insert(place as int, model));
        assert forall|i: int| 0 <= i < self@.found.paths.len() implies #[trigger] self@.found.keys[i]
            == sort_key(self@.found.paths[i]) by {
            if i < place {
                assert(found.keys[i] == sort_key(found.paths[i]));
            } else if i > place {
                assert(found.keys[i - 1] == sort_key(found.paths[i - 1]));
            }
        }
    }

    /// Take in what a look at the path found, and say whether its entries are
    /// wanted.
    pub fn visit(&mut self, kind: EntryKind) -> (wanted: bool)
        requires
            sound(old(self)@),
            old(self)@.limits.has_room(1),
        ensures
            final(self)@ == visited(old(self)@, kind),
            sound(final(self)@),
            wanted == wants_entries(old(self)@, kind),
    {
        let (path, depth): (String, usize) = match &self.current {
            Some((path, depth)) => (path.clone(), *depth),
            None => return false,
        };
        match kind {
            EntryKind::Unreadable => {
                self.limits.unreadable = self.limits.unreadable + 1;
                false
            },
            EntryKind::Symlink => {
                self.limits.symlinks_skipped = self.limits.symlinks_skipped + 1;
                false
            },
            EntryKind::File => {
                if self.paths.len() >= self.max_entries {
                    self.limits.over_entry_limit = self.limits.over_entry_limit + 1;
                } else {
                    self.add_file(path);
                }
                false
            },
            EntryKind::Directory => {
                if depth >= self.max_depth {
                    self.limits.over_depth_limit = self.limits.over_depth_limit + 1;
                    false
                } else {
                    true
                }
            },
            EntryKind::Other => false,
        }
    }

    /// Take in the entries of the directory that was looked at, or that it could
    /// not be listed.
    pub fn list(&mut self, entries: Option<Vec<Option<String>>>)
        requires
            sound(old(self)@),
            old(self)@.current matches Some((_, depth)) ==> depth < old(self)@.max_depth,
            old(self)@.limits.has_room(1),
            entries matches Some(entries) ==> old(self)@.limits.has_room(entries@.len() as int),
        ensures
            final(self)@ == listed(
                old(self)@,
                match entries {
                    Some(entries) => Some(entry_models(entries@)),
                    None => None,
                },
            ),
            sound(final(self)@),
    {
        let depth: usize = match &self.current {
            Some((_, depth)) => *depth,
            None => return,
        };
        let entries = match entries {
            Some(entries) => entries,
            None => {
                self.limits.unreadable = self.limits.unreadable + 1;
                return;
            },
        };
        let ghost start = self@;
        let ghost all = entry_models(entries@);
        let ghost vec = entries@;
        assert(all.take(0) =~= seq![]);
        for entry in it: entries
            invariant
                it.seq() == vec,
                all == entry_models(vec),
                depth < self@.max_depth,
                sound(self@),
                start.limits.has_room(all.len() as int),
                self@.limits.unreadable <= start.limits.unreadable + it.index(),
                self@ == with_listing(start, all.take(it.index() as int), (depth + 1) as nat),
        {
            proof {
                assert(all.take(it.index() + 1).drop_last() =~= all.take(it.index() as int));
                assert(all[it.index() as int] == crate::text::optional_text(entry));
            }
            let ghost before = self@;
            match entry {
                Some(path) => {
                    let ghost model = path@;
                    self.stack.push((path, depth + 1));
                    assert(self@.stack =~= before.stack.push((model, (depth + 1) as nat)));
                },
                None => {
                    self.limits.unreadable = self.limits.unreadable + 1;
                },
            }
        }
        assert(all.take(all.len() as int) =~= all);
    }

    /// What was left out so far.
    pub fn limits(&self) -> (limits: WalkLimits)
        ensures
            limits == self@.limits,
    {
        self.limits
    }

    /// The files found, in order, and what was left out.
    pub fn finish(self) -> (result: (Vec<String>, WalkLimits))
        ensures
            texts(result.0@) == self@.found.paths,
            result.1 == self@.limits,
    {
        (self.paths, self.limits)
    }
}

/// What a walk does with what it finds: a file is taken while there is room and counted
/// otherwise, links are counted and never followed, what cannot be read is counted, and
/// a directory is entered unless it lies too deep, which is counted.
pub proof fn law_what_a_walk_does_with_what_it_finds(
    walk: WalkModel,
    path: Seq<char>,
    depth: nat,
    kind: EntryKind,
)
    requires
        walk.current == Some((path, depth)),
        walk.found.well_formed(),
        walk.limits.has_room(1),
    ensures
        ({
            let after = visited(walk, kind);
            let full = walk.found.paths.len() >= walk.max_entries;
            &&& kind == EntryKind::File && !full ==> after.found.keys.contains(sort_key(path))
            &&& kind != EntryKind::File || full ==> after.found == walk.found
            &&& after.limits.over_entry_limit - walk.limits.over_entry_limit == if kind
                == EntryKind::File && full {
                1int
            } else {
                0int
            }
            &&& after.limits.symlinks_skipped - walk.limits.symlinks_skipped == if kind
                == EntryKind::Symlink {
                1int
            } else {
                0int
            }
            &&& after.limits.unreadable - walk.limits.unreadable == if kind
                == EntryKind::Unreadable {
                1int
            } else {
                0int
            }
            &&& after.limits.over_depth_limit - walk.limits.over_depth_limit == if kind
                == EntryKind::Directory && depth >= walk.max_depth {
                1int
            } else {
                0int
            }
            &&& after.limits.abandoned == walk.limits.abandoned
            &&& after.stack == walk.stack
            &&& wants_entries(walk, kind) <==> kind == EntryKind::Directory && depth
                < walk.max_depth
        }),
{
    if kind == EntryKind::File && walk.found.paths.len() < walk.max_entries {
        law_taken_files_stand_in_order(walk.found, path, path);
    }
}

/// A file that is taken stands among those taken before, in order, once.
pub proof fn law_taken_files_stand_in_order(found: FoundModel, path: Seq<char>, other: Seq<char>)
    requires
        found.well_formed(),
    ensures
        found.adding(path).keys.contains(sort_key(path)),
        found.keys.contains(sort_key(other)) ==> found.adding(path).keys.contains(sort_key(other)),
        found.adding(path).keys.contains(sort_key(other)) ==> found.keys.contains(sort_key(other))
            || sort_key(other) == sort_key(path),
        is_sorted(found.adding(path).keys),
        found.keys.contains(sort_key(path)) ==> found.adding(path) == found,
        !found.keys.contains(sort_key(path)) ==> found.adding(path).paths.contains(path),
{
    let key = sort_key(path);
    law_a_text_is_put_in_its_place(found.keys, key, key);
    law_a_text_is_put_in_its_place(found.keys, key, sort_key(other));
    lemma_found_at_rank(found.keys, key);
    if !found.keys.contains(key) {
        let k = rank(found.keys, key) as int;
        assert(found.adding(path).paths[k] == path);
    }
}

/// The entries of a directory are looked at one level below it, the last one first; when
/// nothing is left, the next root is, at the top, and when no root is left nothing is.
pub proof fn law_entries_lie_one_level_deeper(
    walk: WalkModel,
    path: Seq<char>,
    depth: nat,
    entries: Seq<Option<Seq<char>>>,
    entry: Seq<char>,
)
    requires
        walk.current == Some((path, depth)),
    ensures
        stepped(listed(walk, Some(entries.push(Some(entry))))).current == Some((entry, depth + 1)),
        listed(walk, Some(Seq::<Option<Seq<char>>>::empty())) == walk,
        walk.limits.unreadable < u64::MAX ==> listed(walk, None).limits.unreadable
            == walk.limits.unreadable + 1 && listed(walk, None).stack == walk.stack,
        walk.stack.len() == 0 && walk.begun < walk.roots.len() ==> stepped(walk).current == Some(
            (walk.roots[walk.begun as int], 0nat),
        ) && stepped(walk).begun == walk.begun + 1,
        walk.stack.len() == 0 && walk.begun >= walk.roots.len() ==> stepped(walk).current is None,
        walk.stack.len() > 0 ==> stepped(walk).current == Some(walk.stack.last())
            && stepped(walk).begun == walk.begun,
{
    assert(entries.push(Some(entry)).drop_last() =~= entries);
}

/// A walk left something out exactly where it was given up, met a limit or could not
/// read something. A link that was not followed leaves nothing out.
pub proof fn law_links_leave_nothing_out(limits: WalkLimits)
    ensures
        limits.left_out() <==> !(!limits.abandoned && limits.over_entry_limit == 0
            && limits.over_depth_limit == 0 && limits.unreadable == 0),
        (WalkLimits { symlinks_skipped: 0, ..limits }).left_out() == limits.left_out(),
{
}

} // verus!
