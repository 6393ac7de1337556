//! A table from keys to points in time, held in key order.
//!
//! A lookup is a binary search, so the one path that has to answer at once
//! neither allocates nor walks the table.

use vstd::prelude::*;
use crate::time::Timestamp;

verus! {

/// Keys that are totally ordered.
pub trait Ranked: Copy {
    /// Whether this key comes strictly before another.
    spec fn below(self, other: Self) -> bool;

    /// The order is strict, total and transitive.
    proof fn lemma_order(a: Self, b: Self, c: Self)
        ensures
            !a.below(a),
            a.below(b) || a == b || b.below(a),
            a.below(b) && b.below(c) ==> a.below(c),
    ;

    /// Whether this key comes strictly before another.
    fn is_below(&self, other: &Self) -> (below: bool)
        ensures
            below == self.below(*other),
    ;
}

/// Whether entries stand in the order of their keys, each key once.
pub open spec fn in_key_order<K: Ranked>(entries: Seq<(K, Timestamp)>) -> bool {
    forall|i: int, j: int| 0 <= i < j < entries.len() ==> entries[i].0.below(entries[j].0)
}

/// Whether a key stands among entries.
pub open spec fn has_key<K>(entries: Seq<(K, Timestamp)>, key: K) -> bool {
    exists|i: int| 0 <= i < entries.len() && entries[i].0 == key
}

/// Where a key stands among entries.
pub open spec fn place_of<K>(entries: Seq<(K, Timestamp)>, key: K) -> int {
    choose|i: int| 0 <= i < entries.len() && entries[i].0 == key
}

/// What entries say of each key.
pub open spec fn entry_map<K>(entries: Seq<(K, Timestamp)>) -> Map<K, Timestamp> {
    Map::new(|key: K| has_key(entries, key), |key: K| entries[place_of(entries, key)].1)
}

/// What is left of a table without the entries up to a point in time.
pub open spec fn after<K>(table: Map<K, Timestamp>, cutoff: Timestamp) -> Map<K, Timestamp> {
    Map::new(
        |key: K| table.contains_key(key) && table[key].nanos > cutoff.nanos,
        |key: K| table[key],
    )
}

/// A table from keys to points in time.
#[derive(Debug)]
pub struct Table<K> {
    entries: Vec<(K, Timestamp)>,
}

impl<K> View for Table<K> {
    type V = Map<K, Timestamp>;

    closed spec fn view(&self) -> Map<K, Timestamp> {
        entry_map(self.entries@)
    }
}

proof fn lemma_entry<K: Ranked>(entries: Seq<(K, Timestamp)>, i: int)
    requires
        in_key_order(entries),
        0 <= i < entries.len(),
    ensures
        entry_map(entries).contains_key(entries[i].0),
        entry_map(entries)[entries[i].0] == entries[i].1,
{
    let key = entries[i].0;
    let j = place_of(entries, key);
    assert(has_key(entries, key));
    K::lemma_order(key, key, key);
    if j < i {
        assert(entries[j].0.below(entries[i].0));
    } else if i < j {
        assert(entries[i].0.below(entries[j].0));
    }
}

proof fn lemma_count<K: Ranked>(entries: Seq<(K, Timestamp)>)
    requires
        in_key_order(entries),
    ensures
        entry_map(entries).dom().finite(),
        entry_map(entries).dom().len() == entries.len(),
{
    let keys = entries.map_values(|entry: (K, Timestamp)| entry.0);
    assert forall|i: int, j: int|
        0 <= i < keys.len() && 0 <= j < keys.len() && i != j implies keys[i] != keys[j] by {
        K::lemma_order(keys[i], keys[j], keys[i]);
        K::lemma_order(keys[j], keys[i], keys[j]);
        if i < j {
            assert(entries[i].0.below(entries[j].0));
        } else {
            assert(entries[j].0.below(entries[i].0));
        }
    }
    keys.unique_seq_to_set();
    assert(keys.to_set() =~= entry_map(entries).dom()) by {
        assert forall|key: K| keys.to_set().contains(key) <==> has_key(entries, key) by {
            if has_key(entries, key) {
                assert(keys[place_of(entries, key)] == key);
            }
            if keys.contains(key) {
                let i = choose|i: int| 0 <= i < keys.len() && keys[i] == key;
                assert(entries[i].0 == key);
            }
        }
    }
}

proof fn lemma_inserted<K: Ranked>(entries: Seq<(K, Timestamp)>, place: int, key: K, at: Timestamp)
    requires
        in_key_order(entries),
        0 <= place <= entries.len(),
        forall|j: int| 0 <= j < place ==> (#[trigger] entries[j]).0.below(key),
        forall|j: int| place <= j < entries.len() ==> key.below((#[trigger] entries[j]).0),
    ensures
        in_key_order(entries.insert(place, (key, at))),
        !entry_map(entries).contains_key(key),
        entry_map(entries.insert(place, (key, at))) == entry_map(entries).insert(key, at),
{
    let longer = entries.insert(place, (key, at));
    K::lemma_order(key, key, key);
    assert forall|i: int, j: int| 0 <= i < j < longer.len() implies longer[i].0.below(
        longer[j].0,
    ) by {
        let a = if i < place {
            i
        } else {
            i - 1
        };
        let b = if j < place {
            j
        } else {
            j - 1
        };
        if i != place {
            assert(longer[i] == entries[a]);
        }
        if j != place {
            assert(longer[j] == entries[b]);
        }
    }
    if has_key(entries, key) {
        let i = place_of(entries, key);
        assert(entries[i].0.below(key) || key.below(entries[i].0));
    }
    lemma_entry(longer, place);
    assert forall|other: K| #[trigger]
        entry_map(longer).contains_key(other) <==> entry_map(entries).insert(key, at).contains_key(
            other,
        ) by {
        if has_key(entries, other) {
            let i = place_of(entries, other);
            if i < place {
                assert(longer[i].0 == other);
            } else {
                assert(longer[i + 1].0 == other);
            }
        }
        if has_key(longer, other) && other != key {
            let i = place_of(longer, other);
            if i < place {
                assert(entries[i].0 == other);
            } else {
                assert(entries[i - 1].0 == other);
            }
        }
    }
    assert forall|other: K| #[trigger]
        entry_map(longer).contains_key(other) implies entry_map(longer)[other] == entry_map(
        entries,
    ).insert(key, at)[other] by {
        if other != key {
            let i = place_of(longer, other);
            lemma_entry(longer, i);
            if i < place {
                lemma_entry(entries, i);
            } else {
                assert(longer[i] == entries[i - 1]);
                lemma_entry(entries, i - 1);
            }
        }
    }
    assert(entry_map(longer) =~= entry_map(entries).insert(key, at));
}

proof fn lemma_updated<K: Ranked>(entries: Seq<(K, Timestamp)>, place: int, at: Timestamp)
    requires
        in_key_order(entries),
        0 <= place < entries.len(),
    ensures
        in_key_order(entries.update(place, (entries[place].0, at))),
        entry_map(entries.update(place, (entries[place].0, at))) == entry_map(entries).insert(
            entries[place].0,
            at,
        ),
{
    let key = entries[place].0;
    let other_entries = entries.update(place, (key, at));
    assert forall|i: int, j: int| 0 <= i < j < other_entries.len() implies other_entries[i].0.below(
        other_entries[j].0,
    ) by {
        assert(entries[i].0.below(entries[j].0));
    }
    lemma_entry(other_entries, place);
    lemma_entry(entries, place);
    assert forall|other: K| #[trigger]
        entry_map(other_entries).contains_key(other) <==> entry_map(entries).contains_key(
            other,
        ) by {
        if has_key(entries, other) {
            assert(other_entries[place_of(entries, other)].0 == other);
        }
        if has_key(other_entries, other) {
            assert(entries[place_of(other_entries, other)].0 == other);
        }
    }
    assert forall|other: K| #[trigger]
        entry_map(other_entries).contains_key(other) && other != key implies entry_map(
        other_entries,
    )[other] == entry_map(entries)[other] by {
        let i = place_of(other_entries, other);
        lemma_entry(other_entries, i);
        lemma_entry(entries, i);
    }
    assert(entry_map(other_entries) =~= entry_map(entries).insert(key, at));
}

proof fn lemma_removed<K: Ranked>(entries: Seq<(K, Timestamp)>, place: int)
    requires
        in_key_order(entries),
        0 <= place < entries.len(),
    ensures
        in_key_order(entries.remove(place)),
        entry_map(entries.remove(place)) == entry_map(entries).remove(entries[place].0),
{
    let key = entries[place].0;
    let shorter = entries.remove(place);
    assert forall|i: int, j: int| 0 <= i < j < shorter.len() implies shorter[i].0.below(
        shorter[j].0,
    ) by {
        let a = if i < place {
            i
        } else {
            i + 1
        };
        let b = if j < place {
            j
        } else {
            j + 1
        };
        assert(entries[a].0.below(entries[b].0));
    }
    assert forall|other: K| #[trigger]
        entry_map(shorter).contains_key(other) <==> entry_map(entries).remove(key).contains_key(
            other,
        ) by {
        if has_key(shorter, other) {
            let i = place_of(shorter, other);
            let a = if i < place {
                i
            } else {
                i + 1
            };
            assert(entries[a].0 == other);
            K::lemma_order(key, key, key);
            assert(entries[a].0.below(key) || key.below(entries[a].0));
        }
        if has_key(entries, other) && other != key {
            let i = place_of(entries, other);
            if i < place {
                assert(shorter[i].0 == other);
            } else {
                assert(shorter[i - 1].0 == other);
            }
        }
    }
    assert forall|other: K| #[trigger]
        entry_map(shorter).contains_key(other) implies entry_map(shorter)[other] == entry_map(
        entries,
    )[other] by {
        let i = place_of(shorter, other);
        lemma_entry(shorter, i);
        lemma_entry(
            entries,
            if i < place {
                i
            } else {
                i + 1
            },
        );
    }
    assert(entry_map(shorter) =~= entry_map(entries).remove(key));
}

impl<K: Ranked> Table<K> {
    /// The entries stand in key order.
    pub closed spec fn well_formed(&self) -> bool {
        in_key_order(self.entries@)
    }

    /// An empty table.
    pub fn new() -> (table: Self)
        ensures
            table.well_formed(),
            table@ == Map::<K, Timestamp>::empty(),
    {
        let table = Table { entries: Vec::new() };
        assert(table@ =~= Map::<K, Timestamp>::empty());
        table
    }

    /// How many keys there are.
    pub fn len(&self) -> (count: usize)
        requires
            self.well_formed(),
        ensures
            self@.dom().finite(),
            count == self@.dom().len(),
    {
        proof {
            lemma_count(self.entries@);
        }
        self.entries.len()
    }

    fn find(&self, key: &K) -> (found: (bool, usize))
        requires
            self.well_formed(),
        ensures
            found.0 ==> found.1 < self.entries@.len() && self.entries@[found.1 as int].0 == *key,
            !found.0 ==> {
                &&& found.1 <= self.entries@.len()
                &&& forall|j: int| 0 <= j < found.1 ==> (#[trigger] self.entries@[j]).0.below(*key)
                &&& forall|j: int|
                    found.1 <= j < self.entries@.len() ==> key.below(
                        (#[trigger] self.entries@[j]).0,
                    )
            },
    {
        let mut low: usize = 0;
        let mut high: usize = self.entries.len();
        while low < high
            invariant
                in_key_order(self.entries@),
                low <= high <= self.entries@.len(),
                forall|j: int| 0 <= j < low ==> (#[trigger] self.entries@[j]).0.below(*key),
                forall|j: int|
                    high <= j < self.entries@.len() ==> key.below((#[trigger] self.entries@[j]).0),
            decreases high - low,
        {
            let middle: usize = low + (high - low) / 2;
            let ghost here = self.entries@[middle as int].0;
            if self.entries[middle].0.is_below(key) {
                assert forall|j: int| 0 <= j < middle + 1 implies (
                #[trigger] self.entries@[j]).0.below(*key) by {
                    K::lemma_order(self.entries@[j].0, here, *key);
                }
                low = middle + 1;
            } else if key.is_below(&self.entries[middle].0) {
                assert forall|j: int| middle <= j < self.entries@.len() implies key.below(
                    (#[trigger] self.entries@[j]).0,
                ) by {
                    K::lemma_order(*key, here, self.entries@[j].0);
                }
                high = middle;
            } else {
                proof {
                    K::lemma_order(here, *key, here);
                }
                return (true, middle);
            }
        }
        (false, low)
    }

    /// What a key stands for.
    pub fn get(&self, key: &K) -> (at: Option<Timestamp>)
        requires
            self.well_formed(),
        ensures
            at == (if self@.contains_key(*key) {
                Some(self@[*key])
            } else {
                None
            }),
    {
        let (found, place): (bool, usize) = self.find(key);
        if found {
            proof {
                lemma_entry(self.entries@, place as int);
            }
            Some(self.entries[place].1)
        } else {
            proof {
                lemma_inserted(self.entries@, place as int, *key, Timestamp { nanos: 0 });
            }
            None
        }
    }

    /// Let a key stand for a point in time, and say whether it stood for one
    /// before.
    pub fn insert(&mut self, key: K, at: Timestamp) -> (already: bool)
        requires
            old(self).well_formed(),
        ensures
            final(self).well_formed(),
            final(self)@ == old(self)@.insert(key, at),
            already == old(self)@.contains_key(key),
    {
        let (found, place): (bool, usize) = self.find(&key);
        if found {
            proof {
                lemma_entry(self.entries@, place as int);
                lemma_updated(self.entries@, place as int, at);
            }
            self.entries.set(place, (key, at));
            true
        } else {
            proof {
                lemma_inserted(self.entries@, place as int, key, at);
            }
            self.entries.insert(place, (key, at));
            false
        }
    }

    /// Forget a key.
    pub fn remove(&mut self, key: &K)
        requires
            old(self).well_formed(),
        ensures
            final(self).well_formed(),
            final(self)@ == old(self)@.remove(*key),
    {
        let (found, place): (bool, usize) = self.find(key);
        if found {
            proof {
                lemma_removed(self.entries@, place as int);
            }
            self.entries.remove(place);
        } else {
            proof {
                lemma_inserted(self.entries@, place as int, *key, Timestamp { nanos: 0 });
            }
            assert(self@ =~= self@.remove(*key));
        }
    }

    /// Forget every key that stands for a point in time up to `cutoff`, and say
    /// how many that were.
    pub fn drop_up_to(&mut self, cutoff: Timestamp) -> (dropped: usize)
        requires
            old(self).well_formed(),
        ensures
            final(self).well_formed(),
            final(self)@ == after(old(self)@, cutoff),
            final(self)@.dom().finite(),
            old(self)@.dom().finite(),
            dropped == old(self)@.dom().len() - final(self)@.dom().len(),
    {
        let ghost all = self.entries@;
        let mut kept: Vec<(K, Timestamp)> = Vec::new();
        let mut i: usize = 0;
        while i < self.entries.len()
            invariant
                all == self.entries@,
                in_key_order(all),
                i <= all.len(),
                kept@.len() <= i,
                in_key_order(kept@),
                forall|j: int|
                    0 <= j < kept@.len() ==> exists|k: int|
                        0 <= k < i && all[k] == #[trigger] kept@[j],
                forall|j: int| 0 <= j < kept@.len() ==> (#[trigger] kept@[j]).1.nanos > cutoff.nanos,
                forall|k: int|
                    0 <= k < i && (#[trigger] all[k]).1.nanos > cutoff.nanos ==> kept@.contains(
                        all[k],
                    ),
            decreases all.len() - i,
        {
            let entry = self.entries[i];
            if entry.1.nanos > cutoff.nanos {
                let ghost before = kept@;
                kept.push(entry);
                proof {
                    assert forall|a: int, b: int| 0 <= a < b < kept@.len() implies kept@[a].0.below(
                        kept@[b].0,
                    ) by {
                        if b == before.len() {
                            let k = choose|k: int| 0 <= k < i && all[k] == before[a];
                            assert(all[k].0.below(all[i as int].0));
                        }
                    }
                    assert forall|j: int| 0 <= j < kept@.len() implies exists|k: int|
                        0 <= k < i + 1 && all[k] == #[trigger] kept@[j] by {
                        if j == before.len() {
                            assert(all[i as int] == kept@[j]);
                        } else {
                            let k = choose|k: int| 0 <= k < i && all[k] == before[j];
                            assert(all[k] == kept@[j]);
                        }
                    }
                    assert forall|k: int|
                        0 <= k < i + 1 && (#[trigger] all[k]).1.nanos > cutoff.nanos implies kept@.contains(
                        all[k],
                    ) by {
                        if k == i {
                            assert(kept@[before.len() as int] == all[k]);
                        } else {
                            let j = choose|j: int| 0 <= j < before.len() && before[j] == all[k];
                            assert(kept@[j] == all[k]);
                        }
                    }
                }
            }
            i = i + 1;
        }
        let dropped: usize = self.entries.len() - kept.len();
        proof {
            lemma_count(all);
            lemma_count(kept@);
            let was = entry_map(all);
            let left = entry_map(kept@);
            assert forall|key: K| #[trigger]
                left.contains_key(key) <==> after(was, cutoff).contains_key(key) by {
                if has_key(kept@, key) {
                    let j = place_of(kept@, key);
                    let k = choose|k: int| 0 <= k < all.len() && all[k] == kept@[j];
                    lemma_entry(all, k);
                }
                if has_key(all, key) && was[key].nanos > cutoff.nanos {
                    let k = place_of(all, key);
                    assert(kept@.contains(all[k]));
                    let j = choose|j: int| 0 <= j < kept@.len() && kept@[j] == all[k];
                    assert(kept@[j].0 == key);
                }
            }
            assert forall|key: K| #[trigger] left.contains_key(key) implies left[key] == was[key] by {
                let j = place_of(kept@, key);
                let k = choose|k: int| 0 <= k < all.len() && all[k] == kept@[j];
                lemma_entry(all, k);
                lemma_entry(kept@, j);
            }
            assert(left =~= after(was, cutoff));
        }
        self.entries = kept;
        dropped
    }
}

} // verus!
