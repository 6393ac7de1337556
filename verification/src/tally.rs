//! Counts by name, in the order of the names.

use vstd::prelude::*;
use crate::text::{equal, lemma_precedes, owned, precedes, sorts_before};

verus! {

/// The counts with one more for a name.
pub open spec fn tallied(counts: Seq<(Seq<char>, nat)>, name: Seq<char>) -> Seq<(Seq<char>, nat)>
    decreases counts.len(),
{
    if counts.len() == 0 {
        seq![(name, 1nat)]
    } else if counts[0].0 == name {
        counts.update(0, (name, counts[0].1 + 1))
    } else if precedes(name, counts[0].0) {
        seq![(name, 1nat)] + counts
    } else {
        seq![counts[0]] + tallied(counts.skip(1), name)
    }
}

/// The count of a name; 0 where there is none.
pub open spec fn count_of(counts: Seq<(Seq<char>, nat)>, name: Seq<char>) -> nat
    decreases counts.len(),
{
    if counts.len() == 0 {
        0
    } else if counts[0].0 == name {
        counts[0].1
    } else {
        count_of(counts.skip(1), name)
    }
}

/// Whether the names stand in order, none of them twice.
pub open spec fn in_order(counts: Seq<(Seq<char>, nat)>) -> bool {
    forall|i: int, j: int|
        0 <= i < j < counts.len() ==> precedes(#[trigger] counts[i].0, #[trigger] counts[j].0)
}

/// Whether no count is over a bound.
pub open spec fn at_most(counts: Seq<(Seq<char>, nat)>, bound: nat) -> bool {
    forall|i: int| 0 <= i < counts.len() ==> (#[trigger] counts[i]).1 <= bound
}

/// Counting a name raises its own count by one and no other, and keeps the names
/// in order.
pub proof fn law_a_tally_counts(counts: Seq<(Seq<char>, nat)>, name: Seq<char>, other: Seq<char>)
    requires
        in_order(counts),
    ensures
        count_of(tallied(counts, name), other) == count_of(counts, other) + if other == name {
            1nat
        } else {
            0nat
        },
        in_order(tallied(counts, name)),
    decreases counts.len(),
{
    reveal_with_fuel(count_of, 2);
    let after = tallied(counts, name);
    if counts.len() == 0 {
        assert(after.skip(1) =~= seq![]);
    } else if counts[0].0 == name {
        assert(after.skip(1) =~= counts.skip(1));
    } else if precedes(name, counts[0].0) {
        assert(after.skip(1) =~= counts);
        if other == name {
            lemma_absent(counts, name);
        }
        assert forall|i: int, j: int| 0 <= i < j < after.len() implies precedes(
            #[trigger] after[i].0,
            #[trigger] after[j].0,
        ) by {
            assert(after[j] == counts[j - 1]);
            if i == 0 {
                lemma_precedes(name, counts[0].0, counts[j - 1].0);
            } else {
                assert(after[i] == counts[i - 1]);
            }
        }
    } else {
        let rest = counts.skip(1);
        assert forall|i: int, j: int| 0 <= i < j < rest.len() implies precedes(
            #[trigger] rest[i].0,
            #[trigger] rest[j].0,
        ) by {
            assert(rest[i] == counts[i + 1] && rest[j] == counts[j + 1]);
        }
        law_a_tally_counts(rest, name, other);
        assert(after.skip(1) =~= tallied(rest, name));
        lemma_precedes(name, counts[0].0, name);
        assert forall|j: int| 0 <= j < tallied(rest, name).len() implies precedes(
            counts[0].0,
            #[trigger] tallied(rest, name)[j].0,
        ) by {
            assert forall|k: int| 0 <= k < rest.len() implies precedes(
                counts[0].0,
                #[trigger] rest[k].0,
            ) by {
                assert(rest[k] == counts[k + 1]);
            }
            lemma_names_of_tally(rest, name, j);
        }
        assert forall|i: int, j: int| 0 <= i < j < after.len() implies precedes(
            #[trigger] after[i].0,
            #[trigger] after[j].0,
        ) by {
            assert(after[j] == tallied(rest, name)[j - 1]);
            if i > 0 {
                assert(after[i] == tallied(rest, name)[i - 1]);
            }
        }
    }
}

proof fn lemma_absent(counts: Seq<(Seq<char>, nat)>, name: Seq<char>)
    requires
        in_order(counts),
        counts.len() > 0 ==> precedes(name, counts[0].0),
    ensures
        count_of(counts, name) == 0,
    decreases counts.len(),
{
    if counts.len() > 0 {
        lemma_precedes(name, name, name);
        let rest = counts.skip(1);
        assert forall|i: int, j: int| 0 <= i < j < rest.len() implies precedes(
            #[trigger] rest[i].0,
            #[trigger] rest[j].0,
        ) by {
            assert(rest[i] == counts[i + 1] && rest[j] == counts[j + 1]);
        }
        if rest.len() > 0 {
            assert(rest[0] == counts[1]);
            lemma_precedes(name, counts[0].0, counts[1].0);
        }
        lemma_absent(rest, name);
    }
}

proof fn lemma_names_of_tally(counts: Seq<(Seq<char>, nat)>, name: Seq<char>, j: int)
    requires
        0 <= j < tallied(counts, name).len(),
    ensures
        tallied(counts, name)[j].0 == name || exists|k: int|
            0 <= k < counts.len() && (#[trigger] counts[k]).0 == tallied(counts, name)[j].0,
    decreases counts.len(),
{
    if counts.len() == 0 {
    } else if counts[0].0 == name {
        if j > 0 {
            assert(counts[j].0 == tallied(counts, name)[j].0);
        }
    } else if precedes(name, counts[0].0) {
        if j > 0 {
            assert(counts[j - 1].0 == tallied(counts, name)[j].0);
        }
    } else if j == 0 {
        assert(counts[0].0 == tallied(counts, name)[j].0);
    } else {
        let rest = counts.skip(1);
        lemma_names_of_tally(rest, name, j - 1);
        assert(tallied(counts, name)[j] == tallied(rest, name)[j - 1]);
        if tallied(rest, name)[j - 1].0 != name {
            let k = choose|k: int|
                0 <= k < rest.len() && (#[trigger] rest[k]).0 == tallied(rest, name)[j - 1].0;
            assert(counts[k + 1] == rest[k]);
        }
    }
}

/// Whether no count is over a bound, but for one more on some names.
pub open spec fn at_most_but(
    counts: Seq<(Seq<char>, nat)>,
    names: Seq<Seq<char>>,
    bound: nat,
) -> bool {
    forall|i: int|
        0 <= i < counts.len() ==> (#[trigger] counts[i]).1 <= bound + if names.contains(
            counts[i].0,
        ) {
            1nat
        } else {
            0nat
        }
}

/// Counting a name for the first time raises no count by more than one.
pub proof fn lemma_tally_bound(
    counts: Seq<(Seq<char>, nat)>,
    names: Seq<Seq<char>>,
    name: Seq<char>,
    bound: nat,
)
    requires
        at_most_but(counts, names, bound),
        !names.contains(name),
    ensures
        at_most_but(tallied(counts, name), names.push(name), bound),
    decreases counts.len(),
{
    let after = tallied(counts, name);
    let more = names.push(name);
    assert(more.contains(name)) by {
        assert(more[names.len() as int] == name);
    }
    assert forall|other: Seq<char>| names.contains(other) implies #[trigger] more.contains(
        other,
    ) by {
        let k = choose|k: int| 0 <= k < names.len() && names[k] == other;
        assert(more[k] == other);
    }
    if counts.len() > 0 && counts[0].0 != name && !precedes(name, counts[0].0) {
        let rest = counts.skip(1);
        assert forall|i: int| 0 <= i < rest.len() implies (#[trigger] rest[i]).1 <= bound
            + if names.contains(rest[i].0) {
            1nat
        } else {
            0nat
        } by {
            assert(rest[i] == counts[i + 1]);
        }
        lemma_tally_bound(rest, names, name, bound);
    }
    assert forall|i: int| 0 <= i < after.len() implies (#[trigger] after[i]).1 <= bound
        + if more.contains(after[i].0) {
        1nat
    } else {
        0nat
    } by {
        if counts.len() == 0 {
        } else if counts[0].0 == name {
            assert(counts[i].0 == after[i].0);
        } else if precedes(name, counts[0].0) {
            if i > 0 {
                assert(after[i] == counts[i - 1]);
            }
        } else if i == 0 {
            assert(after[0] == counts[0]);
        } else {
            assert(after[i] == tallied(counts.skip(1), name)[i - 1]);
        }
    }
}

/// Whether the counts of a name can go up.
pub open spec fn room_for(counts: Seq<(Seq<char>, nat)>, name: Seq<char>) -> bool {
    forall|i: int|
        0 <= i < counts.len() && (#[trigger] counts[i]).0 == name ==> counts[i].1 < usize::MAX
}

/// The models of counts.
pub open spec fn counts_of(entries: Seq<(String, usize)>) -> Seq<(Seq<char>, nat)> {
    entries.map_values(|entry: (String, usize)| (entry.0@, entry.1 as nat))
}

/// Counts by name, in the order of the names.
#[derive(Debug, Clone, PartialEq, Eq)]
pub struct Tally {
    /// Each name with its count.
    pub entries: Vec<(String, usize)>,
}

impl View for Tally {
    type V = Seq<(Seq<char>, nat)>;

    open spec fn view(&self) -> Seq<(Seq<char>, nat)> {
        counts_of(self.entries@)
    }
}

impl Default for Tally {
    fn default() -> (tally: Self)
        ensures
            tally@ == Seq::<(Seq<char>, nat)>::empty(),
    {
        Self::new()
    }
}

impl Tally {
    /// No count yet.
    pub fn new() -> (tally: Self)
        ensures
            tally@ == Seq::<(Seq<char>, nat)>::empty(),
    {
        let tally = Tally { entries: Vec::new() };
        assert(tally@ =~= Seq::<(Seq<char>, nat)>::empty());
        tally
    }

    /// Whether nothing was counted.
    pub fn is_empty(&self) -> (empty: bool)
        ensures
            empty == (self@.len() == 0),
    {
        self.entries.len() == 0
    }

    /// The count of a name; 0 where there is none.
    pub fn get(&self, name: &str) -> (count: usize)
        ensures
            count == count_of(self@, name@),
    {
        let ghost counts = self@;
        let mut i: usize = 0;
        assert(counts.skip(0) =~= counts);
        while i < self.entries.len()
            invariant
                counts == self@,
                i <= counts.len(),
                count_of(counts.skip(i as int), name@) == count_of(counts, name@),
            decreases counts.len() - i,
        {
            assert(counts.skip(i as int)[0] == counts[i as int]);
            assert(counts.skip(i as int).skip(1) =~= counts.skip(i + 1));
            assert(counts[i as int] == (self.entries@[i as int].0@, self.entries@[i as int].1
                as nat));
            if equal(self.entries[i].0.as_str(), name) {
                return self.entries[i].1;
            }
            i = i + 1;
        }
        0
    }

    /// Count a name once more.
    pub fn count(&mut self, name: &str)
        requires
            room_for(old(self)@, name@),
        ensures
            final(self)@ == tallied(old(self)@, name@),
    {
        let ghost counts = self@;
        let mut i: usize = 0;
        assert(counts.skip(0) =~= counts);
        assert(counts.take(0) + tallied(counts, name@) =~= tallied(counts, name@));
        while i < self.entries.len()
            invariant
                counts == self@,
                counts == old(self)@,
                room_for(counts, name@),
                i <= counts.len(),
                counts.take(i as int) + tallied(counts.skip(i as int), name@) == tallied(
                    counts,
                    name@,
                ),
            decreases counts.len() - i,
        {
            let ghost rest = counts.skip(i as int);
            assert(rest[0] == counts[i as int]);
            assert(rest.skip(1) =~= counts.skip(i + 1));
            assert(counts[i as int] == (self.entries@[i as int].0@, self.entries@[i as int].1
                as nat));
            if equal(self.entries[i].0.as_str(), name) {
                let ghost before = self.entries@;
                let (own, n) = self.entries.remove(i);
                self.entries.insert(i, (own, n + 1));
                proof {
                    assert(self@ =~= counts.take(i as int) + rest.update(
                        0,
                        (name@, counts[i as int].1 + 1),
                    ));
                }
                return;
            }
            if sorts_before(name, self.entries[i].0.as_str()) {
                let ghost before = self.entries@;
                self.entries.insert(i, (owned(name), 1));
                proof {
                    assert(self@ =~= counts.take(i as int) + (seq![(name@, 1nat)] + rest));
                }
                return;
            }
            proof {
                let more = tallied(counts.skip(i + 1), name@);
                assert(counts.take(i + 1) + more =~= counts.take(i as int) + (seq![
                    counts[i as int],
                ] + more));
            }
            i = i + 1;
        }
        proof {
            assert(counts.skip(i as int) =~= seq![]);
            assert(counts.take(i as int) =~= counts);
        }
        self.entries.push((owned(name), 1));
        assert(self@ =~= counts + seq![(name@, 1nat)]);
    }
}

} // verus!
