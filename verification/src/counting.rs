//! Counting the integers of an interval that have a property.

use vstd::prelude::*;

verus! {

/// How many integers of `[from, to)` satisfy `p`.
pub open spec fn count_in(from: int, to: int, p: spec_fn(int) -> bool) -> nat
    decreases to - from,
{
    if from >= to {
        0
    } else {
        count_in(from, to - 1, p) + if p(to - 1) { 1nat } else { 0nat }
    }
}

/// Counting an interval is counting its two halves.
pub proof fn lemma_count_split(from: int, mid: int, to: int, p: spec_fn(int) -> bool)
    requires
        from <= mid <= to,
    ensures
        count_in(from, to, p) == count_in(from, mid, p) + count_in(mid, to, p),
    decreases to - mid,
{
    if mid < to {
        lemma_count_split(from, mid, to - 1, p);
    }
}

/// Where every integer qualifies, the count is the length.
pub proof fn lemma_count_all(from: int, to: int, p: spec_fn(int) -> bool)
    requires
        from <= to,
        forall|i: int| from <= i < to ==> #[trigger] p(i),
    ensures
        count_in(from, to, p) == to - from,
    decreases to - from,
{
    if from < to {
        lemma_count_all(from, to - 1, p);
    }
}

/// Where no integer qualifies, the count is zero.
pub proof fn lemma_count_none(from: int, to: int, p: spec_fn(int) -> bool)
    requires
        forall|i: int| from <= i < to ==> !#[trigger] p(i),
    ensures
        count_in(from, to, p) == 0,
    decreases to - from,
{
    if from < to {
        lemma_count_none(from, to - 1, p);
    }
}

/// Two properties that agree on the interval count alike.
pub proof fn lemma_count_same(
    from: int,
    to: int,
    p: spec_fn(int) -> bool,
    q: spec_fn(int) -> bool,
)
    requires
        forall|i: int| from <= i < to ==> #[trigger] p(i) == q(i),
    ensures
        count_in(from, to, p) == count_in(from, to, q),
    decreases to - from,
{
    if from < to {
        lemma_count_same(from, to - 1, p, q);
    }
}

/// A count never exceeds the length of its interval, and a stronger property
/// never counts higher.
pub proof fn lemma_count_le(from: int, to: int, p: spec_fn(int) -> bool, q: spec_fn(int) -> bool)
    requires
        from <= to,
        forall|i: int| from <= i < to && #[trigger] p(i) ==> q(i),
    ensures
        count_in(from, to, p) <= count_in(from, to, q),
        count_in(from, to, q) <= to - from,
    decreases to - from,
{
    if from < to {
        lemma_count_le(from, to - 1, p, q);
    }
}

} // verus!
