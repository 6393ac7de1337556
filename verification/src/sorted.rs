//! Ordered lists of texts without repetition.

use vstd::prelude::*;
use crate::text::{equal, lemma_precedes, precedes, sorts_before, texts};

verus! {

/// Whether texts stand in order, none of them twice.
pub open spec fn is_sorted(list: Seq<Seq<char>>) -> bool {
    forall|i: int, j: int|
        0 <= i < j < list.len() ==> precedes(#[trigger] list[i], #[trigger] list[j])
}

/// How many texts sort before another: where it stands, or belongs.
pub open spec fn rank(list: Seq<Seq<char>>, text: Seq<char>) -> nat
    decreases list.len(),
{
    if list.len() == 0 {
        0
    } else {
        rank(list.drop_last(), text) + if precedes(list.last(), text) {
            1nat
        } else {
            0nat
        }
    }
}

/// A text has as many texts before it as there are in front of its place.
pub proof fn lemma_rank(list: Seq<Seq<char>>, text: Seq<char>, k: int)
    requires
        0 <= k <= list.len(),
        forall|j: int| 0 <= j < k ==> precedes(#[trigger] list[j], text),
        forall|j: int| k <= j < list.len() ==> !precedes(#[trigger] list[j], text),
    ensures
        rank(list, text) == k,
    decreases list.len(),
{
    if list.len() > 0 {
        let shorter = list.drop_last();
        if k == list.len() {
            lemma_rank(shorter, text, k - 1);
            assert(precedes(list[list.len() - 1], text));
        } else {
            lemma_rank(shorter, text, k);
            assert(!precedes(list[list.len() - 1], text));
        }
    }
}

/// In a list in order, a text stands at its rank or nowhere.
pub proof fn lemma_found_at_rank(list: Seq<Seq<char>>, text: Seq<char>)
    requires
        is_sorted(list),
    ensures
        rank(list, text) <= list.len(),
        list.contains(text) <==> rank(list, text) < list.len() && list[rank(list, text) as int]
            == text,
        forall|j: int| 0 <= j < rank(list, text) ==> precedes(#[trigger] list[j], text),
        forall|j: int| rank(list, text) <= j < list.len() ==> !precedes(#[trigger] list[j], text),
{
    let k = lemma_split(list, text);
    lemma_rank(list, text, k);
    if list.contains(text) {
        let i = choose|i: int| 0 <= i < list.len() && list[i] == text;
        lemma_precedes(text, text, text);
        if k < list.len() && list[k] != text {
            assert(i >= k) by {
                if i < k {
                    assert(precedes(list[i], text));
                }
            }
            if i > k {
                assert(precedes(list[k], list[i]));
            }
        }
        if k == list.len() {
            assert(precedes(list[i], text));
        }
    }
}

/// Where the texts that sort before another end.
proof fn lemma_split(list: Seq<Seq<char>>, text: Seq<char>) -> (k: int)
    requires
        is_sorted(list),
    ensures
        0 <= k <= list.len(),
        forall|j: int| 0 <= j < k ==> precedes(#[trigger] list[j], text),
        forall|j: int| k <= j < list.len() ==> !precedes(#[trigger] list[j], text),
    decreases list.len(),
{
    if list.len() == 0 {
        0
    } else {
        let last = list[list.len() - 1];
        let shorter = list.drop_last();
        assert(is_sorted(shorter));
        if precedes(last, text) {
            assert forall|j: int| 0 <= j < list.len() implies precedes(#[trigger] list[j], text) by {
                if j < list.len() - 1 {
                    assert(precedes(list[j], last));
                    lemma_precedes(list[j], last, text);
                }
            }
            list.len() as int
        } else {
            let k = lemma_split(shorter, text);
            assert forall|j: int| 0 <= j < k implies precedes(#[trigger] list[j], text) by {
                assert(shorter[j] == list[j]);
            }
            assert forall|j: int| k <= j < list.len() implies !precedes(
                #[trigger] list[j],
                text,
            ) by {
                if j < shorter.len() {
                    assert(shorter[j] == list[j]);
                }
            }
            k
        }
    }
}

/// Putting a text at its rank keeps the order.
pub proof fn lemma_insert_keeps_order(list: Seq<Seq<char>>, text: Seq<char>)
    requires
        is_sorted(list),
        !list.contains(text),
    ensures
        is_sorted(list.insert(rank(list, text) as int, text)),
{
    lemma_found_at_rank(list, text);
    let k = rank(list, text) as int;
    let after = list.insert(k, text);
    assert forall|i: int, j: int| 0 <= i < j < after.len() implies precedes(
        #[trigger] after[i],
        #[trigger] after[j],
    ) by {
        let from = if i < k {
            list[i]
        } else if i == k {
            text
        } else {
            list[i - 1]
        };
        let to = if j < k {
            list[j]
        } else if j == k {
            text
        } else {
            list[j - 1]
        };
        assert(after[i] == from && after[j] == to);
        if i == k {
            lemma_precedes(text, list[j - 1], text);
            assert(!precedes(list[j - 1], text));
            assert(list[j - 1] != text) by {
                if list[j - 1] == text {
                    assert(list.contains(text));
                }
            }
        }
    }
}

/// Removing a text keeps the order.
pub proof fn lemma_remove_keeps_order(list: Seq<Seq<char>>, k: int)
    requires
        is_sorted(list),
        0 <= k < list.len(),
    ensures
        is_sorted(list.remove(k)),
{
    let after = list.remove(k);
    assert forall|i: int, j: int| 0 <= i < j < after.len() implies precedes(
        #[trigger] after[i],
        #[trigger] after[j],
    ) by {
        let x = if i < k {
            i
        } else {
            i + 1
        };
        let y = if j < k {
            j
        } else {
            j + 1
        };
        assert(after[i] == list[x] && after[j] == list[y]);
    }
}

/// A text stands at its rank and nowhere else.
pub proof fn lemma_only_place(list: Seq<Seq<char>>, text: Seq<char>, k: int)
    requires
        is_sorted(list),
        0 <= k < list.len(),
        list[k] == text,
    ensures
        rank(list, text) == k,
{
    lemma_precedes(text, text, text);
    assert forall|j: int| k <= j < list.len() implies !precedes(
        #[trigger] list[j],
        text,
    ) by {
        if j > k {
            assert(precedes(list[k], list[j]));
            lemma_precedes(text, list[j], text);
        }
    }
    assert forall|j: int| 0 <= j < k implies precedes(#[trigger] list[j], text) by {
        assert(precedes(list[j], list[k]));
    }
    lemma_rank(list, text, k);
}

/// Find the rank of a text in a list in order, by halving.
pub fn find_rank(list: &Vec<String>, text: &str) -> (place: usize)
    requires
        is_sorted(texts(list@)),
    ensures
        place == rank(texts(list@), text@),
        place <= list@.len(),
{
    let ghost all = texts(list@);
    let mut low: usize = 0;
    let mut high: usize = list.len();
    while low < high
        invariant
            all == texts(list@),
            is_sorted(all),
            low <= high <= all.len(),
            forall|j: int| 0 <= j < low ==> precedes(#[trigger] all[j], text@),
            forall|j: int| high <= j < all.len() ==> !precedes(#[trigger] all[j], text@),
        decreases high - low,
    {
        let middle: usize = low + (high - low) / 2;
        assert(all[middle as int] == list@[middle as int]@);
        if sorts_before(list[middle].as_str(), text) {
            assert forall|j: int| 0 <= j < middle + 1 implies precedes(
                #[trigger] all[j],
                text@,
            ) by {
                if j < middle {
                    assert(precedes(all[j], all[middle as int]));
                    lemma_precedes(all[j], all[middle as int], text@);
                }
            }
            low = middle + 1;
        } else {
            assert forall|j: int| middle <= j < all.len() implies !precedes(
                #[trigger] all[j],
                text@,
            ) by {
                if j > middle {
                    assert(precedes(all[middle as int], all[j]));
                    lemma_precedes(all[middle as int], all[j], text@);
                }
            }
            high = middle;
        }
    }
    proof {
        lemma_rank(all, text@, low as int);
    }
    low
}

/// A list with a text in its place.
pub open spec fn with_text(list: Seq<Seq<char>>, text: Seq<char>) -> Seq<Seq<char>> {
    if list.contains(text) {
        list
    } else {
        list.insert(rank(list, text) as int, text)
    }
}

/// Whether a list in order holds a text.
pub fn holds_text(list: &Vec<String>, text: &str) -> (yes: bool)
    requires
        is_sorted(texts(list@)),
    ensures
        yes == texts(list@).contains(text@),
{
    proof {
        lemma_found_at_rank(texts(list@), text@);
    }
    let place: usize = find_rank(list, text);
    if place < list.len() {
        assert(texts(list@)[place as int] == list@[place as int]@);
        equal(list[place].as_str(), text)
    } else {
        false
    }
}

/// Put a text in its place in a list in order.
pub fn put_text(list: &mut Vec<String>, text: String)
    requires
        is_sorted(texts(old(list)@)),
    ensures
        texts(final(list)@) == with_text(texts(old(list)@), text@),
        is_sorted(texts(final(list)@)),
{
    let ghost all = texts(list@);
    proof {
        lemma_found_at_rank(all, text@);
    }
    let place: usize = find_rank(list, text.as_str());
    if place < list.len() && equal(list[place].as_str(), text.as_str()) {
        assert(all[place as int] == list@[place as int]@);
        return;
    }
    proof {
        if place < list@.len() {
            assert(all[place as int] == list@[place as int]@);
        }
        lemma_insert_keeps_order(all, text@);
    }
    let ghost model = text@;
    list.insert(place, text);
    assert(texts(list@) =~= all.insert(place as int, model));
}

/// A list with a text put in holds what it held and the text, once each and in order.
pub proof fn law_a_text_is_put_in_its_place(
    list: Seq<Seq<char>>,
    text: Seq<char>,
    other: Seq<char>,
)
    requires
        is_sorted(list),
    ensures
        is_sorted(with_text(list, text)),
        with_text(list, text).contains(other) <==> list.contains(other) || other == text,
        with_text(list, text).len() == list.len() + if list.contains(text) {
            0int
        } else {
            1int
        },
{
    lemma_found_at_rank(list, text);
    if !list.contains(text) {
        lemma_insert_keeps_order(list, text);
        let k = rank(list, text) as int;
        let after = list.insert(k, text);
        assert(after[k] == text);
        if list.contains(other) {
            let i = choose|i: int| 0 <= i < list.len() && list[i] == other;
            assert(after[if i < k {
                i
            } else {
                i + 1
            }] == other);
        }
        if after.contains(other) && other != text {
            let j = choose|j: int| 0 <= j < after.len() && after[j] == other;
            assert(list[if j < k {
                j
            } else {
                j - 1
            }] == other);
        }
    }
}

} // verus!
