//! Text that is safe to put in an event.

use vstd::prelude::*;
use crate::text::{control, is_control};

verus! {

/// At most so many characters of a text, without control characters.
pub open spec fn sanitised(text: Seq<char>, limit: nat) -> Seq<char> {
    let kept = if text.len() <= limit {
        text
    } else {
        text.take(limit as int)
    };
    kept.map_values(
        |c: char|
            if is_control(c) {
                '.'
            } else {
                c
            },
    )
}

/// Take at most `limit` characters, replacing control characters, and say whether
/// anything changed.
///
/// Characters, not bytes: these values come from outside, and a byte offset may
/// fall inside a character.
pub fn sanitise(text: &[char], limit: usize) -> (result: (Vec<char>, bool))
    ensures
        result.0@ == sanitised(text@, limit as nat),
        result.1 == (sanitised(text@, limit as nat) != text@),
{
    let mut out: Vec<char> = Vec::new();
    let mut changed: bool = text.len() > limit;
    let mut i: usize = 0;
    while i < text.len() && i < limit
        invariant
            i <= text@.len(),
            i <= limit,
            out@.len() == i,
            forall|j: int|
                0 <= j < i ==> out@[j] == if is_control(#[trigger] text@[j]) {
                    '.'
                } else {
                    text@[j]
                },
            changed ==> text@.len() > limit || exists|j: int|
                0 <= j < i && is_control(#[trigger] text@[j]),
            !changed ==> text@.len() <= limit && forall|j: int|
                0 <= j < i ==> !is_control(#[trigger] text@[j]),
        decreases text@.len() - i,
    {
        if control(text[i]) {
            out.push('.');
            changed = true;
            assert(is_control(text@[i as int]));
        } else {
            out.push(text[i]);
        }
        i = i + 1;
    }
    proof {
        let clean = sanitised(text@, limit as nat);
        assert(out@ =~= clean);
        if changed {
            if text@.len() <= limit {
                let j = choose|j: int| 0 <= j < i && is_control(#[trigger] text@[j]);
                assert(clean[j] == '.');
                assert(!is_control('.'));
                assert(clean != text@);
            } else {
                assert(clean.len() < text@.len());
            }
        } else {
            assert(clean =~= text@);
        }
    }
    (out, changed)
}

} // verus!
