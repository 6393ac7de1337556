//! Text as sequences of characters: trimming, splitting, comparing, and
//! reading and writing numbers.

use vstd::prelude::*;
use vstd::slice::slice_subrange;
use vstd::string::StringExecFns;

verus! {

/// `String::push` appends one character.
pub assume_specification[ String::push ](text: &mut String, character: char)
    ensures
        final(text)@ == old(text)@.push(character),
;

/// The characters of a string.
pub fn chars_of(text: &str) -> (chars: Vec<char>)
    ensures
        chars@ == text@,
{
    let mut chars: Vec<char> = Vec::new();
    for character in it: text.chars()
        invariant
            chars@ == text@.take(it.index() as int),
            it.seq() == text@,
    {
        chars.push(character);
        assert(chars@ =~= text@.take(it.index() + 1));
    }
    assert(text@.take(text@.len() as int) =~= text@);
    chars
}

/// The string of some characters.
pub fn string_of(chars: &[char]) -> (text: String)
    ensures
        text@ == chars@,
{
    let mut text = String::new();
    let mut i: usize = 0;
    while i < chars.len()
        invariant
            i <= chars@.len(),
            text@ == chars@.take(i as int),
        decreases chars@.len() - i,
    {
        text.push(chars[i]);
        i = i + 1;
        assert(text@ =~= chars@.take(i as int));
    }
    assert(chars@.take(i as int) =~= chars@);
    text
}

/// A string that holds what a slice of a string holds.
pub fn owned(text: &str) -> (string: String)
    ensures
        string@ == text@,
{
    text.to_owned()
}

/// The parts of a text, in order.
pub open spec fn views(parts: Seq<&[char]>) -> Seq<Seq<char>> {
    parts.map_values(|part: &[char]| part@)
}

/// What some strings hold.
pub open spec fn texts(strings: Seq<String>) -> Seq<Seq<char>> {
    strings.map_values(|string: String| string@)
}

/// What an optional string holds.
pub open spec fn optional_text(text: Option<String>) -> Option<Seq<char>> {
    match text {
        Some(text) => Some(text@),
        None => None,
    }
}

/// A text in quotes, with the characters that would not print escaped: what the
/// standard library writes for a string under `{:?}`.
pub uninterp spec fn quoted(text: Seq<char>) -> Seq<char>;

/// A character in single quotes, escaped where it would not print: what the
/// standard library writes for a character under `{:?}`.
pub uninterp spec fn quoted_char(c: char) -> Seq<char>;

/// The `Debug` form of a string, by `<str as core::fmt::Debug>::fmt`. Claims that
/// the form depends on the characters alone.
#[verifier::external_body]
pub(crate) fn quote(text: &str) -> (form: String)
    ensures
        form@ == quoted(text@),
{
    format!("{text:?}")
}

/// The `Debug` form of a character, by `<char as core::fmt::Debug>::fmt`. Claims
/// that the form depends on the character alone.
#[verifier::external_body]
pub(crate) fn quote_char(c: char) -> (form: String)
    ensures
        form@ == quoted_char(c),
{
    format!("{c:?}")
}

// ---------------------------------------------------------------------------
// characters
// ---------------------------------------------------------------------------

/// Whether a character has the Unicode `White_Space` property.
pub open spec fn is_space(c: char) -> bool {
    let n = c as u32;
    ||| 0x09 <= n <= 0x0d
    ||| n == 0x20
    ||| n == 0x85
    ||| n == 0xa0
    ||| n == 0x1680
    ||| 0x2000 <= n <= 0x200a
    ||| n == 0x2028
    ||| n == 0x2029
    ||| n == 0x202f
    ||| n == 0x205f
    ||| n == 0x3000
}

/// Whether a character has the Unicode `White_Space` property.
pub fn space(c: char) -> (yes: bool)
    ensures
        yes == is_space(c),
{
    let n: u32 = c as u32;
    (0x09 <= n && n <= 0x0d) || n == 0x20 || n == 0x85 || n == 0xa0 || n == 0x1680 || (0x2000 <= n
        && n <= 0x200a) || n == 0x2028 || n == 0x2029 || n == 0x202f || n == 0x205f || n == 0x3000
}

/// Whether a character is a control character: the Unicode category `Cc`.
pub open spec fn is_control(c: char) -> bool {
    c as u32 <= 0x1f || 0x7f <= c as u32 <= 0x9f
}

/// Whether a character is a control character.
pub fn control(c: char) -> (yes: bool)
    ensures
        yes == is_control(c),
{
    let n: u32 = c as u32;
    n <= 0x1f || (0x7f <= n && n <= 0x9f)
}

/// Whether a character is an ASCII digit.
pub open spec fn is_digit(c: char) -> bool {
    0x30 <= c as u32 <= 0x39
}

/// Whether a character is an ASCII letter or digit.
pub open spec fn is_alphanumeric(c: char) -> bool {
    is_digit(c) || 0x41 <= c as u32 <= 0x5a || 0x61 <= c as u32 <= 0x7a
}

/// Whether a character is an ASCII letter or digit.
pub fn alphanumeric(c: char) -> (yes: bool)
    ensures
        yes == is_alphanumeric(c),
{
    let n: u32 = c as u32;
    (0x30 <= n && n <= 0x39) || (0x41 <= n && n <= 0x5a) || (0x61 <= n && n <= 0x7a)
}

/// A character with an ASCII capital made small.
pub open spec fn lower(c: char) -> char {
    if 0x41 <= c as u32 <= 0x5a {
        ((c as u32 + 32) as u8) as char
    } else {
        c
    }
}

/// A character with an ASCII capital made small.
pub fn to_lower(c: char) -> (small: char)
    ensures
        small == lower(c),
{
    let n: u32 = c as u32;
    if 0x41 <= n && n <= 0x5a {
        (n + 32) as u8 as char
    } else {
        c
    }
}

/// A text with its ASCII capitals made small.
pub open spec fn lowered(text: Seq<char>) -> Seq<char> {
    text.map_values(|c: char| lower(c))
}

/// A text with its ASCII capitals made small.
pub fn lowercase(text: &[char]) -> (small: Vec<char>)
    ensures
        small@ == lowered(text@),
{
    let mut out: Vec<char> = Vec::new();
    let mut i: usize = 0;
    while i < text.len()
        invariant
            i <= text@.len(),
            out@ == lowered(text@).take(i as int),
        decreases text@.len() - i,
    {
        out.push(to_lower(text[i]));
        i = i + 1;
        assert(out@ =~= lowered(text@).take(i as int));
    }
    assert(lowered(text@).take(i as int) =~= lowered(text@));
    out
}

// ---------------------------------------------------------------------------
// comparing
// ---------------------------------------------------------------------------

/// Whether two texts are the same.
pub fn same(a: &[char], b: &[char]) -> (yes: bool)
    ensures
        yes == (a@ == b@),
{
    if a.len() != b.len() {
        return false;
    }
    let mut i: usize = 0;
    while i < a.len()
        invariant
            a@.len() == b@.len(),
            i <= a@.len(),
            forall|j: int| 0 <= j < i ==> a@[j] == b@[j],
        decreases a@.len() - i,
    {
        if a[i] != b[i] {
            return false;
        }
        i = i + 1;
    }
    assert(a@ =~= b@);
    true
}

/// Whether characters spell a given string.
pub fn spells(chars: &[char], text: &str) -> (yes: bool)
    ensures
        yes == (chars@ == text@),
{
    let wanted = chars_of(text);
    same(chars, wanted.as_slice())
}

/// Whether two strings are the same.
pub fn equal(a: &str, b: &str) -> (yes: bool)
    ensures
        yes == (a@ == b@),
{
    let chars = chars_of(a);
    spells(chars.as_slice(), b)
}

/// Whether a text starts with another.
pub open spec fn begins(text: Seq<char>, start: Seq<char>) -> bool {
    text.len() >= start.len() && text.take(start.len() as int) == start
}

/// Whether a text ends with another.
pub open spec fn ends(text: Seq<char>, end: Seq<char>) -> bool {
    text.len() >= end.len() && text.skip(text.len() - end.len()) == end
}

/// Whether a text starts with another.
pub fn starts_with(text: &[char], start: &str) -> (yes: bool)
    ensures
        yes == begins(text@, start@),
{
    let wanted = chars_of(start);
    if text.len() < wanted.len() {
        return false;
    }
    let head = slice_subrange(text, 0, wanted.len());
    assert(head@ =~= text@.take(start@.len() as int));
    same(head, wanted.as_slice())
}

/// Whether a text ends with another.
pub fn ends_with(text: &[char], end: &str) -> (yes: bool)
    ensures
        yes == ends(text@, end@),
{
    let wanted = chars_of(end);
    if text.len() < wanted.len() {
        return false;
    }
    let tail = slice_subrange(text, text.len() - wanted.len(), text.len());
    assert(tail@ =~= text@.skip(text@.len() - end@.len()));
    same(tail, wanted.as_slice())
}

/// The part of a text from `from` on.
pub fn tail(text: &[char], from: usize) -> (rest: &[char])
    requires
        from <= text@.len(),
    ensures
        rest@ == text@.skip(from as int),
{
    let rest = slice_subrange(text, from, text.len());
    assert(rest@ =~= text@.skip(from as int));
    rest
}

/// The part of a text before `to`.
pub fn head(text: &[char], to: usize) -> (start: &[char])
    requires
        to <= text@.len(),
    ensures
        start@ == text@.take(to as int),
{
    let start = slice_subrange(text, 0, to);
    assert(start@ =~= text@.take(to as int));
    start
}

// ---------------------------------------------------------------------------
// searching
// ---------------------------------------------------------------------------

/// Where the first character with a property stands.
pub open spec fn first_where(text: Seq<char>, p: spec_fn(char) -> bool) -> Option<int>
    decreases text.len(),
{
    if text.len() == 0 {
        None
    } else if first_where(text.drop_last(), p) is Some {
        first_where(text.drop_last(), p)
    } else if p(text.last()) {
        Some(text.len() - 1)
    } else {
        None
    }
}

/// Where a character stands first.
pub open spec fn first_of(text: Seq<char>, c: char) -> Option<int>
    decreases text.len(),
{
    if text.len() == 0 {
        None
    } else if first_of(text.drop_last(), c) is Some {
        first_of(text.drop_last(), c)
    } else if text.last() == c {
        Some(text.len() - 1)
    } else {
        None
    }
}

/// Where a character stands first: it is there, and nowhere before.
pub proof fn lemma_first_of(text: Seq<char>, c: char)
    ensures
        first_of(text, c) matches Some(i) ==> 0 <= i < text.len() && text[i] == c && forall|j: int|
            0 <= j < i ==> #[trigger] text[j] != c,
        first_of(text, c) is None ==> forall|j: int| 0 <= j < text.len() ==> #[trigger] text[j] != c,
    decreases text.len(),
{
    if text.len() > 0 {
        let init = text.drop_last();
        lemma_first_of(init, c);
        if first_of(init, c) is None {
            assert forall|j: int| 0 <= j < text.len() - 1 implies #[trigger] text[j] != c by {
                assert(init[j] == text[j]);
            }
        } else {
            let i = first_of(init, c)->0;
            assert(init[i] == text[i]);
            assert forall|j: int| 0 <= j < i implies #[trigger] text[j] != c by {
                assert(init[j] == text[j]);
            }
        }
    }
}

/// Where a character stands last.
pub open spec fn last_of(text: Seq<char>, c: char) -> Option<int>
    decreases text.len(),
{
    if text.len() == 0 {
        None
    } else if text.last() == c {
        Some(text.len() - 1)
    } else {
        last_of(text.drop_last(), c)
    }
}

/// What the first place of a property is: it has it, and none before it does.
pub proof fn lemma_first_where(text: Seq<char>, p: spec_fn(char) -> bool)
    ensures
        first_where(text, p) matches Some(i) ==> 0 <= i < text.len() && p(text[i]) && forall|j: int|
            0 <= j < i ==> !p(#[trigger] text[j]),
        first_where(text, p) is None ==> forall|j: int|
            0 <= j < text.len() ==> !p(#[trigger] text[j]),
    decreases text.len(),
{
    if text.len() > 0 {
        let init = text.drop_last();
        lemma_first_where(init, p);
        if first_where(init, p) is None {
            assert forall|j: int| 0 <= j < text.len() - 1 implies !p(#[trigger] text[j]) by {
                assert(init[j] == text[j]);
            }
        } else {
            let i = first_where(init, p)->0;
            assert(init[i] == text[i]);
            assert forall|j: int| 0 <= j < i implies !p(#[trigger] text[j]) by {
                assert(init[j] == text[j]);
            }
        }
    }
}

/// A place that has a property, with none before it, is the first.
pub proof fn lemma_is_first_where(text: Seq<char>, p: spec_fn(char) -> bool, i: int)
    requires
        0 <= i < text.len(),
        p(text[i]),
        forall|j: int| 0 <= j < i ==> !p(#[trigger] text[j]),
    ensures
        first_where(text, p) == Some(i),
{
    lemma_first_where(text, p);
    if first_where(text, p) is Some {
        let k = first_where(text, p)->0;
        if k < i {
            assert(!p(text[k]));
        }
    }
}

/// Where a character stands last: it is there, and nowhere behind.
pub proof fn lemma_last_of(text: Seq<char>, c: char)
    ensures
        last_of(text, c) matches Some(i) ==> 0 <= i < text.len() && text[i] == c && forall|j: int|
            i < j < text.len() ==> #[trigger] text[j] != c,
        last_of(text, c) is None ==> forall|j: int| 0 <= j < text.len() ==> #[trigger] text[j] != c,
    decreases text.len(),
{
    if text.len() > 0 && text.last() != c {
        let init = text.drop_last();
        lemma_last_of(init, c);
        if last_of(init, c) is None {
            assert forall|j: int| 0 <= j < text.len() implies #[trigger] text[j] != c by {
                if j < init.len() {
                    assert(init[j] == text[j]);
                }
            }
        } else {
            let i = last_of(init, c)->0;
            assert(init[i] == text[i]);
            assert forall|j: int| i < j < text.len() implies #[trigger] text[j] != c by {
                if j < init.len() {
                    assert(init[j] == text[j]);
                }
            }
        }
    }
}

/// Find the first occurrence of a character.
pub fn find(text: &[char], c: char) -> (place: Option<usize>)
    ensures
        place is Some <==> first_of(text@, c) is Some,
        place matches Some(i) ==> first_of(text@, c) == Some(i as int) && i < text@.len(),
{
    proof {
        lemma_first_of(text@, c);
    }
    let mut i: usize = 0;
    while i < text.len()
        invariant
            i <= text@.len(),
            forall|j: int| 0 <= j < i ==> #[trigger] text@[j] != c,
        decreases text@.len() - i,
    {
        if text[i] == c {
            assert(first_of(text@, c) == Some(i as int)) by {
                lemma_first_of(text@, c);
                let k = first_of(text@, c)->0;
                if first_of(text@, c) is Some && k < i {
                    assert(text@[k] != c);
                }
            }
            return Some(i);
        }
        i = i + 1;
    }
    None
}

/// Find the first white space character.
pub fn find_space(text: &[char]) -> (place: Option<usize>)
    ensures
        place is Some <==> first_where(text@, |d: char| is_space(d)) is Some,
        place matches Some(i) ==> first_where(text@, |d: char| is_space(d)) == Some(i as int) && i
            < text@.len(),
{
    let ghost p = |d: char| is_space(d);
    proof {
        lemma_first_where(text@, p);
    }
    let mut i: usize = 0;
    while i < text.len()
        invariant
            i <= text@.len(),
            p == (|d: char| is_space(d)),
            forall|j: int| 0 <= j < i ==> !p(#[trigger] text@[j]),
        decreases text@.len() - i,
    {
        if space(text[i]) {
            proof {
                lemma_is_first_where(text@, p, i as int);
            }
            return Some(i);
        }
        i = i + 1;
    }
    None
}

/// Find the first ASCII digit.
pub fn find_digit(text: &[char]) -> (place: Option<usize>)
    ensures
        place is Some <==> first_where(text@, |d: char| is_digit(d)) is Some,
        place matches Some(i) ==> first_where(text@, |d: char| is_digit(d)) == Some(i as int) && i
            < text@.len(),
{
    let ghost p = |d: char| is_digit(d);
    proof {
        lemma_first_where(text@, p);
    }
    let mut i: usize = 0;
    while i < text.len()
        invariant
            i <= text@.len(),
            p == (|d: char| is_digit(d)),
            forall|j: int| 0 <= j < i ==> !p(#[trigger] text@[j]),
        decreases text@.len() - i,
    {
        let n: u32 = text[i] as u32;
        if 0x30 <= n && n <= 0x39 {
            proof {
                lemma_is_first_where(text@, p, i as int);
            }
            return Some(i);
        }
        i = i + 1;
    }
    None
}

/// Find the last occurrence of a character.
pub fn rfind(text: &[char], c: char) -> (place: Option<usize>)
    ensures
        place is Some <==> last_of(text@, c) is Some,
        place matches Some(i) ==> last_of(text@, c) == Some(i as int) && i < text@.len(),
{
    let mut i: usize = text.len();
    assert(text@.take(i as int) =~= text@);
    while i > 0
        invariant
            i <= text@.len(),
            last_of(text@, c) == last_of(text@.take(i as int), c),
        decreases i,
    {
        assert(text@.take(i as int).drop_last() =~= text@.take(i - 1));
        assert(text@.take(i as int).last() == text@[i - 1]);
        if text[i - 1] == c {
            return Some(i - 1);
        }
        i = i - 1;
    }
    None
}

/// Where a text stands first inside another, at or after `from`.
pub open spec fn first_text_from(text: Seq<char>, wanted: Seq<char>, from: int) -> Option<int>
    decreases text.len() + 1 - from,
{
    if from < 0 || from + wanted.len() > text.len() {
        None
    } else if text.subrange(from, from + wanted.len()) == wanted {
        Some(from)
    } else {
        first_text_from(text, wanted, from + 1)
    }
}

/// Where a text stands first inside another.
pub open spec fn first_text(text: Seq<char>, wanted: Seq<char>) -> Option<int> {
    first_text_from(text, wanted, 0)
}

/// A text stands inside the other where it is found.
pub proof fn lemma_first_text_from(text: Seq<char>, wanted: Seq<char>, from: int)
    ensures
        first_text_from(text, wanted, from) matches Some(i) ==> 0 <= from <= i && i + wanted.len()
            <= text.len(),
    decreases text.len() + 1 - from,
{
    if 0 <= from && from + wanted.len() <= text.len() && text.subrange(from, from + wanted.len())
        != wanted {
        lemma_first_text_from(text, wanted, from + 1);
    }
}

/// Find a text inside another, at or after `from`.
pub fn find_text(text: &[char], wanted: &[char], from: usize) -> (place: Option<usize>)
    requires
        from <= text@.len(),
    ensures
        place is Some <==> first_text_from(text@, wanted@, from as int) is Some,
        place matches Some(i) ==> first_text_from(text@, wanted@, from as int) == Some(i as int)
            && from <= i && i + wanted@.len() <= text@.len(),
{
    let mut i: usize = from;
    while i <= text.len() && wanted.len() <= text.len() - i
        invariant
            from <= i <= text@.len() + 1,
            text@.len() < usize::MAX || i <= text@.len(),
            first_text_from(text@, wanted@, from as int) == first_text_from(
                text@,
                wanted@,
                i as int,
            ),
        decreases text@.len() + 1 - i,
    {
        let here = slice_subrange(text, i, i + wanted.len());
        if same(here, wanted) {
            return Some(i);
        }
        if i == text.len() {
            assert(here@ =~= wanted@);
            return None;
        }
        i = i + 1;
    }
    None
}

/// Find a string inside a text.
pub fn find_str(text: &[char], wanted: &str) -> (place: Option<usize>)
    ensures
        place is Some <==> first_text(text@, wanted@) is Some,
        place matches Some(i) ==> first_text(text@, wanted@) == Some(i as int) && i + wanted@.len()
            <= text@.len(),
{
    let chars = chars_of(wanted);
    find_text(text, chars.as_slice(), 0)
}

/// A text with every occurrence of another replaced, from the left.
pub open spec fn replaced(text: Seq<char>, from: Seq<char>, to: Seq<char>) -> Seq<char>
    decreases text.len(),
{
    if text.len() == 0 || from.len() == 0 {
        text
    } else if begins(text, from) {
        to + replaced(text.skip(from.len() as int), from, to)
    } else {
        seq![text[0]] + replaced(text.skip(1), from, to)
    }
}

/// Replace every occurrence of a string that is not empty.
pub fn replace(text: &[char], from: &str, to: &str) -> (out: Vec<char>)
    requires
        from@.len() > 0,
    ensures
        out@ == replaced(text@, from@, to@),
{
    let wanted = chars_of(from);
    let put = chars_of(to);
    let mut out: Vec<char> = Vec::new();
    let mut i: usize = 0;
    assert(text@.skip(0) =~= text@);
    assert(out@ + replaced(text@, from@, to@) =~= replaced(text@, from@, to@));
    while i < text.len()
        invariant
            wanted@ == from@,
            put@ == to@,
            from@.len() > 0,
            i <= text@.len(),
            out@ + replaced(text@.skip(i as int), from@, to@) == replaced(text@, from@, to@),
        decreases text@.len() - i,
    {
        let rest = tail(text, i);
        let ghost before = out@;
        assert(rest@[0] == text@[i as int]);
        if rest.len() >= wanted.len() && same(head(rest, wanted.len()), wanted.as_slice()) {
            out.extend_from_slice(put.as_slice());
            proof {
                let more = replaced(rest@.skip(from@.len() as int), from@, to@);
                assert(rest@.skip(from@.len() as int) =~= text@.skip(i + from@.len()));
                assert(out@ + more =~= before + (to@ + more));
            }
            i = i + wanted.len();
        } else {
            out.push(text[i]);
            proof {
                let more = replaced(rest@.skip(1), from@, to@);
                assert(rest@.skip(1) =~= text@.skip(i + 1));
                assert(out@ + more =~= before + (seq![text@[i as int]] + more));
            }
            i = i + 1;
        }
    }
    assert(text@.skip(i as int) =~= seq![]);
    assert(out@ + Seq::<char>::empty() =~= out@);
    out
}

// ---------------------------------------------------------------------------
// trimming and splitting
// ---------------------------------------------------------------------------

/// A text without the white space at its start.
pub open spec fn trimmed_start(text: Seq<char>) -> Seq<char>
    decreases text.len(),
{
    if text.len() > 0 && is_space(text[0]) {
        trimmed_start(text.skip(1))
    } else {
        text
    }
}

/// A text without the white space at its end.
pub open spec fn trimmed_end(text: Seq<char>) -> Seq<char>
    decreases text.len(),
{
    if text.len() > 0 && is_space(text.last()) {
        trimmed_end(text.drop_last())
    } else {
        text
    }
}

/// A text without the white space around it.
pub open spec fn trimmed(text: Seq<char>) -> Seq<char> {
    trimmed_end(trimmed_start(text))
}

/// Drop the white space at the start of a text.
pub fn trim_start(text: &[char]) -> (rest: &[char])
    ensures
        rest@ == trimmed_start(text@),
{
    let mut i: usize = 0;
    assert(text@.skip(0) =~= text@);
    while i < text.len() && space(text[i])
        invariant
            i <= text@.len(),
            trimmed_start(text@.skip(i as int)) == trimmed_start(text@),
        decreases text@.len() - i,
    {
        assert(text@.skip(i as int).skip(1) =~= text@.skip(i + 1));
        i = i + 1;
    }
    tail(text, i)
}

/// Drop the white space at the end of a text.
pub fn trim_end(text: &[char]) -> (rest: &[char])
    ensures
        rest@ == trimmed_end(text@),
{
    let mut i: usize = text.len();
    assert(text@.take(i as int) =~= text@);
    while i > 0 && space(text[i - 1])
        invariant
            i <= text@.len(),
            trimmed_end(text@.take(i as int)) == trimmed_end(text@),
        decreases i,
    {
        assert(text@.take(i as int).drop_last() =~= text@.take(i - 1));
        i = i - 1;
    }
    head(text, i)
}

/// Drop the white space around a text.
pub fn trim(text: &[char]) -> (rest: &[char])
    ensures
        rest@ == trimmed(text@),
{
    trim_end(trim_start(text))
}

/// The words of a text: its maximal runs of characters that are no white space.
pub open spec fn words(text: Seq<char>) -> Seq<Seq<char>>
    decreases text.len(),
{
    if text.len() == 0 {
        Seq::empty()
    } else {
        let init = text.drop_last();
        let before = words(init);
        let c = text.last();
        if is_space(c) {
            before
        } else if init.len() > 0 && !is_space(init.last()) {
            before.update(before.len() - 1, before.last().push(c))
        } else {
            before.push(seq![c])
        }
    }
}

/// Words with white space between two texts are the words of both.
pub proof fn lemma_words_apart(a: Seq<char>, gap: char, b: Seq<char>)
    requires
        is_space(gap),
    ensures
        words(a.push(gap) + b) == words(a) + words(b),
    decreases b.len(),
{
    let whole = a.push(gap) + b;
    if b.len() == 0 {
        assert(whole =~= a.push(gap));
        assert(whole.drop_last() =~= a);
        assert(words(a) + words(b) =~= words(a));
    } else {
        let init = b.drop_last();
        lemma_words_apart(a, gap, init);
        lemma_words_are_there(init);
        assert(whole.drop_last() =~= a.push(gap) + init);
        assert(words(whole) =~= words(a) + words(b));
    }
}

/// A text that ends in no white space has a word.
proof fn lemma_words_are_there(text: Seq<char>)
    ensures
        text.len() > 0 && !is_space(text.last()) ==> words(text).len() > 0,
    decreases text.len(),
{
    if text.len() > 0 {
        lemma_words_are_there(text.drop_last());
    }
}

/// A text without white space is one word.
pub proof fn lemma_one_word(text: Seq<char>)
    requires
        text.len() > 0,
        forall|i: int| 0 <= i < text.len() ==> !is_space(#[trigger] text[i]),
    ensures
        words(text) == seq![text],
    decreases text.len(),
{
    let init = text.drop_last();
    assert(!is_space(text[text.len() - 1]));
    if init.len() > 0 {
        assert forall|i: int| 0 <= i < init.len() implies !is_space(#[trigger] init[i]) by {
            assert(init[i] == text[i]);
        }
        lemma_one_word(init);
        assert(!is_space(init[init.len() - 1]));
        assert(init.push(text.last()) =~= text);
        assert(words(text) =~= seq![text]);
    } else {
        assert(words(init) =~= Seq::<Seq<char>>::empty());
        assert(text =~= seq![text.last()]);
        assert(words(text) =~= seq![text]);
    }
}

/// Split a text into its words.
pub fn split_words(text: &[char]) -> (parts: Vec<&[char]>)
    ensures
        views(parts@) == words(text@),
{
    let mut parts: Vec<&[char]> = Vec::new();
    let mut start: usize = 0;
    let mut open: bool = false;
    let mut i: usize = 0;
    assert(views(parts@) =~= words(text@.take(0)));
    while i < text.len()
        invariant
            start <= i <= text@.len(),
            open == (i > 0 && !is_space(text@[i - 1])),
            open ==> start < i,
            words(text@.take(i as int)) == (if open {
                views(parts@).push(text@.subrange(start as int, i as int))
            } else {
                views(parts@)
            }),
        decreases text@.len() - i,
    {
        let c: char = text[i];
        let ghost done = views(parts@);
        proof {
            assert(text@.take(i + 1).drop_last() =~= text@.take(i as int));
            assert(text@.take(i + 1).last() == c);
            if i > 0 {
                assert(text@.take(i as int).last() == text@[i - 1]);
            }
            if open {
                let part = text@.subrange(start as int, i as int);
                assert(text@.subrange(start as int, i + 1) =~= part.push(c));
                assert(done.push(part).update(done.len() as int, part.push(c)) =~= done.push(
                    part.push(c),
                ));
            }
        }
        if space(c) {
            if open {
                let part = slice_subrange(text, start, i);
                parts.push(part);
                assert(views(parts@) =~= done.push(part@));
                open = false;
            }
        } else if !open {
            start = i;
            open = true;
            assert(text@.subrange(start as int, i + 1) =~= seq![c]);
        }
        i = i + 1;
    }
    assert(text@.take(i as int) =~= text@);
    if open {
        let ghost done = views(parts@);
        let part = slice_subrange(text, start, i);
        parts.push(part);
        assert(views(parts@) =~= done.push(part@));
    }
    parts
}

/// The pieces of a text between occurrences of a character.
pub open spec fn pieces(text: Seq<char>, separator: char) -> Seq<Seq<char>>
    decreases text.len(),
{
    if text.len() == 0 {
        seq![Seq::empty()]
    } else {
        let before = pieces(text.drop_last(), separator);
        if text.last() == separator {
            before.push(Seq::empty())
        } else {
            before.update(before.len() - 1, before.last().push(text.last()))
        }
    }
}

/// A text has at least one piece, and at most one more than it has characters.
pub proof fn lemma_pieces_len(text: Seq<char>, separator: char)
    ensures
        1 <= pieces(text, separator).len() <= text.len() + 1,
    decreases text.len(),
{
    if text.len() > 0 {
        lemma_pieces_len(text.drop_last(), separator);
    }
}

/// Split a text at a character.
pub fn split_at_char(text: &[char], separator: char) -> (parts: Vec<&[char]>)
    ensures
        views(parts@) == pieces(text@, separator),
        parts@.len() >= 1,
{
    let mut parts: Vec<&[char]> = Vec::new();
    let mut start: usize = 0;
    let mut i: usize = 0;
    assert(text@.subrange(0, 0) =~= Seq::<char>::empty());
    assert(views(parts@).push(text@.subrange(0, 0)) =~= pieces(text@.take(0), separator));
    while i < text.len()
        invariant
            start <= i <= text@.len(),
            pieces(text@.take(i as int), separator) == views(parts@).push(
                text@.subrange(start as int, i as int),
            ),
        decreases text@.len() - i,
    {
        let c: char = text[i];
        let ghost done = views(parts@);
        let ghost part = text@.subrange(start as int, i as int);
        proof {
            assert(text@.take(i + 1).drop_last() =~= text@.take(i as int));
            assert(text@.take(i + 1).last() == c);
            assert(text@.subrange(start as int, i + 1) =~= part.push(c));
            assert(done.push(part).last() == part);
            assert(done.push(part).update(done.len() as int, part.push(c)) =~= done.push(
                part.push(c),
            ));
        }
        if c == separator {
            parts.push(slice_subrange(text, start, i));
            assert(views(parts@) =~= done.push(part));
            start = i + 1;
            assert(text@.subrange(start as int, i + 1) =~= Seq::<char>::empty());
        }
        i = i + 1;
    }
    assert(text@.take(i as int) =~= text@);
    let ghost done = views(parts@);
    let last = slice_subrange(text, start, i);
    parts.push(last);
    assert(views(parts@) =~= done.push(last@));
    parts
}

/// The lines of a text; a line break at its end opens no further line.
pub open spec fn lines_of(text: Seq<char>) -> Seq<Seq<char>> {
    let parts = pieces(text, '\n');
    if parts.len() > 0 && parts.last().len() == 0 {
        parts.drop_last()
    } else {
        parts
    }
}

/// Split a text into lines.
pub fn split_lines(text: &[char]) -> (lines: Vec<&[char]>)
    ensures
        views(lines@) == lines_of(text@),
{
    let mut lines = split_at_char(text, '\n');
    let ghost parts = views(lines@);
    assert(parts.len() > 0 ==> parts.last() == lines@.last()@);
    if lines.len() > 0 && lines[lines.len() - 1].len() == 0 {
        let _ = lines.pop();
        assert(views(lines@) =~= parts.drop_last());
    }
    lines
}

// ---------------------------------------------------------------------------
// numbers
// ---------------------------------------------------------------------------

/// The value of a digit in a radix.
pub open spec fn digit_value(c: char, radix: int) -> Option<int> {
    let n = c as u32;
    let value = if 0x30 <= n <= 0x39 {
        n - 0x30
    } else if 0x61 <= n <= 0x7a {
        n - 0x61 + 10
    } else if 0x41 <= n <= 0x5a {
        n - 0x41 + 10
    } else {
        100
    };
    if value < radix {
        Some(value)
    } else {
        None
    }
}

/// The value of a digit in a radix of at most 36.
pub fn digit(c: char, radix: u32) -> (value: Option<u32>)
    requires
        radix <= 36,
    ensures
        value is Some <==> digit_value(c, radix as int) is Some,
        value matches Some(v) ==> digit_value(c, radix as int) == Some(v as int) && v < radix,
{
    let n: u32 = c as u32;
    let value: u32 = if 0x30 <= n && n <= 0x39 {
        n - 0x30
    } else if 0x61 <= n && n <= 0x7a {
        n - 0x61 + 10
    } else if 0x41 <= n && n <= 0x5a {
        n - 0x41 + 10
    } else {
        100
    };
    if value < radix {
        Some(value)
    } else {
        None
    }
}

/// Whether every character is a digit in a radix.
pub open spec fn all_digits(text: Seq<char>, radix: int) -> bool {
    forall|i: int| 0 <= i < text.len() ==> digit_value(#[trigger] text[i], radix) is Some
}

/// The number that digits spell in a radix.
pub open spec fn digits_value(text: Seq<char>, radix: int) -> int
    decreases text.len(),
{
    if text.len() == 0 {
        0
    } else {
        digits_value(text.drop_last(), radix) * radix + digit_value(text.last(), radix)->0
    }
}

/// The number that a text spells in a radix, where it is one or more digits and
/// the number is at most `max`.
pub open spec fn plain_number(text: Seq<char>, radix: int, max: int) -> Option<int> {
    if text.len() > 0 && all_digits(text, radix) && digits_value(text, radix) <= max {
        Some(digits_value(text, radix))
    } else {
        None
    }
}

/// The number that a text spells in a radix. A plus sign may stand in front.
pub open spec fn number(text: Seq<char>, radix: int, max: int) -> Option<int> {
    if text.len() > 0 && text[0] == '+' {
        plain_number(text.skip(1), radix, max)
    } else {
        plain_number(text, radix, max)
    }
}

/// What a text spells is no less than zero and no more than was asked for.
pub proof fn lemma_numbers_are_in_range(text: Seq<char>, radix: int, max: int)
    requires
        radix >= 1,
    ensures
        number(text, radix, max) matches Some(value) ==> 0 <= value <= max,
{
    let plain = if text.len() > 0 && text[0] == '+' {
        text.skip(1)
    } else {
        text
    };
    if all_digits(plain, radix) {
        lemma_digits_grow(plain, radix, plain.len() as int);
        assert(plain.take(plain.len() as int) =~= plain);
    }
}

/// The number that a text spells in decimal. A plus or minus sign may stand in
/// front.
pub open spec fn signed_number(text: Seq<char>, min: int, max: int) -> Option<int> {
    if text.len() > 0 && text[0] == '-' {
        match plain_number(text.skip(1), 10, -min) {
            Some(value) => Some(-value),
            None => None,
        }
    } else {
        number(text, 10, max)
    }
}

proof fn lemma_digits_grow(text: Seq<char>, radix: int, k: int)
    requires
        0 <= k <= text.len(),
        all_digits(text, radix),
        radix >= 1,
    ensures
        0 <= digits_value(text.take(k), radix) <= digits_value(text, radix),
    decreases text.len(),
{
    if text.len() == 0 {
        assert(text.take(k) =~= text);
    } else {
        let init = text.drop_last();
        assert forall|i: int| 0 <= i < init.len() implies digit_value(
            #[trigger] init[i],
            radix,
        ) is Some by {
            assert(init[i] == text[i]);
        }
        assert(digit_value(text[text.len() - 1], radix) is Some);
        if k == text.len() {
            assert(text.take(k) =~= text);
            lemma_digits_grow(init, radix, init.len() as int);
            assert(init.take(init.len() as int) =~= init);
            let high = digits_value(init, radix);
            assert(0 <= high * radix) by (nonlinear_arith)
                requires
                    0 <= high,
                    radix >= 1,
            ;
        } else {
            lemma_digits_grow(init, radix, k);
            assert(init.take(k) =~= text.take(k));
            let high = digits_value(init, radix);
            assert(high <= high * radix) by (nonlinear_arith)
                requires
                    0 <= high,
                    radix >= 1,
            ;
        }
    }
}

/// Read digits in a radix of at most 36 as a number of at most `max`.
pub fn parse_plain(text: &[char], radix: u32, max: u64) -> (value: Option<u64>)
    requires
        2 <= radix <= 36,
    ensures
        value is Some <==> plain_number(text@, radix as int, max as int) is Some,
        value matches Some(v) ==> plain_number(text@, radix as int, max as int) == Some(v as int)
            && v <= max,
{
    if text.len() == 0 {
        return None;
    }
    let mut value: u64 = 0;
    let mut i: usize = 0;
    let ghost r = radix as int;
    while i < text.len()
        invariant
            2 <= radix <= 36,
            r == radix,
            i <= text@.len(),
            value <= max,
            value == digits_value(text@.take(i as int), r),
            forall|j: int| 0 <= j < i ==> digit_value(#[trigger] text@[j], r) is Some,
        decreases text@.len() - i,
    {
        let ghost upto = text@.take(i + 1);
        assert(upto.drop_last() =~= text@.take(i as int));
        assert(upto.last() == text@[i as int]);
        match digit(text[i], radix) {
            Some(d) => {
                assert(0 <= value as int * radix as int <= u64::MAX as int * 36) by (nonlinear_arith)
                    requires
                        0 <= value <= u64::MAX,
                        0 <= radix <= 36,
                ;
                let wide: u128 = value as u128 * radix as u128 + d as u128;
                assert(wide == digits_value(upto, r));
                if wide > max as u128 {
                    proof {
                        if all_digits(text@, r) {
                            lemma_digits_grow(text@, r, i + 1);
                        }
                    }
                    return None;
                }
                value = wide as u64;
            },
            None => {
                assert(digit_value(text@[i as int], r) is None);
                return None;
            },
        }
        i = i + 1;
    }
    assert(text@.take(i as int) =~= text@);
    Some(value)
}

/// Read a number of at most `max` in a radix of at most 36.
pub fn parse_number(text: &[char], radix: u32, max: u64) -> (value: Option<u64>)
    requires
        2 <= radix <= 36,
    ensures
        value is Some <==> number(text@, radix as int, max as int) is Some,
        value matches Some(v) ==> number(text@, radix as int, max as int) == Some(v as int) && v
            <= max,
{
    if text.len() > 0 && text[0] == '+' {
        parse_plain(tail(text, 1), radix, max)
    } else {
        parse_plain(text, radix, max)
    }
}

/// Read a decimal number between `min` and `max`.
pub fn parse_signed(text: &[char], min: i64, max: i64) -> (value: Option<i64>)
    requires
        min <= 0 <= max,
    ensures
        value is Some <==> signed_number(text@, min as int, max as int) is Some,
        value matches Some(v) ==> signed_number(text@, min as int, max as int) == Some(v as int)
            && min <= v <= max,
{
    if text.len() > 0 && text[0] == '-' {
        let lowest: u64 = (-(min as i128)) as u64;
        match parse_plain(tail(text, 1), 10, lowest) {
            Some(magnitude) => Some((-(magnitude as i128)) as i64),
            None => None,
        }
    } else {
        match parse_number(text, 10, max as u64) {
            Some(value) => Some(value as i64),
            None => None,
        }
    }
}

/// The digit that stands for a value below 16.
pub open spec fn digit_char(value: int) -> char {
    if value < 10 {
        (0x30 + value) as u8 as char
    } else {
        (0x61 + value - 10) as u8 as char
    }
}

/// A number in a radix, without leading zeroes.
pub open spec fn spelled(value: nat, radix: nat) -> Seq<char>
    decreases value,
{
    if radix < 2 || value < radix {
        seq![digit_char(value as int)]
    } else {
        proof {
            assert(value / radix < value) by (nonlinear_arith)
                requires
                    radix >= 2,
                    value >= radix,
            ;
        }
        spelled(value / radix, radix).push(digit_char((value % radix) as int))
    }
}

/// A number in decimal.
pub open spec fn decimal(value: nat) -> Seq<char> {
    spelled(value, 10)
}

/// The digit that stands for a value below 16.
pub fn to_digit(value: u8) -> (c: char)
    requires
        value < 16,
    ensures
        c == digit_char(value as int),
{
    if value < 10 {
        (0x30 + value) as char
    } else {
        (0x61 + value - 10) as char
    }
}

/// Write a number in a radix of at most 16.
pub fn spell(value: u64, radix: u64) -> (digits: Vec<char>)
    requires
        2 <= radix <= 16,
    ensures
        digits@ == spelled(value as nat, radix as nat),
    decreases value,
{
    if value < radix {
        let mut digits: Vec<char> = Vec::new();
        digits.push(to_digit(value as u8));
        assert(digits@ =~= spelled(value as nat, radix as nat));
        digits
    } else {
        proof {
            vstd::arithmetic::div_mod::lemma_div_decreases(value as int, radix as int);
        }
        let mut digits = spell(value / radix, radix);
        digits.push(to_digit((value % radix) as u8));
        digits
    }
}

/// Append a number in decimal to a text.
pub fn append_number(text: &mut String, value: u64)
    ensures
        final(text)@ == old(text)@ + decimal(value as nat),
{
    let digits = spell(value, 10);
    append_chars(text, digits.as_slice());
}

/// Append characters to a text.
pub fn append_chars(text: &mut String, chars: &[char])
    ensures
        final(text)@ == old(text)@ + chars@,
{
    let ghost before = text@;
    let mut i: usize = 0;
    assert(before + chars@.take(0) =~= before);
    while i < chars.len()
        invariant
            i <= chars@.len(),
            text@ == before + chars@.take(i as int),
        decreases chars@.len() - i,
    {
        text.push(chars[i]);
        i = i + 1;
        assert(text@ =~= before + chars@.take(i as int));
    }
    assert(chars@.take(i as int) =~= chars@);
}

/// Append a string to a text.
pub fn append(text: &mut String, more: &str)
    ensures
        final(text)@ == old(text)@ + more@,
{
    text.append(more);
}

// ---------------------------------------------------------------------------
// lengths in bytes, and order
// ---------------------------------------------------------------------------

/// How many bytes a character takes in UTF-8.
pub open spec fn width(c: char) -> nat {
    let n = c as u32;
    if n < 0x80 {
        1
    } else if n < 0x800 {
        2
    } else if n < 0x1_0000 {
        3
    } else {
        4
    }
}

/// How many bytes a character takes in UTF-8.
pub fn utf8_width(c: char) -> (bytes: usize)
    ensures
        bytes == width(c),
        1 <= bytes <= 4,
{
    let n: u32 = c as u32;
    if n < 0x80 {
        1
    } else if n < 0x800 {
        2
    } else if n < 0x1_0000 {
        3
    } else {
        4
    }
}

/// How many bytes a text takes in UTF-8.
pub open spec fn byte_len(text: Seq<char>) -> nat
    decreases text.len(),
{
    if text.len() == 0 {
        0
    } else {
        byte_len(text.drop_last()) + width(text.last())
    }
}

/// The longest start of a text that takes at most so many bytes.
pub open spec fn fitting(text: Seq<char>, limit: nat) -> Seq<char>
    decreases text.len(),
{
    if byte_len(text) <= limit {
        text
    } else {
        fitting(text.drop_last(), limit)
    }
}

proof fn lemma_fitting(text: Seq<char>, k: int, limit: nat)
    requires
        0 <= k <= text.len(),
        byte_len(text.take(k)) <= limit,
        k < text.len() ==> byte_len(text.take(k + 1)) > limit,
    ensures
        fitting(text, limit) == text.take(k),
        byte_len(text) <= limit <==> k == text.len(),
    decreases text.len(),
{
    if k == text.len() {
        assert(text.take(k) =~= text);
    } else {
        let shorter = text.drop_last();
        if k == shorter.len() {
            assert(text.take(k + 1) =~= text);
            assert(shorter.take(k) =~= shorter);
            assert(shorter =~= text.take(k));
        } else {
            assert(shorter.take(k) =~= text.take(k));
            assert(shorter.take(k + 1) =~= text.take(k + 1));
        }
        lemma_fitting(shorter, k, limit);
        assert(shorter.take(k) =~= text.take(k));
        assert(byte_len(text) > limit) by {
            if k == shorter.len() {
                assert(text.take(k + 1) =~= text);
            }
        }
    }
}

/// The longest start of a text that takes at most so many bytes.
pub fn fit(text: &[char], limit: usize) -> (start: &[char])
    ensures
        start@ == fitting(text@, limit as nat),
        start@.len() == text@.len() <==> byte_len(text@) <= limit,
        start@.len() <= text@.len(),
{
    let mut used: usize = 0;
    let mut i: usize = 0;
    while i < text.len()
        invariant
            i <= text@.len(),
            used == byte_len(text@.take(i as int)),
            used <= limit,
        decreases text@.len() - i,
    {
        let bytes: usize = utf8_width(text[i]);
        assert(text@.take(i + 1).drop_last() =~= text@.take(i as int));
        if bytes > limit - used {
            proof {
                lemma_fitting(text@, i as int, limit as nat);
            }
            return head(text, i);
        }
        used = used + bytes;
        i = i + 1;
    }
    proof {
        lemma_fitting(text@, i as int, limit as nat);
    }
    head(text, i)
}

/// Whether one text sorts before another: at the first place where they differ,
/// or where one ends.
pub open spec fn precedes(a: Seq<char>, b: Seq<char>) -> bool
    decreases a.len(),
{
    if b.len() == 0 {
        false
    } else if a.len() == 0 {
        true
    } else if a[0] != b[0] {
        (a[0] as int) < (b[0] as int)
    } else {
        precedes(a.skip(1), b.skip(1))
    }
}

/// Of two different texts exactly one sorts before the other, and the order is
/// transitive.
pub proof fn lemma_precedes(a: Seq<char>, b: Seq<char>, c: Seq<char>)
    ensures
        !precedes(a, a),
        a == b || precedes(a, b) || precedes(b, a),
        !(precedes(a, b) && precedes(b, a)),
        precedes(a, b) && precedes(b, c) ==> precedes(a, c),
    decreases a.len() + b.len() + c.len(),
{
    if a.len() == 0 && b.len() == 0 {
        assert(a =~= b);
    }
    if a.len() > 0 {
        lemma_precedes(
            a.skip(1),
            if b.len() > 0 {
                b.skip(1)
            } else {
                b
            },
            if c.len() > 0 {
                c.skip(1)
            } else {
                c
            },
        );
        if b.len() > 0 && a[0] == b[0] && a.skip(1) == b.skip(1) {
            assert(a =~= b) by {
                assert forall|i: int| 0 <= i < a.len() implies a[i] == b[i] by {
                    if i > 0 {
                        assert(a[i] == a.skip(1)[i - 1] && b[i] == b.skip(1)[i - 1]);
                    }
                }
                assert(a.len() == a.skip(1).len() + 1 && b.len() == b.skip(1).len() + 1);
            }
        }
    }
}

/// The number of a character.
pub fn code_point(c: char) -> (n: u32)
    ensures
        n as int == c as int,
{
    c as u32
}

/// Whether one text sorts before another.
pub fn sorts_before(a: &str, b: &str) -> (yes: bool)
    ensures
        yes == precedes(a@, b@),
{
    let left = chars_of(a);
    let right = chars_of(b);
    let mut i: usize = 0;
    assert(left@.skip(0) =~= left@ && right@.skip(0) =~= right@);
    while i < left.len() && i < right.len()
        invariant
            i <= left@.len(),
            i <= right@.len(),
            left@ == a@,
            right@ == b@,
            precedes(a@, b@) == precedes(left@.skip(i as int), right@.skip(i as int)),
        decreases left@.len() - i,
    {
        assert(left@.skip(i as int)[0] == left@[i as int]);
        assert(right@.skip(i as int)[0] == right@[i as int]);
        assert(left@.skip(i as int).skip(1) =~= left@.skip(i + 1));
        assert(right@.skip(i as int).skip(1) =~= right@.skip(i + 1));
        if left[i] != right[i] {
            return code_point(left[i]) < code_point(right[i]);
        }
        i = i + 1;
    }
    i < right.len()
}

// ---------------------------------------------------------------------------
// laws
// ---------------------------------------------------------------------------

proof fn lemma_lower(c: char)
    ensures
        'A' <= c <= 'Z' ==> lower(c) as int == c as int + 32,
        !('A' <= c <= 'Z') ==> lower(c) == c,
{
}

/// Lowering keeps every character in its place: an ASCII capital becomes the letter 32
/// code points on, everything else stays as it is.
pub proof fn law_lowering_touches_capitals_only(text: Seq<char>)
    ensures
        lowered(text).len() == text.len(),
        forall|i: int|
            0 <= i < text.len() ==> if 'A' <= #[trigger] text[i] <= 'Z' {
                lowered(text)[i] as int == text[i] as int + 32
            } else {
                lowered(text)[i] == text[i]
            },
        lowered(lowered(text)) == lowered(text),
{
    assert forall|i: int| 0 <= i < text.len() implies if 'A' <= #[trigger] text[i] <= 'Z' {
        lowered(text)[i] as int == text[i] as int + 32
    } else {
        lowered(text)[i] == text[i]
    } by {
        assert(lowered(text)[i] == lower(text[i]));
        lemma_lower(text[i]);
    }
    assert forall|i: int| 0 <= i < text.len() implies #[trigger] lowered(lowered(text))[i]
        == lowered(text)[i] by {
        assert(lowered(text)[i] == lower(text[i]));
        lemma_lower(text[i]);
        lemma_lower(lower(text[i]));
    }
    assert(lowered(lowered(text)) =~= lowered(text));
}

/// Blanks and line breaks are white space, and no visible ASCII character is. Control
/// characters are those before the blank, and those from DEL up to the end of Latin-1's
/// control block.
pub proof fn law_what_separates_words(c: char)
    ensures
        c == ' ' || c == '\t' || c == '\n' || c == '\r' || c as int == 0x0b || c as int == 0x0c
            ==> is_space(c),
        c as int == 0x85 || c as int == 0xa0 || c as int == 0x3000 ==> is_space(c),
        '!' <= c <= '~' ==> !is_space(c) && !is_control(c),
        c as int == 0x7f || (c as int) < 0x20 ==> is_control(c),
        0x80 <= c as int <= 0x9f ==> is_control(c),
        c as int >= 0xa0 || ' ' <= c <= '~' ==> !is_control(c),
{
}

/// Digits, letters and the values of digits.
pub proof fn law_what_digits_are(c: char, radix: int)
    requires
        2 <= radix <= 36,
    ensures
        is_digit(c) <==> '0' <= c <= '9',
        is_alphanumeric(c) <==> '0' <= c <= '9' || 'A' <= c <= 'Z' || 'a' <= c <= 'z',
        '0' <= c <= '9' && (c as int) - ('0' as int) < radix ==> digit_value(c, radix) == Some(
            c as int - '0' as int,
        ),
        'a' <= c <= 'z' && (c as int) - ('a' as int) + 10 < radix ==> digit_value(c, radix) == Some(
            c as int - 'a' as int + 10,
        ),
        'A' <= c <= 'Z' ==> digit_value(c, radix) == digit_value(lower(c), radix),
        digit_value(c, radix) matches Some(value) ==> 0 <= value < radix && is_alphanumeric(c),
        radix == 10 ==> (digit_value(c, radix) is Some <==> '0' <= c <= '9'),
{
}

/// What trimming takes off is white space at the ends, and it takes off all of it.
pub proof fn law_trimming_takes_white_space_off_the_ends(text: Seq<char>) -> (cut: (int, int))
    ensures
        0 <= cut.0 <= cut.1 <= text.len(),
        trimmed(text) == text.subrange(cut.0, cut.1),
        trimmed_start(text) == text.skip(cut.0) || trimmed(text).len() == 0,
        forall|i: int| 0 <= i < cut.0 || cut.1 <= i < text.len() ==> is_space(#[trigger] text[i]),
        trimmed(text).len() > 0 ==> !is_space(trimmed(text)[0]) && !is_space(trimmed(text).last()),
{
    let from = lemma_trimmed_start(text);
    let rest = text.skip(from);
    let to = lemma_trimmed_end(rest);
    assert(rest.take(to) =~= text.subrange(from, from + to));
    assert forall|i: int| 0 <= i < from || from + to <= i < text.len() implies is_space(
        #[trigger] text[i],
    ) by {
        if from + to <= i {
            assert(rest[i - from] == text[i]);
        }
    }
    if to > 0 {
        assert(rest.take(to)[0] == rest[0]);
    }
    (from, from + to)
}

/// Trimming at the start alone takes off exactly the white space there.
pub proof fn lemma_trimmed_start(text: Seq<char>) -> (cut: int)
    ensures
        0 <= cut <= text.len(),
        trimmed_start(text) == text.skip(cut),
        forall|i: int| 0 <= i < cut ==> is_space(#[trigger] text[i]),
        cut < text.len() ==> !is_space(text[cut]),
    decreases text.len(),
{
    if text.len() > 0 && is_space(text[0]) {
        let cut = lemma_trimmed_start(text.skip(1));
        assert(text.skip(1).skip(cut) =~= text.skip(cut + 1));
        assert forall|i: int| 0 <= i < cut + 1 implies is_space(#[trigger] text[i]) by {
            if i > 0 {
                assert(text.skip(1)[i - 1] == text[i]);
            }
        }
        cut + 1
    } else {
        assert(text.skip(0) =~= text);
        0
    }
}

/// Trimming at the end alone takes off exactly the white space there.
pub proof fn lemma_trimmed_end(text: Seq<char>) -> (cut: int)
    ensures
        0 <= cut <= text.len(),
        trimmed_end(text) == text.take(cut),
        forall|i: int| cut <= i < text.len() ==> is_space(#[trigger] text[i]),
        cut > 0 ==> !is_space(text[cut - 1]),
    decreases text.len(),
{
    if text.len() > 0 && is_space(text.last()) {
        let shorter = text.drop_last();
        let cut = lemma_trimmed_end(shorter);
        assert(shorter.take(cut) =~= text.take(cut));
        assert forall|i: int| cut <= i < text.len() implies is_space(#[trigger] text[i]) by {
            if i < shorter.len() {
                assert(shorter[i] == text[i]);
            }
        }
        cut
    } else {
        assert(text.take(text.len() as int) =~= text);
        text.len() as int
    }
}

/// A text that begins and ends with something visible is trimmed already.
pub proof fn lemma_trimmed_already(text: Seq<char>)
    requires
        text.len() > 0 ==> !is_space(text[0]) && !is_space(text.last()),
    ensures
        trimmed(text) == text,
{
}

/// Splitting at a character: two texts with the separator between them have the pieces
/// of both, and a text without it is one piece.
pub proof fn law_pieces_stand_between_separators(a: Seq<char>, separator: char, b: Seq<char>)
    ensures
        pieces(a.push(separator) + b, separator) == pieces(a, separator) + pieces(b, separator),
        (forall|i: int| 0 <= i < a.len() ==> #[trigger] a[i] != separator) ==> pieces(a, separator)
            == seq![a],
    decreases a.len() + b.len(),
{
    let whole = a.push(separator) + b;
    if b.len() == 0 {
        assert(whole =~= a.push(separator));
        assert(whole.drop_last() =~= a);
        assert(pieces(whole, separator) =~= pieces(a, separator) + pieces(b, separator));
    } else {
        law_pieces_stand_between_separators(a, separator, b.drop_last());
        lemma_pieces_len(b.drop_last(), separator);
        assert(whole.drop_last() =~= a.push(separator) + b.drop_last());
        assert(pieces(whole, separator) =~= pieces(a, separator) + pieces(b, separator));
    }
    if forall|i: int| 0 <= i < a.len() ==> #[trigger] a[i] != separator {
        if a.len() == 0 {
            assert(a =~= Seq::empty());
        } else {
            let shorter = a.drop_last();
            assert forall|i: int| 0 <= i < shorter.len() implies #[trigger] shorter[i]
                != separator by {
                assert(shorter[i] == a[i]);
            }
            law_pieces_stand_between_separators(shorter, separator, seq![]);
            assert(a[a.len() - 1] != separator);
            assert(shorter.push(a.last()) =~= a);
            let before = pieces(shorter, separator);
            assert(before == seq![shorter]);
            assert(before.update(0, a) =~= seq![a]);
        }
    }
}

/// The lines of a text: each ends at a line break, and one at the end opens no further
/// line.
pub proof fn law_lines_end_at_line_breaks(line: Seq<char>, rest: Seq<char>)
    requires
        forall|i: int| 0 <= i < line.len() ==> #[trigger] line[i] != '\n',
    ensures
        lines_of(line.push('\n') + rest) == seq![line] + lines_of(rest),
        line.len() > 0 ==> lines_of(line) == seq![line],
        lines_of(Seq::<char>::empty()).len() == 0,
{
    law_pieces_stand_between_separators(line, '\n', rest);
    lemma_pieces_len(rest, '\n');
    let parts = pieces(rest, '\n');
    let all = pieces(line.push('\n') + rest, '\n');
    assert(all == seq![line] + parts);
    assert(all.last() == parts.last());
    assert(lines_of(line.push('\n') + rest) =~= seq![line] + lines_of(rest));
    assert(pieces(Seq::<char>::empty(), '\n').last().len() == 0);
}

/// A number that is written out reads back, in every radix and with or without a plus
/// sign, as long as it is not too large.
pub proof fn law_a_number_reads_back(value: nat, radix: nat, max: int)
    requires
        2 <= radix <= 16,
    ensures
        value <= max ==> number(spelled(value, radix), radix as int, max) == Some(value as int),
        value <= max ==> number(seq!['+'] + spelled(value, radix), radix as int, max) == Some(
            value as int,
        ),
        value > max ==> number(spelled(value, radix), radix as int, max) is None,
        signed_number(seq!['-'] + spelled(value, 10), -max, max) == (if value <= max {
            Some(-(value as int))
        } else {
            None
        }),
{
    lemma_spelled_back(value, radix);
    lemma_spelled_back(value, 10);
    let text = spelled(value, radix);
    assert((seq!['+'] + text).skip(1) =~= text);
    assert((seq!['-'] + spelled(value, 10)).skip(1) =~= spelled(value, 10));
    assert(digit_value('+', radix as int) is None);
    assert(digit_value(text[0], radix as int) is Some);
}

/// A text that holds anything but digits, behind a sign, is no number, and neither is
/// an empty one.
pub proof fn law_only_digits_make_a_number(text: Seq<char>, radix: int, max: int, i: int)
    requires
        0 <= i < text.len(),
        digit_value(text[i], radix) is None,
        i > 0 || text[0] != '+',
    ensures
        number(text, radix, max) is None,
        i > 0 || text[0] != '-' ==> radix == 10 ==> signed_number(text, -max, max) is None,
        number(Seq::<char>::empty(), radix, max) is None,
{
    if text[0] == '+' || text[0] == '-' {
        assert(i > 0 ==> text.skip(1)[i - 1] == text[i]);
    }
}

proof fn lemma_spelled_back(value: nat, radix: nat)
    requires
        2 <= radix <= 16,
    ensures
        spelled(value, radix).len() > 0,
        all_digits(spelled(value, radix), radix as int),
        digits_value(spelled(value, radix), radix as int) == value,
    decreases value,
{
    let text = spelled(value, radix);
    if value < radix {
        assert(text =~= seq![digit_char(value as int)]);
        assert(text.drop_last().len() == 0);
        reveal_with_fuel(digits_value, 2);
    } else {
        assert(value / radix < value && value % radix < radix) by (nonlinear_arith)
            requires
                radix >= 2,
                value >= radix,
        ;
        lemma_spelled_back(value / radix, radix);
        let front = spelled(value / radix, radix);
        let last = digit_char((value % radix) as int);
        assert(text == front.push(last));
        assert(text.drop_last() =~= front);
        assert(digit_value(last, radix as int) == Some((value % radix) as int));
        assert((value / radix) * radix + value % radix == value) by (nonlinear_arith)
            requires
                radix >= 2,
        ;
        assert forall|i: int| 0 <= i < text.len() implies digit_value(
            #[trigger] text[i],
            radix as int,
        ) is Some by {
            if i < front.len() {
                assert(text[i] == front[i]);
            }
        }
    }
}

/// A number in decimal is made of decimal digits, with no zero in front but its own.
pub proof fn law_decimals_are_digits(value: nat)
    ensures
        decimal(value).len() > 0,
        forall|i: int| 0 <= i < decimal(value).len() ==> '0' <= #[trigger] decimal(value)[i] <= '9',
        value > 0 ==> decimal(value)[0] != '0',
        decimal(0) == seq!['0'],
    decreases value,
{
    if value >= 10 {
        law_decimals_are_digits(value / 10);
        let front = decimal(value / 10);
        assert(decimal(value) == front.push(digit_char((value % 10) as int)));
        assert forall|i: int| 0 <= i < decimal(value).len() implies '0' <= #[trigger] decimal(
            value,
        )[i] <= '9' by {
            if i < front.len() {
                assert(decimal(value)[i] == front[i]);
            }
        }
        assert(decimal(value)[0] == front[0]);
    }
    assert(digit_char(0) == '0');
}

/// A text is found where it stands first, and not found only where it stands nowhere.
pub proof fn law_a_text_is_found_where_it_first_stands(text: Seq<char>, wanted: Seq<char>)
    ensures
        first_text(text, wanted) matches Some(i) ==> 0 <= i <= text.len() - wanted.len()
            && text.subrange(i, i + wanted.len()) == wanted,
        forall|j: int|
            0 <= j <= text.len() - wanted.len() && #[trigger] text.subrange(j, j + wanted.len())
                == wanted ==> first_text(text, wanted) is Some && first_text(text, wanted)->0 <= j,
{
    lemma_found_from(text, wanted, 0);
}

proof fn lemma_found_from(text: Seq<char>, wanted: Seq<char>, from: int)
    requires
        0 <= from,
    ensures
        first_text_from(text, wanted, from) matches Some(i) ==> from <= i <= text.len()
            - wanted.len() && text.subrange(i, i + wanted.len()) == wanted,
        forall|j: int|
            from <= j <= text.len() - wanted.len() && #[trigger] text.subrange(j, j + wanted.len())
                == wanted ==> first_text_from(text, wanted, from) is Some && first_text_from(
                text,
                wanted,
                from,
            )->0 <= j,
    decreases text.len() + 1 - from,
{
    if from + wanted.len() <= text.len() && text.subrange(from, from + wanted.len()) != wanted {
        lemma_found_from(text, wanted, from + 1);
    }
}

/// A text begins with another exactly where the other and something behind it make it
/// up, and likewise at the end.
pub proof fn law_beginnings_and_ends(text: Seq<char>, part: Seq<char>, more: Seq<char>)
    ensures
        begins(part + more, part),
        ends(more + part, part),
        begins(text, part) ==> text == part + text.skip(part.len() as int),
        ends(text, part) ==> text == text.take(text.len() - part.len()) + part,
{
    assert((part + more).take(part.len() as int) =~= part);
    assert((more + part).skip(more.len() as int) =~= part);
    if begins(text, part) {
        assert(text =~= part + text.skip(part.len() as int));
    }
    if ends(text, part) {
        assert(text =~= text.take(text.len() - part.len()) + part);
    }
}

/// Replacing changes what it looks for and nothing else: a text without it stays, and
/// the first occurrence in a text gives way to what replaces it.
pub proof fn law_replacing_changes_occurrences_only(
    before: Seq<char>,
    from: Seq<char>,
    to: Seq<char>,
    rest: Seq<char>,
)
    requires
        from.len() > 0,
    ensures
        first_text(before, from) is None ==> replaced(before, from, to) == before,
        (forall|i: int|
            0 <= i < before.len() ==> !begins(#[trigger] (before + from + rest).skip(i), from))
            ==> replaced(before + from + rest, from, to) == before + to + replaced(rest, from, to),
    decreases before.len(),
{
    let whole = before + from + rest;
    if first_text(before, from) is None {
        lemma_not_found_not_replaced(before, from, to);
    }
    if forall|i: int| 0 <= i < before.len() ==> !begins(#[trigger] whole.skip(i), from) {
        if before.len() == 0 {
            assert(whole =~= from + rest);
            assert(whole.take(from.len() as int) =~= from);
            assert(whole.skip(from.len() as int) =~= rest);
            assert(before + to =~= to);
        } else {
            let shorter = before.skip(1);
            let less = shorter + from + rest;
            assert(whole.skip(1) =~= less);
            assert(whole.skip(0) =~= whole);
            assert(!begins(whole.skip(0), from));
            assert forall|i: int| 0 <= i < shorter.len() implies !begins(
                #[trigger] less.skip(i),
                from,
            ) by {
                assert(whole.skip(i + 1) =~= less.skip(i));
            }
            law_replacing_changes_occurrences_only(shorter, from, to, rest);
            assert(seq![before[0]] + (shorter + to + replaced(rest, from, to)) =~= before + to
                + replaced(rest, from, to));
        }
    }
}

proof fn lemma_not_found_not_replaced(text: Seq<char>, from: Seq<char>, to: Seq<char>)
    requires
        from.len() > 0,
        first_text(text, from) is None,
    ensures
        replaced(text, from, to) == text,
    decreases text.len(),
{
    if text.len() > 0 {
        law_a_text_is_found_where_it_first_stands(text, from);
        if begins(text, from) {
            assert(text.subrange(0, from.len() as int) =~= text.take(from.len() as int));
        }
        let rest = text.skip(1);
        law_a_text_is_found_where_it_first_stands(rest, from);
        if let Some(i) = first_text(rest, from) {
            assert(text.subrange(i + 1, i + 1 + from.len()) =~= rest.subrange(i, i + from.len()));
        }
        lemma_not_found_not_replaced(rest, from, to);
        assert(seq![text[0]] + rest =~= text);
    }
}

/// Fitting keeps the longest start of a text that takes no more bytes than allowed: one
/// character more would take too many.
pub proof fn law_fitting_keeps_as_much_as_it_can(text: Seq<char>, limit: nat) -> (kept: int)
    ensures
        0 <= kept <= text.len(),
        fitting(text, limit) == text.take(kept),
        byte_len(text.take(kept)) <= limit,
        kept < text.len() ==> byte_len(text.take(kept + 1)) > limit,
    decreases text.len(),
{
    if byte_len(text) <= limit {
        assert(text.take(text.len() as int) =~= text);
        text.len() as int
    } else {
        let shorter = text.drop_last();
        let kept = law_fitting_keeps_as_much_as_it_can(shorter, limit);
        assert(shorter.take(kept) =~= text.take(kept));
        if kept < shorter.len() {
            assert(shorter.take(kept + 1) =~= text.take(kept + 1));
        } else {
            assert(text.take(kept + 1) =~= text);
        }
        kept
    }
}

/// The bytes of a text are those of its characters: one for ASCII, up to four for the
/// others, and never fewer than one each.
pub proof fn law_bytes_are_counted_by_character(text: Seq<char>, c: char)
    ensures
        byte_len(text.push(c)) == byte_len(text) + width(c),
        byte_len(Seq::<char>::empty()) == 0,
        1 <= width(c) <= 4,
        width(c) == 1 <==> (c as int) < 0x80,
        width(c) <= 2 <==> (c as int) < 0x800,
        width(c) <= 3 <==> (c as int) < 0x1_0000,
{
    assert(text.push(c).drop_last() =~= text);
}

/// Texts are ordered by the first character in which they differ, and a text comes
/// before any that it is the start of.
pub proof fn law_the_first_difference_decides(
    common: Seq<char>,
    a: char,
    b: char,
    behind_a: Seq<char>,
    behind_b: Seq<char>,
)
    ensures
        a < b ==> precedes(common + seq![a] + behind_a, common + seq![b] + behind_b),
        precedes(common, common + seq![a] + behind_a),
    decreases common.len(),
{
    let one = common + seq![a] + behind_a;
    let other = common + seq![b] + behind_b;
    if common.len() > 0 {
        let rest = common.skip(1);
        law_the_first_difference_decides(rest, a, b, behind_a, behind_b);
        assert(one.skip(1) =~= rest + seq![a] + behind_a);
        assert(other.skip(1) =~= rest + seq![b] + behind_b);
    }
}

} // verus!
