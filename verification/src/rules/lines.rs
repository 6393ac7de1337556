//! The logical lines of a rule file: comments and blank lines dropped, and
//! continued lines joined.

use vstd::prelude::*;
use crate::text::{
    append, byte_len, chars_of, fit, fitting, head, is_space, law_fitting_keeps_as_much_as_it_can,
    lines_of, split_lines, string_of, tail, trim, trim_end, trimmed, trimmed_end, views,
};

verus! {

/// A line without the byte order marks at its start.
pub open spec fn without_mark(line: Seq<char>) -> Seq<char>
    decreases line.len(),
{
    if line.len() > 0 && line[0] == '\u{feff}' {
        without_mark(line.skip(1))
    } else {
        line
    }
}

/// What a line says, by its place in the file.
pub open spec fn said(lines: Seq<Seq<char>>, i: int) -> Seq<char> {
    trimmed(
        if i == 0 {
            without_mark(lines[i])
        } else {
            lines[i]
        },
    )
}

/// Whether a line is blank or a comment.
pub open spec fn is_silent(line: Seq<char>) -> bool {
    line.len() == 0 || line[0] == '#'
}

/// Whether a line goes on in the next one.
pub open spec fn is_continued(line: Seq<char>) -> bool {
    line.len() > 0 && line.last() == '\\'
}

/// The logical lines from a place on, each with the number of the line it
/// started on: `held` is what the lines before have left to be continued, from
/// line `start` on.
pub open spec fn logical_from(lines: Seq<Seq<char>>, i: int, held: Seq<char>, start: int) -> Seq<
    (int, Seq<char>),
>
    decreases lines.len() - i,
{
    if i < 0 || i >= lines.len() {
        if trimmed(held).len() > 0 {
            seq![(start, held)]
        } else {
            seq![]
        }
    } else {
        let line = said(lines, i);
        let begin = if held.len() == 0 {
            i + 1
        } else {
            start
        };
        if held.len() == 0 && is_silent(line) {
            logical_from(lines, i + 1, held, start)
        } else if is_continued(line) {
            logical_from(lines, i + 1, held + trimmed_end(line.drop_last()) + " "@, begin)
        } else {
            seq![(begin, held + line)] + logical_from(lines, i + 1, seq![], begin)
        }
    }
}

/// The logical lines of a file.
pub open spec fn logical_of(text: Seq<char>) -> Seq<(int, Seq<char>)> {
    logical_from(lines_of(text), 0, seq![], 0)
}

proof fn lemma_numbers_are_lines(lines: Seq<Seq<char>>, i: int, held: Seq<char>, start: int)
    requires
        0 <= i <= lines.len(),
        held.len() > 0 ==> 1 <= start <= lines.len(),
    ensures
        forall|k: int|
            0 <= k < logical_from(lines, i, held, start).len() ==> 1 <= (#[trigger] logical_from(
                lines,
                i,
                held,
                start,
            )[k]).0 <= lines.len(),
    decreases lines.len() - i,
{
    let all = logical_from(lines, i, held, start);
    if i < lines.len() {
        let line = said(lines, i);
        let begin = if held.len() == 0 {
            i + 1
        } else {
            start
        };
        if held.len() == 0 && is_silent(line) {
            lemma_numbers_are_lines(lines, i + 1, held, start);
            assert(all == logical_from(lines, i + 1, held, start));
        } else if is_continued(line) {
            let more = held + trimmed_end(line.drop_last()) + " "@;
            lemma_numbers_are_lines(lines, i + 1, more, begin);
            assert(all == logical_from(lines, i + 1, more, begin));
        } else {
            lemma_numbers_are_lines(lines, i + 1, seq![], begin);
            let rest = logical_from(lines, i + 1, seq![], begin);
            assert forall|k: int| 0 <= k < all.len() implies 1 <= (#[trigger] all[k]).0
                <= lines.len() by {
                if k > 0 {
                    assert(all[k] == rest[k - 1]);
                }
            }
        }
    } else if trimmed(held).len() > 0 {
        assert(held.len() > 0);
        assert(all == seq![(start, held)]);
    }
}

/// Every logical line carries the number of a line of the file, counted from one.
pub proof fn law_logical_lines_are_numbered_from_one(text: Seq<char>)
    ensures
        forall|k: int|
            0 <= k < logical_of(text).len() ==> 1 <= (#[trigger] logical_of(text)[k]).0
                <= lines_of(text).len(),
{
    lemma_numbers_are_lines(lines_of(text), 0, seq![], 0);
}

/// The models of numbered lines.
pub open spec fn numbered(lines: Seq<(usize, String)>) -> Seq<(int, Seq<char>)> {
    lines.map_values(|line: (usize, String)| (line.0 as int, line.1@))
}

fn strip_mark(line: &[char]) -> (rest: &[char])
    ensures
        rest@ == without_mark(line@),
{
    let mut rest = line;
    while rest.len() > 0 && rest[0] == '\u{feff}'
        invariant
            without_mark(rest@) == without_mark(line@),
        decreases rest@.len(),
    {
        rest = tail(rest, 1);
    }
    rest
}

/// Yield `(starting line number, rule text)` for each rule in a file.
///
/// Strips comments and blank lines, and joins continuation lines: a line whose
/// last non-whitespace character is `\` continues onto the next.
pub fn logical_lines(text: &str) -> (out: Vec<(usize, String)>)
    ensures
        numbered(out@) == logical_of(text@),
{
    let chars = chars_of(text);
    let lines = split_lines(chars.as_slice());
    let ghost all = views(lines@);
    let mut out: Vec<(usize, String)> = Vec::new();
    let mut held: Vec<char> = Vec::new();
    let mut start: usize = 0;
    let mut i: usize = 0;
    assert(numbered(out@) + logical_of(text@) =~= logical_of(text@));
    assert(held@ =~= seq![]);
    proof {
        reveal_strlit(" ");
    }
    while i < lines.len()
        invariant
            all == views(lines@),
            i <= all.len(),
            " "@ =~= seq![' '],
            numbered(out@) + logical_from(all, i as int, held@, start as int) == logical_of(text@),
        decreases all.len() - i,
    {
        assert(all[i as int] == lines@[i as int]@);
        assert(i < lines.len());
        // A byte order mark on the first line would otherwise become part of
        // the action.
        let bare = if i == 0 {
            strip_mark(lines[i])
        } else {
            lines[i]
        };
        let line = trim(bare);
        let ghost before = out@;
        let ghost kept = held@;
        assert(line@ == said(all, i as int));
        if held.len() > 0 || (line.len() > 0 && line[0] != '#') {
            if held.len() == 0 {
                start = i + 1;
            }
            if line.len() > 0 && line[line.len() - 1] == '\\' {
                let body = head(line, line.len() - 1);
                assert(body@ =~= line@.drop_last());
                let more = trim_end(body);
                held.extend_from_slice(more);
                held.push(' ');
                assert(held@ =~= kept + trimmed_end(line@.drop_last()) + " "@);
            } else {
                held.extend_from_slice(line);
                let whole = string_of(held.as_slice());
                assert(whole@ =~= kept + line@);
                out.push((start, whole));
                held = Vec::new();
                proof {
                    assert(held@ =~= seq![]);
                    let rest = logical_from(all, i + 1, seq![], start as int);
                    assert(numbered(out@) =~= numbered(before).push((start as int, whole@)));
                    assert(numbered(out@) + rest =~= numbered(before) + (seq![
                        (start as int, whole@),
                    ] + rest));
                }
            }
        }
        i = i + 1;
    }
    // A file ending on a continuation line: keep what there is so the parser can
    // report a real error rather than dropping the rule silently.
    let ghost before = out@;
    let ghost kept = held@;
    if trim(held.as_slice()).len() > 0 {
        out.push((start, string_of(held.as_slice())));
        assert(numbered(out@) =~= numbered(before) + seq![(start as int, kept)]);
    } else {
        assert(numbered(out@) =~= numbered(before) + seq![]);
    }
    out
}

/// How many bytes of a rule's text a report keeps.
pub const RAW_LIMIT: usize = 256;

/// A text cut down for logging.
pub open spec fn clipped(text: Seq<char>) -> Seq<char> {
    if byte_len(text) <= RAW_LIMIT {
        text
    } else {
        fitting(text, RAW_LIMIT as nat) + "\u{2026}"@
    }
}

/// Cap rule text kept for logging, so one enormous line cannot flood the log.
pub fn truncate(text: &str) -> (short: String)
    ensures
        short@ == clipped(text@),
{
    let chars = chars_of(text);
    let start = fit(chars.as_slice(), RAW_LIMIT);
    let mut short = string_of(start);
    if start.len() < chars.len() {
        append(&mut short, "\u{2026}");
    } else {
        proof {
            assert(start@.len() == chars@.len());
        }
    }
    short
}

/// Without continuations, the logical lines are the lines that are neither blank nor
/// comments, each as it stands and under its number.
pub proof fn law_plain_lines_stand_for_themselves(lines: Seq<Seq<char>>, from: int, start: int, i: int)
    requires
        0 <= from,
        forall|k: int| from <= k < lines.len() ==> !is_continued(#[trigger] said(lines, k)),
    ensures
        ({
            let found = logical_from(lines, from, seq![], start);
            &&& from <= i < lines.len() ==> (found.contains((i + 1, said(lines, i))) <==> said(
                lines,
                i,
            ).len() > 0 && said(lines, i)[0] != '#')
            &&& forall|k: int|
                0 <= k < found.len() ==> from < (#[trigger] found[k]).0 <= lines.len() && found[k].1
                    == said(lines, found[k].0 - 1)
            &&& forall|j: int, k: int|
                0 <= j < k < found.len() ==> (#[trigger] found[j]).0 < (#[trigger] found[k]).0
        }),
    decreases lines.len() - from,
{
    let found = logical_from(lines, from, seq![], start);
    let none = Seq::<char>::empty();
    if from >= lines.len() {
        assert(trimmed(none).len() == 0);
        assert(found.len() == 0);
    } else {
        let line = said(lines, from);
        assert(!is_continued(line));
        if is_silent(line) {
            law_plain_lines_stand_for_themselves(lines, from + 1, start, i);
            assert(found == logical_from(lines, from + 1, none, start));
            if i == from && found.contains((i + 1, line)) {
                let k = choose|k: int| 0 <= k < found.len() && found[k] == (i + 1, line);
                assert(found[k].0 == i + 1);
            }
        } else {
            law_plain_lines_stand_for_themselves(lines, from + 1, from + 1, i);
            let rest = logical_from(lines, from + 1, none, from + 1);
            assert(none + line =~= line);
            assert(found =~= seq![(from + 1, line)] + rest);
            assert(found[0] == (from + 1, line));
            assert(i == from ==> found.contains((i + 1, said(lines, i))));
            assert forall|k: int| 0 <= k < rest.len() implies #[trigger] rest[k] == found[
                k + 1
            ] by {}
            if from < i < lines.len() {
                if rest.contains((i + 1, said(lines, i))) {
                    let k = choose|k: int|
                        0 <= k < rest.len() && rest[k] == (i + 1, said(lines, i));
                    assert(found[k + 1] == (i + 1, said(lines, i)));
                }
                if found.contains((i + 1, said(lines, i))) {
                    let k = choose|k: int|
                        0 <= k < found.len() && found[k] == (i + 1, said(lines, i));
                    assert(rest[k - 1] == found[k]);
                }
            }
            assert forall|k: int| 0 <= k < found.len() implies from < (#[trigger] found[k]).0
                <= lines.len() && found[k].1 == said(lines, found[k].0 - 1) by {
                if k > 0 {
                    assert(found[k] == rest[k - 1]);
                }
            }
            assert forall|j: int, k: int| 0 <= j < k < found.len() implies (#[trigger] found[j]).0
                < (#[trigger] found[k]).0 by {
                assert(found[k] == rest[k - 1]);
                if j > 0 {
                    assert(found[j] == rest[j - 1]);
                }
            }
        }
    }
}

/// A backslash at the end of a line joins it to the next one with a space between them,
/// under the number of the first.
pub proof fn law_a_backslash_joins_two_lines(
    lines: Seq<Seq<char>>,
    i: int,
    start: int,
    first: Seq<char>,
)
    requires
        0 <= i,
        i + 1 < lines.len(),
        first.len() > 0,
        first[0] != '#',
        !is_space(first.last()),
        said(lines, i) == first.push('\\'),
        !is_continued(said(lines, i + 1)),
    ensures
        logical_from(lines, i, seq![], start) == seq![
            (i + 1, first + seq![' '] + said(lines, i + 1)),
        ] + logical_from(lines, i + 2, seq![], i + 1),
{
    reveal_strlit(" ");
    assert(" "@ =~= seq![' ']);
    let none = Seq::<char>::empty();
    let line = first.push('\\');
    assert(line.drop_last() =~= first);
    assert(trimmed_end(first) == first);
    assert(none + first + " "@ =~= first + seq![' ']);
    assert(line[0] == first[0]);
    reveal_with_fuel(logical_from, 3);
}

/// Byte order marks in front of a file say nothing, and anywhere else they stay.
pub proof fn law_leading_marks_say_nothing(line: Seq<char>)
    ensures
        without_mark(seq!['\u{feff}'] + line) == without_mark(line),
        line.len() > 0 && line[0] != '\u{feff}' ==> without_mark(line) == line,
{
    assert((seq!['\u{feff}'] + line).skip(1) =~= line);
}

/// A rule is logged whole up to 256 bytes; a longer one is cut at a character to what
/// fits, with an ellipsis behind it.
pub proof fn law_a_long_rule_is_cut(text: Seq<char>) -> (kept: int)
    ensures
        byte_len(text) <= 256 ==> clipped(text) == text,
        byte_len(text) > 256 ==> {
            &&& 0 <= kept < text.len()
            &&& clipped(text) == text.take(kept).push('\u{2026}')
            &&& byte_len(text.take(kept)) <= 256 < byte_len(text.take(kept + 1))
        },
{
    reveal_strlit("\u{2026}");
    assert("\u{2026}"@ =~= seq!['\u{2026}']);
    let kept = law_fitting_keeps_as_much_as_it_can(text, 256);
    if byte_len(text) > 256 {
        if kept == text.len() {
            assert(text.take(kept) =~= text);
        }
        assert(clipped(text) =~= text.take(kept).push('\u{2026}'));
    }
    kept
}

} // verus!
