//! The option block of a rule, split into `name` and `name:value` options.

use vstd::prelude::*;
use crate::text::{
    head, is_space, law_what_separates_words, lemma_trimmed_already, lowercase, lowered, tail, trim,
    trimmed, trimmed_start,
};
use super::error::{ErrorModel, ParseError};

verus! {

/// What one option of the block says: its keyword in lower case, its value
/// without quotes and escapes, and whether the value had a `!` in front.
pub struct RawModel {
    /// The keyword.
    pub name: Seq<char>,
    /// The value, where there is one.
    pub value: Option<Seq<char>>,
    /// The value was prefixed with `!`, as in `content:!"evil"`.
    pub negated: bool,
}

/// One `name` or `name:value` option, with the value already unquoted.
pub struct RawOption {
    /// The keyword.
    pub name: Vec<char>,
    /// The value, where there is one.
    pub value: Option<Vec<char>>,
    /// The value was prefixed with `!`, as in `content:!"evil"`.
    pub negated: bool,
}

impl View for RawOption {
    type V = RawModel;

    open spec fn view(&self) -> RawModel {
        RawModel {
            name: self.name@,
            value: match self.value {
                Some(value) => Some(value@),
                None => None,
            },
            negated: self.negated,
        }
    }
}

/// The models of a list of options.
pub open spec fn raw_models(options: Seq<RawOption>) -> Seq<RawModel> {
    options.map_values(|option: RawOption| option@)
}

/// The contents of a list of character vectors.
pub open spec fn contents(chunks: Seq<Vec<char>>) -> Seq<Seq<char>> {
    chunks.map_values(|chunk: Vec<char>| chunk@)
}

/// The chunks of a block from a point on: `current` is what the chunk at that
/// point holds so far, `quoted` whether the point lies inside quotes. A `;` ends
/// a chunk unless it is quoted or behind a backslash.
pub open spec fn chunks_from(body: Seq<char>, current: Seq<char>, quoted: bool) -> Result<
    Seq<Seq<char>>,
    ErrorModel,
>
    decreases body.len(),
{
    if body.len() == 0 {
        if quoted {
            Err(ErrorModel::UnterminatedString)
        } else if trimmed(current).len() > 0 {
            Ok(seq![current])
        } else {
            Ok(seq![])
        }
    } else if body[0] == '\\' {
        if body.len() == 1 {
            Err(ErrorModel::UnterminatedString)
        } else {
            chunks_from(body.skip(2), current.push('\\').push(body[1]), quoted)
        }
    } else if body[0] == '"' {
        chunks_from(body.skip(1), current.push('"'), !quoted)
    } else if body[0] == ';' && !quoted {
        match chunks_from(body.skip(1), seq![], false) {
            Ok(rest) => Ok(seq![current] + rest),
            Err(error) => Err(error),
        }
    } else {
        chunks_from(body.skip(1), current.push(body[0]), quoted)
    }
}

/// Where the first unquoted colon of a chunk stands, from a place on.
pub open spec fn colon_from(chunk: Seq<char>, i: int, quoted: bool, escaped: bool) -> Option<int>
    decreases chunk.len() - i,
{
    if i < 0 || i >= chunk.len() {
        None
    } else if escaped {
        colon_from(chunk, i + 1, quoted, false)
    } else if chunk[i] == '\\' {
        colon_from(chunk, i + 1, quoted, true)
    } else if chunk[i] == '"' {
        colon_from(chunk, i + 1, !quoted, false)
    } else if chunk[i] == ':' && !quoted {
        Some(i)
    } else {
        colon_from(chunk, i + 1, quoted, false)
    }
}

/// A text with its escapes resolved; nothing where it ends in a lone backslash.
/// Only `\"`, `\;` and `\\` are escapes, every other backslash stays.
pub open spec fn resolved(text: Seq<char>) -> Option<Seq<char>>
    decreases text.len(),
{
    if text.len() == 0 {
        Some(seq![])
    } else if text[0] != '\\' {
        match resolved(text.skip(1)) {
            Some(rest) => Some(seq![text[0]] + rest),
            None => None,
        }
    } else if text.len() == 1 {
        None
    } else {
        match resolved(text.skip(2)) {
            Some(rest) => if text[1] == '"' || text[1] == ';' || text[1] == '\\' {
                Some(seq![text[1]] + rest)
            } else {
                Some(seq!['\\', text[1]] + rest)
            },
            None => None,
        }
    }
}

/// A value without its quotes and escapes.
pub open spec fn unescaped(value: Seq<char>) -> Result<Seq<char>, ErrorModel> {
    if value.len() > 0 && value[0] == '"' && (value.len() == 1 || value.last() != '"') {
        Err(ErrorModel::UnterminatedString)
    } else {
        let inner = if value.len() > 0 && value[0] == '"' {
            value.subrange(1, value.len() - 1)
        } else {
            value
        };
        match resolved(inner) {
            Some(text) => Ok(text),
            None => Err(ErrorModel::UnterminatedString),
        }
    }
}

/// The value of an option, without the `!` in front of it.
pub open spec fn positive(value: Seq<char>) -> Seq<char> {
    if value.len() > 0 && value[0] == '!' {
        trimmed(value.skip(1))
    } else {
        value
    }
}

/// The option that a trimmed chunk gives.
pub open spec fn raw_of(chunk: Seq<char>) -> Result<RawModel, ErrorModel> {
    match colon_from(chunk, 0, false, false) {
        None => Ok(RawModel { name: lowered(trimmed(chunk)), value: None, negated: false }),
        Some(i) => {
            let value = trimmed(chunk.skip(i + 1));
            match unescaped(positive(value)) {
                Err(error) => Err(error),
                Ok(text) => Ok(
                    RawModel {
                        name: lowered(trimmed(chunk.take(i))),
                        value: Some(text),
                        negated: value.len() > 0 && value[0] == '!',
                    },
                ),
            }
        },
    }
}

/// The options that chunks give from a place on, behind those `before` it.
pub open spec fn raws_from(chunks: Seq<Seq<char>>, i: int, before: Seq<RawModel>) -> Result<
    Seq<RawModel>,
    ErrorModel,
>
    decreases chunks.len() - i,
{
    if i < 0 || i >= chunks.len() {
        Ok(before)
    } else if trimmed(chunks[i]).len() == 0 {
        raws_from(chunks, i + 1, before)
    } else {
        match raw_of(trimmed(chunks[i])) {
            Err(error) => Err(error),
            Ok(option) => raws_from(chunks, i + 1, before.push(option)),
        }
    }
}

/// The options of a block, or the first thing wrong with it.
pub open spec fn raws_of(body: Seq<char>) -> Result<Seq<RawModel>, ErrorModel> {
    match chunks_from(body, seq![], false) {
        Err(error) => Err(error),
        Ok(chunks) => raws_from(chunks, 0, seq![]),
    }
}

/// Chunks already cut off, in front of those of the rest.
spec fn behind(done: Seq<Seq<char>>, rest: Result<Seq<Seq<char>>, ErrorModel>) -> Result<
    Seq<Seq<char>>,
    ErrorModel,
> {
    match rest {
        Ok(rest) => Ok(done + rest),
        Err(error) => Err(error),
    }
}

/// Split an option block into chunks.
///
/// Semicolons inside quotes, and semicolons escaped with a backslash, do not
/// terminate an option: a naive split would silently truncate a rule and change
/// what it matches.
fn split_option_list(body: &[char]) -> (result: Result<Vec<Vec<char>>, ParseError>)
    ensures
        match result {
            Ok(chunks) => chunks_from(body@, seq![], false) == Ok::<Seq<Seq<char>>, ErrorModel>(
                contents(chunks@),
            ),
            Err(error) => chunks_from(body@, seq![], false) == Err::<Seq<Seq<char>>, ErrorModel>(
                error@,
            ),
        },
{
    let mut chunks: Vec<Vec<char>> = Vec::new();
    let mut current: Vec<char> = Vec::new();
    let mut in_quotes: bool = false;
    let mut i: usize = 0;
    assert(body@.skip(0) =~= body@);
    assert(current@ =~= seq![]);
    assert(behind(contents(chunks@), chunks_from(body@, seq![], false)) == chunks_from(
        body@,
        seq![],
        false,
    )) by {
        if let Ok(rest) = chunks_from(body@, seq![], false) {
            assert(contents(chunks@) + rest =~= rest);
        }
    }
    while i < body.len()
        invariant
            i <= body@.len(),
            body@.len() == body.len(),
            behind(contents(chunks@), chunks_from(body@.skip(i as int), current@, in_quotes))
                == chunks_from(body@, seq![], false),
        decreases body@.len() - i,
    {
        let ghost rest = body@.skip(i as int);
        assert(rest[0] == body@[i as int]);
        assert(rest.skip(1) =~= body@.skip(i + 1));
        let c = body[i];
        if c == '\\' {
            if i + 1 >= body.len() {
                return Err(ParseError::UnterminatedString);
            }
            assert(rest[1] == body@[i + 1]);
            assert(rest.skip(2) =~= body@.skip(i + 2));
            current.push('\\');
            current.push(body[i + 1]);
            i = i + 2;
        } else if c == '"' {
            current.push('"');
            in_quotes = !in_quotes;
            i = i + 1;
        } else if c == ';' && !in_quotes {
            let ghost before = chunks@;
            let ghost chunk = current@;
            let mut cut: Vec<char> = Vec::new();
            std::mem::swap(&mut cut, &mut current);
            chunks.push(cut);
            i = i + 1;
            proof {
                assert(current@ =~= seq![]);
                let later = chunks_from(rest.skip(1), seq![], false);
                if let Ok(more) = later {
                    assert(contents(chunks@) + more =~= contents(before) + (seq![chunk] + more));
                }
            }
        } else {
            current.push(c);
            i = i + 1;
        }
    }
    assert(body@.skip(i as int).len() == 0);
    if in_quotes {
        return Err(ParseError::UnterminatedString);
    }
    let ghost before = chunks@;
    let ghost chunk = current@;
    if trim(current.as_slice()).len() > 0 {
        chunks.push(current);
        assert(contents(chunks@) =~= contents(before) + seq![chunk]);
    } else {
        assert(contents(chunks@) =~= contents(before) + seq![]);
    }
    Ok(chunks)
}

/// Split `name:value` at the first colon that is outside quotes.
///
/// Sticky-buffer keywords such as `http.uri` contain no colon, and values such
/// as `pcre:"/a:b/"` do, so the split must respect quoting.
fn split_name_value(chunk: &[char]) -> (colon: Option<usize>)
    ensures
        colon is Some <==> colon_from(chunk@, 0, false, false) is Some,
        colon matches Some(i) ==> colon_from(chunk@, 0, false, false) == Some(i as int) && i
            < chunk@.len(),
{
    let mut in_quotes: bool = false;
    let mut escaped: bool = false;
    let mut i: usize = 0;
    while i < chunk.len()
        invariant
            i <= chunk@.len(),
            colon_from(chunk@, i as int, in_quotes, escaped) == colon_from(chunk@, 0, false, false),
        decreases chunk@.len() - i,
    {
        if escaped {
            escaped = false;
        } else if chunk[i] == '\\' {
            escaped = true;
        } else if chunk[i] == '"' {
            in_quotes = !in_quotes;
        } else if chunk[i] == ':' && !in_quotes {
            return Some(i);
        }
        i = i + 1;
    }
    None
}

/// Text already resolved, in front of what the rest resolves to.
spec fn followed(done: Seq<char>, rest: Option<Seq<char>>) -> Option<Seq<char>> {
    match rest {
        Some(rest) => Some(done + rest),
        None => None,
    }
}

fn resolve(text: &[char]) -> (result: Option<Vec<char>>)
    ensures
        match result {
            Some(out) => resolved(text@) == Some(out@),
            None => resolved(text@) is None,
        },
{
    let mut out: Vec<char> = Vec::new();
    let mut i: usize = 0;
    assert(text@.skip(0) =~= text@);
    assert(followed(out@, resolved(text@)) == resolved(text@)) by {
        if let Some(rest) = resolved(text@) {
            assert(out@ + rest =~= rest);
        }
    }
    while i < text.len()
        invariant
            i <= text@.len(),
            text@.len() == text.len(),
            followed(out@, resolved(text@.skip(i as int))) == resolved(text@),
        decreases text@.len() - i,
    {
        let ghost rest = text@.skip(i as int);
        let ghost before = out@;
        assert(rest[0] == text@[i as int]);
        if text[i] != '\\' {
            out.push(text[i]);
            i = i + 1;
            proof {
                assert(rest.skip(1) =~= text@.skip(i as int));
                if let Some(more) = resolved(rest.skip(1)) {
                    assert(out@ + more =~= before + (seq![rest[0]] + more));
                }
            }
        } else {
            if i + 1 >= text.len() {
                return None;
            }
            assert(rest[1] == text@[i + 1]);
            let c = text[i + 1];
            if c == '"' || c == ';' || c == '\\' {
                out.push(c);
                proof {
                    if let Some(more) = resolved(rest.skip(2)) {
                        assert(out@ + more =~= before + (seq![c] + more));
                    }
                }
            } else {
                // Anything else keeps its backslash: rule authors write regexes
                // and byte patterns here, and rewriting `\d` to `d` would
                // corrupt them.
                out.push('\\');
                out.push(c);
                proof {
                    if let Some(more) = resolved(rest.skip(2)) {
                        assert(out@ + more =~= before + (seq!['\\', c] + more));
                    }
                }
            }
            i = i + 2;
            assert(rest.skip(2) =~= text@.skip(i as int));
        }
    }
    assert(text@.skip(i as int).len() == 0);
    assert(out@ + Seq::<char>::empty() =~= out@);
    Some(out)
}

/// Strip surrounding quotes if present and resolve backslash escapes.
fn unescape(value: &[char]) -> (result: Result<Vec<char>, ParseError>)
    ensures
        match result {
            Ok(text) => unescaped(value@) == Ok::<Seq<char>, ErrorModel>(text@),
            Err(error) => unescaped(value@) == Err::<Seq<char>, ErrorModel>(error@),
        },
{
    let inner = if value.len() > 0 && value[0] == '"' {
        if value.len() == 1 || value[value.len() - 1] != '"' {
            return Err(ParseError::UnterminatedString);
        }
        let inside = head(tail(value, 1), value.len() - 2);
        assert(inside@ =~= value@.subrange(1, value@.len() - 1));
        inside
    } else {
        value
    };
    match resolve(inner) {
        Some(text) => Ok(text),
        None => Err(ParseError::UnterminatedString),
    }
}

fn parse_option(chunk: &[char]) -> (result: Result<RawOption, ParseError>)
    ensures
        match result {
            Ok(option) => raw_of(chunk@) == Ok::<RawModel, ErrorModel>(option@),
            Err(error) => raw_of(chunk@) == Err::<RawModel, ErrorModel>(error@),
        },
{
    match split_name_value(chunk) {
        None => Ok(RawOption { name: lowercase(trim(chunk)), value: None, negated: false }),
        Some(i) => {
            assert(i < chunk.len());
            let value = trim(tail(chunk, i + 1));
            // Negation is stripped before unquoting so `content:!"evil"` reads as
            // a negated `evil` rather than as a value that happens to start
            // with `!`.
            let negated = value.len() > 0 && value[0] == '!';
            let body = if negated {
                trim(tail(value, 1))
            } else {
                value
            };
            match unescape(body) {
                Err(error) => Err(error),
                Ok(text) => Ok(
                    RawOption {
                        name: lowercase(trim(head(chunk, i))),
                        value: Some(text),
                        negated,
                    },
                ),
            }
        },
    }
}

/// Parse the inside of an option block.
pub fn parse_options(body: &[char]) -> (result: Result<Vec<RawOption>, ParseError>)
    ensures
        match result {
            Ok(options) => raws_of(body@) == Ok::<Seq<RawModel>, ErrorModel>(raw_models(options@)),
            Err(error) => raws_of(body@) == Err::<Seq<RawModel>, ErrorModel>(error@),
        },
{
    let chunks = match split_option_list(body) {
        Ok(chunks) => chunks,
        Err(error) => return Err(error),
    };
    let ghost parts = contents(chunks@);
    let mut options: Vec<RawOption> = Vec::new();
    let mut i: usize = 0;
    assert(raw_models(options@) =~= seq![]);
    while i < chunks.len()
        invariant
            parts == contents(chunks@),
            i <= parts.len(),
            raws_from(parts, i as int, raw_models(options@)) == raws_from(parts, 0, seq![]),
            raws_of(body@) == raws_from(parts, 0, seq![]),
        decreases parts.len() - i,
    {
        assert(parts[i as int] == chunks@[i as int]@);
        let chunk = trim(chunks[i].as_slice());
        if chunk.len() > 0 {
            match parse_option(chunk) {
                Err(error) => return Err(error),
                Ok(option) => {
                    let ghost before = options@;
                    options.push(option);
                    assert(raw_models(options@) =~= raw_models(before).push(option@));
                },
            }
        }
        i = i + 1;
    }
    Ok(options)
}

/// Plain characters go on the chunk at hand.
proof fn lemma_plain_run(run: Seq<char>, rest: Seq<char>, current: Seq<char>, quoted: bool)
    requires
        forall|i: int|
            0 <= i < run.len() ==> #[trigger] run[i] != '\\' && run[i] != '"' && (run[i] != ';'
                || quoted),
    ensures
        chunks_from(run + rest, current, quoted) == chunks_from(rest, current + run, quoted),
    decreases run.len(),
{
    if run.len() == 0 {
        assert(run + rest =~= rest);
        assert(current + run =~= current);
    } else {
        let whole = run + rest;
        assert(whole[0] == run[0]);
        assert forall|i: int| 0 <= i < run.skip(1).len() implies #[trigger] run.skip(1)[i] != '\\'
            && run.skip(1)[i] != '"' && (run.skip(1)[i] != ';' || quoted) by {
            assert(run.skip(1)[i] == run[i + 1]);
        }
        lemma_plain_run(run.skip(1), rest, current.push(run[0]), quoted);
        assert(whole.skip(1) =~= run.skip(1) + rest);
        assert(current.push(run[0]) + run.skip(1) =~= current + run);
    }
}

/// A text without backslashes has no escapes.
proof fn lemma_nothing_escaped(text: Seq<char>)
    requires
        forall|i: int| 0 <= i < text.len() ==> #[trigger] text[i] != '\\',
    ensures
        resolved(text) == Some(text),
    decreases text.len(),
{
    if text.len() > 0 {
        assert forall|i: int| 0 <= i < text.skip(1).len() implies #[trigger] text.skip(1)[i]
            != '\\' by {
            assert(text.skip(1)[i] == text[i + 1]);
        }
        lemma_nothing_escaped(text.skip(1));
        assert(seq![text[0]] + text.skip(1) =~= text);
    } else {
        assert(text =~= seq![]);
    }
}

/// The block of a rule that has a message and an identifier and nothing else.
pub open spec fn least_block(message: Seq<char>, digits: Seq<char>) -> Seq<char> {
    "msg:\""@ + message + "\"; sid:"@ + digits + ";"@
}

proof fn lemma_least_chunks(message: Seq<char>, digits: Seq<char>)
    requires
        forall|i: int|
            0 <= i < message.len() ==> #[trigger] message[i] != '\\' && message[i] != '"',
        forall|i: int|
            0 <= i < digits.len() ==> #[trigger] digits[i] != '\\' && digits[i] != '"' && digits[i]
                != ';',
    ensures
        chunks_from(least_block(message, digits), seq![], false) == Ok::<
            Seq<Seq<char>>,
            ErrorModel,
        >(seq!["msg:\""@ + message + "\""@, " sid:"@ + digits]),
{
    reveal_strlit("msg:\"");
    reveal_strlit("\"; sid:");
    reveal_strlit("\"");
    reveal_strlit(" sid:");
    reveal_strlit(";");
    let none = Seq::<char>::empty();
    let msg = seq!['m', 's', 'g', ':'];
    let sid = seq![' ', 's', 'i', 'd', ':'];
    let t6 = seq![';'];
    let t5 = digits + t6;
    let t4 = sid + t5;
    let t3 = seq!['"', ';'] + t4;
    let t2 = message + t3;
    let t1 = seq!['"'] + t2;
    assert(least_block(message, digits) =~= msg + t1);
    lemma_plain_run(msg, t1, none, false);
    let c1 = none + msg;
    assert(t1.skip(1) =~= t2);
    let c2 = c1.push('"');
    assert(chunks_from(t1, c1, false) == chunks_from(t2, c2, true));
    lemma_plain_run(message, t3, c2, true);
    let c3 = c2 + message;
    let semi = seq![';'] + t4;
    assert(t3.skip(1) =~= semi);
    let c4 = c3.push('"');
    assert(chunks_from(t3, c3, true) == chunks_from(semi, c4, false));
    assert(semi.skip(1) =~= t4);
    lemma_plain_run(sid, t5, none, false);
    lemma_plain_run(digits, t6, none + sid, false);
    let c6 = none + sid + digits;
    assert(t6.skip(1) =~= none);
    assert(chunks_from(none, none, false) == Ok::<Seq<Seq<char>>, ErrorModel>(seq![])) by {
        assert(trimmed(none) =~= none);
    }
    assert(chunks_from(t6, c6, false) == Ok::<Seq<Seq<char>>, ErrorModel>(
        seq![c6] + Seq::<Seq<char>>::empty(),
    ));
    assert(c4 =~= "msg:\""@ + message + "\""@);
    assert(c6 =~= " sid:"@ + digits);
    assert(seq![c4] + (seq![c6] + Seq::<Seq<char>>::empty()) =~= seq![c4, c6]);
}

proof fn lemma_message_option(message: Seq<char>)
    requires
        forall|i: int| 0 <= i < message.len() ==> #[trigger] message[i] != '\\',
    ensures
        ({
            let chunk = "msg:\""@ + message + "\""@;
            &&& trimmed(chunk) == chunk
            &&& raw_of(chunk) == Ok::<RawModel, ErrorModel>(
                RawModel { name: "msg"@, value: Some(message), negated: false },
            )
        }),
{
    reveal_strlit("msg:\"");
    reveal_strlit("\"");
    reveal_strlit("msg");
    let chunk = "msg:\""@ + message + "\""@;
    assert(chunk[0] == 'm' && chunk[1] == 's' && chunk[2] == 'g' && chunk[3] == ':');
    assert(chunk.last() == '"');
    reveal_with_fuel(colon_from, 5);
    assert(colon_from(chunk, 0, false, false) == Some(3int));
    let value = chunk.skip(4);
    assert(value[0] == '"' && value.last() == '"' && value.len() == message.len() + 2);
    assert(trimmed(value) == value);
    assert(value.subrange(1, value.len() - 1) =~= message);
    lemma_nothing_escaped(message);
    assert(chunk.take(3) =~= "msg"@);
    assert("msg"@[0] == 'm' && "msg"@.last() == 'g');
    assert(trimmed("msg"@) == "msg"@);
    assert(lowered("msg"@) =~= "msg"@);
}

proof fn lemma_identifier_option(digits: Seq<char>)
    requires
        digits.len() > 0,
        forall|i: int| 0 <= i < digits.len() ==> '0' <= #[trigger] digits[i] <= '9',
    ensures
        ({
            let chunk = "sid:"@ + digits;
            &&& trimmed(" sid:"@ + digits) == chunk
            &&& raw_of(chunk) == Ok::<RawModel, ErrorModel>(
                RawModel { name: "sid"@, value: Some(digits), negated: false },
            )
        }),
{
    reveal_strlit(" sid:");
    reveal_strlit("sid:");
    reveal_strlit("sid");
    let chunk = "sid:"@ + digits;
    let spaced = " sid:"@ + digits;
    assert(spaced[0] == ' ');
    assert(spaced.skip(1) =~= chunk);
    assert(chunk[0] == 's' && chunk[1] == 'i' && chunk[2] == 'd' && chunk[3] == ':');
    assert(chunk.last() == digits[digits.len() - 1]);
    assert(trimmed_start(spaced) == trimmed_start(chunk));
    assert(trimmed(spaced) == chunk);
    reveal_with_fuel(colon_from, 5);
    assert(colon_from(chunk, 0, false, false) == Some(3int));
    let value = chunk.skip(4);
    assert(value =~= digits);
    assert('0' <= digits[0] <= '9');
    assert(trimmed(digits) == digits);
    lemma_nothing_escaped(digits);
    assert(chunk.take(3) =~= "sid"@);
    assert("sid"@[0] == 's' && "sid"@.last() == 'd');
    assert(trimmed("sid"@) == "sid"@);
    assert(lowered("sid"@) =~= "sid"@);
}

/// A message and an identifier are read as they are written.
pub proof fn law_a_least_block_gives_its_options(message: Seq<char>, digits: Seq<char>)
    requires
        forall|i: int|
            0 <= i < message.len() ==> #[trigger] message[i] != '\\' && message[i] != '"',
        digits.len() > 0,
        forall|i: int| 0 <= i < digits.len() ==> '0' <= #[trigger] digits[i] <= '9',
    ensures
        raws_of(least_block(message, digits)) == Ok::<Seq<RawModel>, ErrorModel>(
            seq![
                RawModel { name: "msg"@, value: Some(message), negated: false },
                RawModel { name: "sid"@, value: Some(digits), negated: false },
            ],
        ),
{
    lemma_least_chunks(message, digits);
    lemma_message_option(message);
    lemma_identifier_option(digits);
    reveal_strlit("msg:\"");
    reveal_strlit("sid:");
    let chunks = seq!["msg:\""@ + message + "\""@, " sid:"@ + digits];
    let one = seq![RawModel { name: "msg"@, value: Some(message), negated: false }];
    let both = one.push(RawModel { name: "sid"@, value: Some(digits), negated: false });
    assert(Seq::<RawModel>::empty().push(one[0]) =~= one);
    assert(raws_from(chunks, 2, both) == Ok::<Seq<RawModel>, ErrorModel>(both));
    assert(raws_from(chunks, 1, one) == raws_from(chunks, 2, both));
    assert(raws_from(chunks, 0, seq![]) == raws_from(chunks, 1, one));
    assert(both =~= seq![one[0], both[1]]);
}

/// A text with a backslash in front of each character that is special in a value.
pub open spec fn escaped(text: Seq<char>) -> Seq<char>
    decreases text.len(),
{
    if text.len() == 0 {
        seq![]
    } else if text[0] == '"' || text[0] == ';' || text[0] == '\\' {
        seq!['\\', text[0]] + escaped(text.skip(1))
    } else {
        seq![text[0]] + escaped(text.skip(1))
    }
}

/// Escaping is undone: what is escaped and read is what it was, inside quotes or not, and
/// a backslash in front of any other character stays.
pub proof fn law_escaping_is_undone(text: Seq<char>, other: char)
    requires
        other != '"' && other != ';' && other != '\\',
    ensures
        resolved(escaped(text)) == Some(text),
        unescaped(seq!['"'] + escaped(text) + seq!['"']) == Ok::<Seq<char>, ErrorModel>(text),
        resolved(seq!['\\', other] + escaped(text)) == Some(seq!['\\', other] + text),
    decreases text.len(),
{
    let all = escaped(text);
    if text.len() == 0 {
        assert(text =~= seq![]);
    } else {
        law_escaping_is_undone(text.skip(1), other);
        let rest = escaped(text.skip(1));
        if text[0] == '"' || text[0] == ';' || text[0] == '\\' {
            assert(all.skip(2) =~= rest);
        } else {
            assert(all.skip(1) =~= rest);
        }
        assert(seq![text[0]] + text.skip(1) =~= text);
    }
    let whole = seq!['"'] + all + seq!['"'];
    assert(whole.subrange(1, whole.len() - 1) =~= all);
    assert((seq!['\\', other] + all).skip(2) =~= all);
}

/// Quotes have to be closed, and a value cannot end in a lone backslash.
pub proof fn law_open_quotes_are_refused(text: Seq<char>)
    requires
        forall|i: int| 0 <= i < text.len() ==> #[trigger] text[i] != '"' && text[i] != '\\',
    ensures
        unescaped(seq!['"'] + text) == Err::<Seq<char>, ErrorModel>(ErrorModel::UnterminatedString),
        resolved(text) == Some(text),
        resolved(text.push('\\')) is None,
    decreases text.len(),
{
    let open = seq!['"'] + text;
    if text.len() > 0 {
        assert(open.last() == text[text.len() - 1]);
        let rest = text.skip(1);
        assert forall|i: int| 0 <= i < rest.len() implies #[trigger] rest[i] != '"' && rest[i]
            != '\\' by {
            assert(rest[i] == text[i + 1]);
        }
        law_open_quotes_are_refused(rest);
        assert(text.push('\\').skip(1) =~= rest.push('\\'));
        assert(seq![text[0]] + rest =~= text);
        assert(text.push('\\')[0] == text[0]);
    } else {
        assert(text =~= seq![]);
        assert(text.push('\\') =~= seq!['\\']);
    }
}

proof fn lemma_colon_behind(name: Seq<char>, rest: Seq<char>, i: int)
    requires
        0 <= i <= name.len(),
        forall|k: int|
            0 <= k < name.len() ==> #[trigger] name[k] != ':' && name[k] != '"' && name[k] != '\\',
    ensures
        colon_from(name.push(':') + rest, i, false, false) == Some(name.len() as int),
        colon_from(name, i, false, false) is None,
    decreases name.len() - i,
{
    let whole = name.push(':') + rest;
    if i < name.len() {
        lemma_colon_behind(name, rest, i + 1);
        assert(whole[i] == name[i]);
    } else {
        assert(whole[i] == ':');
    }
}

/// An option is its keyword and, behind the first colon, its value: the keyword in small
/// letters, the value without quotes and escapes, and an exclamation mark in front of
/// the value negates it. Without a colon there is no value.
pub proof fn law_an_option_is_a_keyword_and_a_value(name: Seq<char>, value: Seq<char>)
    requires
        forall|k: int|
            0 <= k < name.len() ==> #[trigger] name[k] != ':' && name[k] != '"' && name[k] != '\\',
        value.len() > 0,
        !is_space(value[0]),
        !is_space(value.last()),
    ensures
        raw_of(name) == Ok::<RawModel, ErrorModel>(
            RawModel { name: lowered(trimmed(name)), value: None, negated: false },
        ),
        value[0] != '!' ==> match unescaped(value) {
            Ok(text) => {
                &&& raw_of(name.push(':') + value) == Ok::<RawModel, ErrorModel>(
                    RawModel { name: lowered(trimmed(name)), value: Some(text), negated: false },
                )
                &&& raw_of(name.push(':').push('!') + value) == Ok::<RawModel, ErrorModel>(
                    RawModel { name: lowered(trimmed(name)), value: Some(text), negated: true },
                )
            },
            Err(error) => raw_of(name.push(':') + value) == Err::<RawModel, ErrorModel>(error)
                && raw_of(name.push(':').push('!') + value) == Err::<RawModel, ErrorModel>(error),
        },
{
    lemma_colon_behind(name, value, 0);
    let plain = name.push(':') + value;
    assert(plain.take(name.len() as int) =~= name);
    assert(plain.skip(name.len() as int + 1) =~= value);
    lemma_trimmed_already(value);
    let denied = seq!['!'] + value;
    lemma_colon_behind(name, denied, 0);
    let negative = name.push(':') + denied;
    assert(name.push(':').push('!') + value =~= negative);
    assert(negative.take(name.len() as int) =~= name);
    assert(negative.skip(name.len() as int + 1) =~= denied);
    assert(denied.last() == value.last());
    law_what_separates_words('!');
    lemma_trimmed_already(denied);
    assert(denied.skip(1) =~= value);
}

/// What may stand in an option without hiding a semicolon.
pub open spec fn is_bare(text: Seq<char>) -> bool {
    forall|i: int|
        0 <= i < text.len() ==> #[trigger] text[i] != ';' && text[i] != '"' && text[i] != '\\'
}

proof fn lemma_bare_runs(text: Seq<char>, rest: Seq<char>, current: Seq<char>)
    requires
        is_bare(text),
    ensures
        chunks_from(text + rest, current, false) == chunks_from(rest, current + text, false),
    decreases text.len(),
{
    if text.len() == 0 {
        assert(text + rest =~= rest);
        assert(current + text =~= current);
    } else {
        let next = text.skip(1);
        assert forall|i: int| 0 <= i < next.len() implies #[trigger] next[i] != ';' && next[i] != '"'
            && next[i] != '\\' by {
            assert(next[i] == text[i + 1]);
        }
        lemma_bare_runs(next, rest, current.push(text[0]));
        assert((text + rest).skip(1) =~= next + rest);
        assert(current.push(text[0]) + next =~= current + text);
        assert((text + rest)[0] == text[0]);
    }
}

/// Semicolons end options: one behind a bare text ends it, one inside quotes or behind a
/// backslash does not, and quotes that stay open are an error.
pub proof fn law_semicolons_end_options(
    text: Seq<char>,
    rest: Seq<char>,
    current: Seq<char>,
    c: char,
)
    requires
        is_bare(text),
    ensures
        chunks_from(text.push(';') + rest, seq![], false) == (match chunks_from(
            rest,
            seq![],
            false,
        ) {
            Ok(others) => Ok::<Seq<Seq<char>>, ErrorModel>(seq![text] + others),
            Err(error) => Err(error),
        }),
        chunks_from(seq!['"', ';', '"'] + rest, current, false) == chunks_from(
            rest,
            current + seq!['"', ';', '"'],
            false,
        ),
        chunks_from(seq!['\\', c] + rest, current, false) == chunks_from(
            rest,
            current + seq!['\\', c],
            false,
        ),
        chunks_from(text.push('"'), current, false) == Err::<Seq<Seq<char>>, ErrorModel>(
            ErrorModel::UnterminatedString,
        ),
        trimmed(text).len() > 0 ==> chunks_from(text, seq![], false) == Ok::<
            Seq<Seq<char>>,
            ErrorModel,
        >(seq![text]),
{
    let none = Seq::<char>::empty();
    let ended = seq![';'] + rest;
    assert(text.push(';') + rest =~= text + ended);
    lemma_bare_runs(text, ended, none);
    assert(none + text =~= text);
    assert(ended.skip(1) =~= rest);
    let quoted = seq!['"', ';', '"'] + rest;
    assert(quoted.skip(1) =~= seq![';', '"'] + rest);
    assert((seq![';', '"'] + rest).skip(1) =~= seq!['"'] + rest);
    assert((seq!['"'] + rest).skip(1) =~= rest);
    assert(current.push('"').push(';').push('"') =~= current + seq!['"', ';', '"']);
    reveal_with_fuel(chunks_from, 4);
    assert((seq!['\\', c] + rest).skip(2) =~= rest);
    assert(current.push('\\').push(c) =~= current + seq!['\\', c]);
    let open = seq!['"'];
    assert(text.push('"') =~= text + open);
    lemma_bare_runs(text, open, current);
    assert(open.skip(1) =~= none);
    lemma_bare_runs(text, none, none);
    assert(text + none =~= text);
}

proof fn lemma_raws_ahead(chunks: Seq<Seq<char>>, i: int, before: Seq<RawModel>)
    requires
        0 < i <= chunks.len(),
    ensures
        raws_from(chunks, i, before) == (match raws_from(chunks.skip(1), i - 1, seq![]) {
            Ok(others) => Ok::<Seq<RawModel>, ErrorModel>(before + others),
            Err(error) => Err(error),
        }),
    decreases chunks.len() - i,
{
    let rest = chunks.skip(1);
    let none = Seq::<RawModel>::empty();
    if i >= chunks.len() {
        assert(before + none =~= before);
    } else {
        assert(rest[i - 1] == chunks[i]);
        if trimmed(chunks[i]).len() == 0 {
            lemma_raws_ahead(chunks, i + 1, before);
        } else if let Ok(option) = raw_of(trimmed(chunks[i])) {
            lemma_raws_ahead(chunks, i + 1, before.push(option));
            lemma_raws_ahead(chunks, i + 1, none.push(option));
            lemma_raws_start(rest, i, none.push(option));
            if let Ok(others) = raws_from(rest, i, none) {
                assert(before.push(option) + others =~= before + (none.push(option) + others));
            }
        }
    }
}

proof fn lemma_raws_start(chunks: Seq<Seq<char>>, i: int, before: Seq<RawModel>)
    requires
        0 <= i <= chunks.len(),
    ensures
        raws_from(chunks, i, before) == (match raws_from(chunks, i, seq![]) {
            Ok(others) => Ok::<Seq<RawModel>, ErrorModel>(before + others),
            Err(error) => Err(error),
        }),
    decreases chunks.len() - i,
{
    let none = Seq::<RawModel>::empty();
    if i >= chunks.len() {
        assert(before + none =~= before);
    } else if trimmed(chunks[i]).len() == 0 {
        lemma_raws_start(chunks, i + 1, before);
    } else if let Ok(option) = raw_of(trimmed(chunks[i])) {
        lemma_raws_start(chunks, i + 1, before.push(option));
        lemma_raws_start(chunks, i + 1, none.push(option));
        if let Ok(others) = raws_from(chunks, i + 1, none) {
            assert(before.push(option) + others =~= before + (none.push(option) + others));
        }
    }
}

/// A block is its options in order: a bare option and its semicolon in front of a block
/// put the option in front of the others, and a blank one adds nothing.
pub proof fn law_a_block_is_its_options_in_order(text: Seq<char>, rest: Seq<char>)
    requires
        is_bare(text),
    ensures
        chunks_from(rest, seq![], false) is Ok && trimmed(text).len() == 0 ==> raws_of(
            text.push(';') + rest,
        ) == raws_of(rest),
        raws_of(rest) is Ok && trimmed(text).len() > 0 ==> match raw_of(trimmed(text)) {
            Ok(option) => raws_of(text.push(';') + rest) == Ok::<Seq<RawModel>, ErrorModel>(
                seq![option] + raws_of(rest)->Ok_0,
            ),
            Err(error) => raws_of(text.push(';') + rest) == Err::<Seq<RawModel>, ErrorModel>(
                error,
            ),
        },
{
    law_semicolons_end_options(text, rest, seq![], ' ');
    if let Ok(others) = chunks_from(rest, seq![], false) {
        let all = seq![text] + others;
        assert(all.skip(1) =~= others);
        assert(all[0] == text);
        let none = Seq::<RawModel>::empty();
        lemma_raws_ahead(all, 1, none);
        if let Ok(tail) = raws_from(others, 0, none) {
            assert(none + tail =~= tail);
        }
        if let Ok(option) = raw_of(trimmed(text)) {
            lemma_raws_ahead(all, 1, none.push(option));
            assert(none.push(option) =~= seq![option]);
        }
    }
}

/// An empty value is empty, and so is an empty pair of quotes.
pub proof fn law_empty_values_are_empty()
    ensures
        unescaped(Seq::<char>::empty()) == Ok::<Seq<char>, ErrorModel>(Seq::<char>::empty()),
        unescaped(seq!['"', '"']) == Ok::<Seq<char>, ErrorModel>(Seq::<char>::empty()),
        unescaped(seq!['"']) == Err::<Seq<char>, ErrorModel>(ErrorModel::UnterminatedString),
        chunks_from(Seq::<char>::empty(), seq![], false) == Ok::<Seq<Seq<char>>, ErrorModel>(
            seq![],
        ),
{
    let none = Seq::<char>::empty();
    law_escaping_is_undone(none, 'a');
    assert(escaped(none) =~= none);
    assert(seq!['"'] + none + seq!['"'] =~= seq!['"', '"']);
    assert(resolved(none) == Some(none));
    assert(trimmed(none).len() == 0);
}

} // verus!
