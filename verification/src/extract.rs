//! From logical command lines to the source patterns of their `COPY` and
//! `ADD` commands.

use crate::error::{Command, ParseError};
use crate::lines::{coalesced_lines, get_coalesced_lines_from_dockerfile_content};
use crate::text::{
    append_range, chars_of, equals_str, has_prefix, is_ascii_whitespace,
    is_ascii_whitespace_char, starts_with, string_of, strings_of, texts_of,
};
use vstd::prelude::*;

verus! {

/// How many characters stand before the first ASCII white space of `text`,
/// or in all of `text` if it holds none.
pub open spec fn token_len(text: Seq<char>) -> nat
    decreases text.len(),
{
    if text.len() == 0 || is_ascii_whitespace(text[0]) {
        0
    } else {
        1 + token_len(text.drop_first())
    }
}

/// The tokens of a line: its runs of characters other than ASCII white
/// space, in order.
pub open spec fn tokens(text: Seq<char>) -> Seq<Seq<char>>
    decreases text.len(),
    via tokens_decreases
{
    if text.len() == 0 {
        Seq::empty()
    } else if is_ascii_whitespace(text[0]) {
        tokens(text.drop_first())
    } else {
        let n = token_len(text) as int;
        seq![text.take(n)] + tokens(text.skip(n))
    }
}

#[via_fn]
proof fn tokens_decreases(text: Seq<char>) {
    lemma_token_len_bound(text);
}

proof fn lemma_token_len_bound(text: Seq<char>)
    ensures
        token_len(text) <= text.len(),
    decreases text.len(),
{
    if text.len() > 0 && !is_ascii_whitespace(text[0]) {
        lemma_token_len_bound(text.drop_first());
    }
}

/// Where a token ends: nothing before `n` is white space, and at `n` stands
/// white space or the end of the text.
proof fn lemma_token_len_at(text: Seq<char>, n: int)
    requires
        0 <= n <= text.len(),
        forall|k: int| 0 <= k < n ==> !is_ascii_whitespace(#[trigger] text[k]),
        n == text.len() || is_ascii_whitespace(text[n]),
    ensures
        token_len(text) == n,
    decreases n,
{
    if n > 0 {
        let rest = text.drop_first();
        assert forall|k: int| 0 <= k < n - 1 implies !is_ascii_whitespace(#[trigger] rest[k]) by {
            assert(rest[k] == text[k + 1]);
        }
        lemma_token_len_at(rest, n - 1);
    }
}

/// White space in front of a text adds no token.
proof fn lemma_tokens_skip_whitespace(text: Seq<char>, n: int)
    requires
        0 <= n <= text.len(),
        forall|k: int| 0 <= k < n ==> is_ascii_whitespace(#[trigger] text[k]),
    ensures
        tokens(text) == tokens(text.skip(n)),
    decreases n,
{
    if n == 0 {
        assert(text.skip(0) =~= text);
    } else {
        let rest = text.drop_first();
        assert forall|k: int| 0 <= k < n - 1 implies is_ascii_whitespace(#[trigger] rest[k]) by {
            assert(rest[k] == text[k + 1]);
        }
        lemma_tokens_skip_whitespace(rest, n - 1);
        assert(rest.skip(n - 1) =~= text.skip(n));
    }
}

/// The tokens of a line, as vectors of characters.
fn read_tokens(chars: &Vec<char>) -> (found: Vec<Vec<char>>)
    ensures
        texts_of(found@) == tokens(chars@),
{
    let mut found: Vec<Vec<char>> = Vec::new();
    let mut pos: usize = 0;
    proof {
        assert(chars@.skip(0) =~= chars@);
        assert(texts_of(found@) =~= Seq::<Seq<char>>::empty());
    }
    while pos < chars.len()
        invariant
            pos <= chars.len(),
            tokens(chars@) == texts_of(found@) + tokens(chars@.skip(pos as int)),
        decreases chars.len() - pos,
    {
        let ghost before = texts_of(found@);
        let ghost rest = chars@.skip(pos as int);
        let mut start: usize = pos;
        while start < chars.len() && is_ascii_whitespace_char(chars[start])
            invariant
                pos <= start <= chars.len(),
                forall|k: int| pos <= k < start ==> is_ascii_whitespace(#[trigger] chars@[k]),
            decreases chars.len() - start,
        {
            start += 1;
        }
        let mut end: usize = start;
        while end < chars.len() && !is_ascii_whitespace_char(chars[end])
            invariant
                start <= end <= chars.len(),
                forall|k: int| start <= k < end ==> !is_ascii_whitespace(#[trigger] chars@[k]),
            decreases chars.len() - end,
        {
            end += 1;
        }
        proof {
            assert forall|k: int| 0 <= k < start - pos implies is_ascii_whitespace(
                #[trigger] rest[k],
            ) by {
                assert(rest[k] == chars@[pos + k]);
            }
            lemma_tokens_skip_whitespace(rest, start - pos);
            assert(rest.skip(start - pos) =~= chars@.skip(start as int));
        }
        if start < end {
            let mut token: Vec<char> = Vec::new();
            append_range(&mut token, chars, start, end);
            found.push(token);
            proof {
                let word = chars@.skip(start as int);
                assert forall|k: int| 0 <= k < end - start implies !is_ascii_whitespace(
                    #[trigger] word[k],
                ) by {
                    assert(word[k] == chars@[start + k]);
                }
                lemma_token_len_at(word, end - start);
                assert(word.take(end - start) =~= chars@.subrange(start as int, end as int));
                assert(word.skip(end - start) =~= chars@.skip(end as int));
                assert(texts_of(found@) =~= before + seq![
                    chars@.subrange(start as int, end as int),
                ]);
            }
        }
        pos = end;
    }
    proof {
        assert(chars@.skip(pos as int) =~= Seq::<char>::empty());
    }
    found
}

/// The command that a keyword names, if it is one of the two that are read.
/// Keywords are taken as written: `copy` is no command.
pub open spec fn command_of(keyword: Seq<char>) -> Option<Command> {
    if keyword == "COPY"@ {
        Some(Command::Copy)
    } else if keyword == "ADD"@ {
        Some(Command::Add)
    } else {
        None
    }
}

/// The source patterns among the arguments of a `COPY` or `ADD`.
///
/// The last argument is the destination and no source. A first source that
/// begins with `--chown=` is a flag and no source. If the first source then
/// begins with `--from=`, the command copies from another build stage and
/// has no source in the build context at all.
pub open spec fn sources_of(arguments: Seq<Seq<char>>) -> Seq<Seq<char>> {
    let sources = arguments.drop_last();
    let sources = if sources.len() > 0 && has_prefix(sources[0], "--chown="@) {
        sources.drop_first()
    } else {
        sources
    };
    if sources.len() > 0 && has_prefix(sources[0], "--from="@) {
        Seq::empty()
    } else {
        sources
    }
}

/// The source patterns of one logical command line.
///
/// A line whose first token is neither `COPY` nor `ADD`, or one without any
/// token, has none. A `COPY` or `ADD` without arguments is an error.
pub open spec fn line_patterns(line: Seq<char>) -> Result<Seq<Seq<char>>, ParseError> {
    let words = tokens(line);
    if words.len() == 0 {
        Ok(Seq::empty())
    } else {
        match command_of(words[0]) {
            None => Ok(Seq::empty()),
            Some(command) => if words.len() == 1 {
                Err(ParseError::NoArguments(command))
            } else {
                Ok(sources_of(words.drop_first()))
            },
        }
    }
}

/// The source patterns of a list of logical command lines, in the order of
/// the lines; the error of the first line that has one.
pub open spec fn lines_patterns(lines: Seq<Seq<char>>) -> Result<Seq<Seq<char>>, ParseError>
    decreases lines.len(),
{
    if lines.len() == 0 {
        Ok(Seq::empty())
    } else {
        match line_patterns(lines[0]) {
            Err(error) => Err(error),
            Ok(first) => match lines_patterns(lines.drop_first()) {
                Err(error) => Err(error),
                Ok(rest) => Ok(first + rest),
            },
        }
    }
}

/// The source patterns of an instruction file.
pub open spec fn dockerfile_patterns(content: Seq<char>) -> Result<Seq<Seq<char>>, ParseError> {
    match coalesced_lines(content) {
        Err(error) => Err(error),
        Ok(lines) => lines_patterns(lines),
    }
}

/// The command that the token names.
fn read_command(keyword: &Vec<char>) -> (command: Option<Command>)
    ensures
        command == command_of(keyword@),
{
    if equals_str(keyword, "COPY") {
        Some(Command::Copy)
    } else if equals_str(keyword, "ADD") {
        Some(Command::Add)
    } else {
        None
    }
}

/// The paths outside the image that one logical command line names, as the
/// patterns it gives for them.
///
/// The patterns are those of the sources of a `COPY` or `ADD`, in the order
/// of the line. They are to be expanded against the build context; one that
/// matches nothing there names no path. Any other line names none.
pub fn get_external_paths_from_dockerfile_line(line: &str) -> (res: Result<
    Vec<String>,
    ParseError,
>)
    ensures
        match line_patterns(line@) {
            Ok(patterns) => res is Ok && strings_of(res->Ok_0@) == patterns,
            Err(error) => res == Err::<Vec<String>, ParseError>(error),
        },
{
    let chars = chars_of(line);
    let words = read_tokens(&chars);
    let mut patterns: Vec<String> = Vec::new();
    proof {
        assert(strings_of(patterns@) =~= Seq::<Seq<char>>::empty());
    }
    if words.len() == 0 {
        return Ok(patterns);
    }
    let ghost all = texts_of(words@);
    let command = match read_command(&words[0]) {
        Some(command) => command,
        None => {
            return Ok(patterns);
        },
    };
    if words.len() == 1 {
        return Err(ParseError::NoArguments(command));
    }
    let ghost arguments = all.drop_first();
    let last: usize = words.len() - 1;
    let mut first: usize = 1;
    proof {
        assert(arguments.drop_last() =~= all.subrange(1, last as int));
    }
    if first < last && starts_with(&words[first], "--chown=") {
        first = 2;
        proof {
            assert(all.subrange(1, last as int).drop_first() =~= all.subrange(2, last as int));
        }
    }
    if first < last && starts_with(&words[first], "--from=") {
        return Ok(patterns);
    }
    let ghost sources = all.subrange(first as int, last as int);
    assert(sources_of(arguments) == sources);
    let mut i: usize = first;
    while i < last
        invariant
            first <= i <= last < words.len(),
            all == texts_of(words@),
            strings_of(patterns@) == all.subrange(first as int, i as int),
        decreases last - i,
    {
        let ghost before = strings_of(patterns@);
        patterns.push(string_of(&words[i], 0, words[i].len()));
        proof {
            assert(words@[i as int]@.subrange(0, words@[i as int]@.len() as int)
                =~= words@[i as int]@);
            assert(strings_of(patterns@) =~= before.push(all[i as int]));
            assert(all.subrange(first as int, i + 1) =~= all.subrange(
                first as int,
                i as int,
            ).push(all[i as int]));
        }
        i += 1;
    }
    Ok(patterns)
}

/// `lines_patterns`, with the patterns of earlier lines in front.
spec fn patterns_after(found: Seq<Seq<char>>, lines: Seq<Seq<char>>) -> Result<
    Seq<Seq<char>>,
    ParseError,
> {
    match lines_patterns(lines) {
        Ok(rest) => Ok(found + rest),
        Err(error) => Err(error),
    }
}

/// The paths outside the image that an instruction file names, as the
/// patterns it gives for them: those of each logical command line, in the
/// order of the file.
pub fn get_paths_from_dockerfile(content: &str) -> (res: Result<Vec<String>, ParseError>)
    ensures
        match dockerfile_patterns(content@) {
            Ok(patterns) => res is Ok && strings_of(res->Ok_0@) == patterns,
            Err(error) => res == Err::<Vec<String>, ParseError>(error),
        },
{
    let lines = match get_coalesced_lines_from_dockerfile_content(content) {
        Ok(lines) => lines,
        Err(error) => {
            return Err(error);
        },
    };
    let ghost all = strings_of(lines@);
    let mut found: Vec<String> = Vec::new();
    let mut i: usize = 0;
    proof {
        assert(all.skip(0) =~= all);
        match lines_patterns(all) {
            Ok(rest) => {
                assert(strings_of(found@) + rest =~= rest);
            },
            Err(_) => {},
        }
    }
    while i < lines.len()
        invariant
            i <= lines.len(),
            all == strings_of(lines@),
            coalesced_lines(content@) == Ok::<Seq<Seq<char>>, ParseError>(all),
            lines_patterns(all) == patterns_after(strings_of(found@), all.skip(i as int)),
        decreases lines.len() - i,
    {
        let ghost before = strings_of(found@);
        let ghost rest = all.skip(i as int);
        proof {
            assert(rest[0] == lines@[i as int]@);
            assert(rest.drop_first() =~= all.skip(i + 1));
        }
        let mut patterns = match get_external_paths_from_dockerfile_line(lines[i].as_str()) {
            Ok(patterns) => patterns,
            Err(error) => {
                proof {
                    assert(line_patterns(rest[0]) == Err::<Seq<Seq<char>>, ParseError>(error));
                    assert(lines_patterns(rest) == Err::<Seq<Seq<char>>, ParseError>(error));
                }
                return Err(error);
            },
        };
        let ghost added = strings_of(patterns@);
        found.append(&mut patterns);
        proof {
            assert(strings_of(found@) =~= before + added);
            match lines_patterns(rest.drop_first()) {
                Ok(tail) => {
                    assert(before + (added + tail) =~= (before + added) + tail);
                },
                Err(_) => {},
            }
        }
        i += 1;
    }
    proof {
        assert(all.skip(i as int) =~= Seq::<Seq<char>>::empty());
        assert(strings_of(found@) + Seq::<Seq<char>>::empty() =~= strings_of(found@));
    }
    Ok(found)
}

} // verus!
