//! From the text of an instruction file to its logical command lines.

use crate::error::ParseError;
use crate::text::{
    append_range, chars_of, is_whitespace, lemma_trim_ends, lemma_trim_idempotent,
    lemma_trim_keeps_first, string_of, strings_of, texts_of, trim, trim_bounds,
};
use vstd::prelude::*;

verus! {

/// How many characters stand before the first line feed of `text`, or in
/// all of `text` if it holds none.
pub open spec fn line_len(text: Seq<char>) -> nat
    decreases text.len(),
{
    if text.len() == 0 || text[0] == '\n' {
        0
    } else {
        1 + line_len(text.drop_first())
    }
}

/// What is left of a text after its first line and the line feed that
/// ends it.
pub open spec fn after_first_line(text: Seq<char>) -> Seq<char> {
    if line_len(text) < text.len() {
        text.skip(line_len(text) as int + 1)
    } else {
        Seq::empty()
    }
}

/// The physical lines of a text: what stands between its line feeds. A
/// line feed at the very end closes the last line and opens no new one. A
/// carriage return before a line feed stays with its line, where trimming
/// takes it off.
pub open spec fn physical_lines(text: Seq<char>) -> Seq<Seq<char>>
    decreases text.len(),
{
    if text.len() == 0 {
        Seq::empty()
    } else {
        seq![text.take(line_len(text) as int)] + physical_lines(after_first_line(text))
    }
}

/// A line that holds a comment: it begins with `#`.
pub open spec fn is_comment(line: Seq<char>) -> bool {
    line.len() > 0 && line[0] == '#'
}

/// A line that asks to be continued on the next: it ends with a backslash.
pub open spec fn is_continued(line: Seq<char>) -> bool {
    line.len() > 0 && line.last() == '\\'
}

/// Each of the lines, trimmed.
pub open spec fn trimmed(lines: Seq<Seq<char>>) -> Seq<Seq<char>> {
    lines.map_values(|line: Seq<char>| trim(line))
}

/// The lines that hold no comment.
pub open spec fn without_comments(lines: Seq<Seq<char>>) -> Seq<Seq<char>> {
    lines.filter(|line: Seq<char>| !is_comment(line))
}

/// The lines that are not empty.
pub open spec fn without_empty(lines: Seq<Seq<char>>) -> Seq<Seq<char>> {
    lines.filter(|line: Seq<char>| line.len() > 0)
}

/// The lines of a text that count: its physical lines, trimmed, without
/// those that hold a comment.
pub open spec fn command_lines(text: Seq<char>) -> Seq<Seq<char>> {
    without_comments(trimmed(physical_lines(text)))
}

/// The lines with each continued line joined to what follows it.
///
/// `pending` is what earlier continued lines have left. A continued line
/// gives it everything but its backslash; any other line closes it. What is
/// still pending when the lines run out is an error, unless it is empty.
pub open spec fn joined(lines: Seq<Seq<char>>, pending: Seq<char>) -> Result<
    Seq<Seq<char>>,
    ParseError,
>
    decreases lines.len(),
{
    if lines.len() == 0 {
        if pending.len() == 0 {
            Ok(Seq::empty())
        } else {
            Err(ParseError::TrailingContinuation)
        }
    } else if is_continued(lines[0]) {
        joined(lines.drop_first(), pending + lines[0].drop_last())
    } else {
        match joined(lines.drop_first(), Seq::empty()) {
            Ok(rest) => Ok(seq![pending + lines[0]] + rest),
            Err(error) => Err(error),
        }
    }
}

/// The logical command lines of an instruction file: its command lines
/// joined across continuations, each trimmed once more, without the empty
/// ones.
pub open spec fn coalesced_lines(content: Seq<char>) -> Result<Seq<Seq<char>>, ParseError> {
    match joined(command_lines(content), Seq::empty()) {
        Ok(lines) => Ok(without_empty(trimmed(lines))),
        Err(error) => Err(error),
    }
}

/// Where a line ends: nothing before `n` is a line feed, and at `n` stands a
/// line feed or the end of the text.
proof fn lemma_line_len_at(text: Seq<char>, n: int)
    requires
        0 <= n <= text.len(),
        forall|k: int| 0 <= k < n ==> #[trigger] text[k] != '\n',
        n == text.len() || text[n] == '\n',
    ensures
        line_len(text) == n,
    decreases n,
{
    if n > 0 {
        let rest = text.drop_first();
        assert forall|k: int| 0 <= k < n - 1 implies #[trigger] rest[k] != '\n' by {
            assert(rest[k] == text[k + 1]);
        }
        lemma_line_len_at(rest, n - 1);
    }
}

/// A text without characters has no command lines.
proof fn lemma_command_lines_of_nothing()
    ensures
        command_lines(Seq::empty()) == Seq::<Seq<char>>::empty(),
{
    reveal_with_fuel(Seq::filter, 1);
    assert(trimmed(physical_lines(Seq::empty())) =~= Seq::<Seq<char>>::empty());
}

/// The command lines of a text, its first line told apart from the rest.
proof fn lemma_command_lines_unfold(text: Seq<char>)
    requires
        text.len() > 0,
    ensures
        line_len(text) <= text.len(),
        command_lines(text) == (if is_comment(trim(text.take(line_len(text) as int))) {
            Seq::<Seq<char>>::empty()
        } else {
            seq![trim(text.take(line_len(text) as int))]
        }) + command_lines(after_first_line(text)),
{
    lemma_line_len_bound(text);
    let first = text.take(line_len(text) as int);
    let rest = physical_lines(after_first_line(text));
    assert(trimmed(seq![first] + rest) =~= seq![trim(first)] + trimmed(rest));
    trimmed(rest).lemma_filter_prepend(trim(first), |line: Seq<char>| !is_comment(line));
}

proof fn lemma_line_len_bound(text: Seq<char>)
    ensures
        line_len(text) <= text.len(),
    decreases text.len(),
{
    if text.len() > 0 && text[0] != '\n' {
        lemma_line_len_bound(text.drop_first());
    }
}

/// The command lines of a text, as vectors of characters.
fn read_command_lines(chars: &Vec<char>) -> (lines: Vec<Vec<char>>)
    ensures
        texts_of(lines@) == command_lines(chars@),
{
    let mut lines: Vec<Vec<char>> = Vec::new();
    let mut pos: usize = 0;
    proof {
        assert(chars@.skip(0) =~= chars@);
        assert(texts_of(lines@) =~= Seq::<Seq<char>>::empty());
    }
    while pos < chars.len()
        invariant
            pos <= chars.len(),
            command_lines(chars@) == texts_of(lines@) + command_lines(chars@.skip(pos as int)),
        decreases chars.len() - pos,
    {
        let ghost rest = chars@.skip(pos as int);
        let ghost before = texts_of(lines@);
        let mut end: usize = pos;
        while end < chars.len() && chars[end] != '\n'
            invariant
                pos <= end <= chars.len(),
                forall|k: int| pos <= k < end ==> #[trigger] chars@[k] != '\n',
            decreases chars.len() - end,
        {
            end += 1;
        }
        let (from, to) = trim_bounds(chars, pos, end);
        if !(from < to && chars[from] == '#') {
            let mut line: Vec<char> = Vec::new();
            append_range(&mut line, chars, from, to);
            lines.push(line);
            proof {
                assert(texts_of(lines@) =~= before + seq![chars@.subrange(from as int, to as int)]);
            }
        }
        let next: usize = if end < chars.len() {
            end + 1
        } else {
            end
        };
        proof {
            assert forall|k: int| 0 <= k < end - pos implies #[trigger] rest[k] != '\n' by {
                assert(rest[k] == chars@[pos + k]);
            }
            lemma_line_len_at(rest, end - pos);
            lemma_command_lines_unfold(rest);
            assert(rest.take(end - pos) =~= chars@.subrange(pos as int, end as int));
            assert(after_first_line(rest) =~= chars@.skip(next as int));
        }
        pos = next;
    }
    proof {
        assert(chars@.skip(pos as int) =~= Seq::<char>::empty());
        lemma_command_lines_of_nothing();
    }
    lines
}

/// `joined`, with the lines that are already closed in front.
spec fn joined_after(done: Seq<Seq<char>>, lines: Seq<Seq<char>>, pending: Seq<char>) -> Result<
    Seq<Seq<char>>,
    ParseError,
> {
    match joined(lines, pending) {
        Ok(rest) => Ok(done + rest),
        Err(error) => Err(error),
    }
}

/// Joins each continued line to what follows it.
fn join_continuations(lines: &Vec<Vec<char>>) -> (res: Result<Vec<Vec<char>>, ParseError>)
    ensures
        match joined(texts_of(lines@), Seq::empty()) {
            Ok(all) => res is Ok && texts_of(res->Ok_0@) == all,
            Err(error) => res == Err::<Vec<Vec<char>>, ParseError>(error),
        },
{
    let ghost all = texts_of(lines@);
    let mut done: Vec<Vec<char>> = Vec::new();
    let mut pending: Vec<char> = Vec::new();
    let mut i: usize = 0;
    proof {
        assert(all.skip(0) =~= all);
        assert(texts_of(done@) =~= Seq::<Seq<char>>::empty());
        assert(joined_after(texts_of(done@), all, pending@) == joined(all, Seq::empty())) by {
            match joined(all, Seq::empty()) {
                Ok(rest) => {
                    assert(Seq::<Seq<char>>::empty() + rest =~= rest);
                },
                Err(_) => {},
            }
        }
    }
    while i < lines.len()
        invariant
            i <= lines.len(),
            all == texts_of(lines@),
            joined(all, Seq::empty()) == joined_after(
                texts_of(done@),
                all.skip(i as int),
                pending@,
            ),
        decreases lines.len() - i,
    {
        let line = &lines[i];
        let ghost rest = all.skip(i as int);
        let ghost closed = texts_of(done@);
        proof {
            assert(rest[0] == line@);
            assert(rest.drop_first() =~= all.skip(i + 1));
        }
        let n = line.len();
        if n > 0 && line[n - 1] == '\\' {
            append_range(&mut pending, line, 0, n - 1);
            proof {
                assert(line@.subrange(0, n - 1) =~= line@.drop_last());
            }
        } else {
            append_range(&mut pending, line, 0, n);
            proof {
                assert(line@.subrange(0, n as int) =~= line@);
            }
            let ghost whole = pending@;
            done.push(pending);
            pending = Vec::new();
            proof {
                assert(texts_of(done@) =~= closed.push(whole));
                match joined(rest.drop_first(), Seq::empty()) {
                    Ok(tail) => {
                        assert(closed + (seq![whole] + tail) =~= closed.push(whole) + tail);
                    },
                    Err(_) => {},
                }
            }
        }
        i += 1;
    }
    proof {
        assert(all.skip(i as int) =~= Seq::<Seq<char>>::empty());
        assert(texts_of(done@) + Seq::<Seq<char>>::empty() =~= texts_of(done@));
    }
    if pending.len() > 0 {
        Err(ParseError::TrailingContinuation)
    } else {
        Ok(done)
    }
}

/// Trims each line and keeps those that are not empty, as strings.
fn trimmed_strings(lines: &Vec<Vec<char>>) -> (kept: Vec<String>)
    ensures
        strings_of(kept@) == without_empty(trimmed(texts_of(lines@))),
{
    let ghost all = texts_of(lines@);
    let mut kept: Vec<String> = Vec::new();
    let mut i: usize = 0;
    proof {
        assert(trimmed(all.take(0)) =~= Seq::<Seq<char>>::empty());
        assert(strings_of(kept@) =~= without_empty(trimmed(all.take(0)))) by {
            reveal_with_fuel(Seq::filter, 1);
        }
    }
    while i < lines.len()
        invariant
            i <= lines.len(),
            all == texts_of(lines@),
            strings_of(kept@) == without_empty(trimmed(all.take(i as int))),
        decreases lines.len() - i,
    {
        let line = &lines[i];
        let (from, to) = trim_bounds(line, 0, line.len());
        let ghost before = strings_of(kept@);
        proof {
            let seen = trimmed(all.take(i as int));
            let text = trim(line@);
            assert(line@.subrange(0, line.len() as int) =~= line@);
            assert(trimmed(all.take(i + 1)) =~= seen.push(text));
            assert(seen.push(text).drop_last() =~= seen);
            reveal_with_fuel(Seq::filter, 1);
            assert(without_empty(seen.push(text)) == if text.len() > 0 {
                without_empty(seen).push(text)
            } else {
                without_empty(seen)
            });
        }
        if from < to {
            kept.push(string_of(line, from, to));
            proof {
                assert(strings_of(kept@) =~= before.push(trim(line@)));
            }
        }
        i += 1;
    }
    proof {
        assert(all.take(i as int) =~= all);
    }
    kept
}

/// The logical command lines of an instruction file.
///
/// The text is split into lines, each line is trimmed, and lines that begin
/// with `#` are dropped. A line that ends with a backslash is joined,
/// without the backslash, to the line after it. The joined lines are trimmed
/// again and the empty ones dropped. A file whose last line still asks for a
/// continuation is refused.
pub fn get_coalesced_lines_from_dockerfile_content(content: &str) -> (res: Result<
    Vec<String>,
    ParseError,
>)
    ensures
        match coalesced_lines(content@) {
            Ok(lines) => res is Ok && strings_of(res->Ok_0@) == lines,
            Err(error) => res == Err::<Vec<String>, ParseError>(error),
        },
        res matches Ok(lines) ==> forall|i: int|
            0 <= i < lines@.len() ==> {
                let line = #[trigger] lines@[i]@;
                line.len() > 0 && trim(line) == line && !is_comment(line)
            },
{
    let chars = chars_of(content);
    let lines = read_command_lines(&chars);
    match join_continuations(&lines) {
        Ok(joined_lines) => {
            let kept = trimmed_strings(&joined_lines);
            proof {
                lemma_coalesced_lines_are_commands(content@);
                assert forall|i: int| 0 <= i < kept@.len() implies {
                    let line = #[trigger] kept@[i]@;
                    line.len() > 0 && trim(line) == line && !is_comment(line)
                } by {
                    let lines = coalesced_lines(content@)->Ok_0;
                    assert(lines == strings_of(kept@));
                    assert(lines[i] == kept@[i]@);
                }
            }
            Ok(kept)
        },
        Err(error) => Err(error),
    }
}

/// A text that is empty, or begins with a character that is neither white
/// space nor `#`.
spec fn is_fresh(text: Seq<char>) -> bool {
    text.len() == 0 || (!is_whitespace(text[0]) && text[0] != '#')
}

proof fn lemma_command_lines_fresh(text: Seq<char>)
    ensures
        forall|i: int|
            0 <= i < command_lines(text).len() ==> is_fresh(#[trigger] command_lines(text)[i]),
    decreases text.len(),
{
    if text.len() == 0 {
        assert(text =~= Seq::<char>::empty());
        lemma_command_lines_of_nothing();
    } else {
        lemma_command_lines_unfold(text);
        lemma_trim_ends(text.take(line_len(text) as int));
        lemma_command_lines_fresh(after_first_line(text));
    }
}

proof fn lemma_joined_fresh(lines: Seq<Seq<char>>, pending: Seq<char>)
    requires
        forall|i: int| 0 <= i < lines.len() ==> is_fresh(#[trigger] lines[i]),
        is_fresh(pending),
    ensures
        joined(lines, pending) matches Ok(done) ==> forall|i: int|
            0 <= i < done.len() ==> is_fresh(#[trigger] done[i]),
    decreases lines.len(),
{
    if lines.len() > 0 {
        let rest = lines.drop_first();
        assert forall|i: int| 0 <= i < rest.len() implies is_fresh(#[trigger] rest[i]) by {
            assert(rest[i] == lines[i + 1]);
        }
        assert(is_fresh(lines[0]));
        if is_continued(lines[0]) {
            lemma_joined_fresh(rest, pending + lines[0].drop_last());
        } else {
            lemma_joined_fresh(rest, Seq::empty());
        }
    }
}

/// Every logical command line is a command: it is not empty, has no white
/// space at either end, and does not begin with `#`.
pub proof fn lemma_coalesced_lines_are_commands(content: Seq<char>)
    ensures
        coalesced_lines(content) matches Ok(lines) ==> forall|i: int|
            0 <= i < lines.len() ==> {
                let line = #[trigger] lines[i];
                line.len() > 0 && trim(line) == line && !is_comment(line)
            },
{
    lemma_command_lines_fresh(content);
    lemma_joined_fresh(command_lines(content), Seq::empty());
    if let Ok(whole) = joined(command_lines(content), Seq::empty()) {
        let lines = without_empty(trimmed(whole));
        assert forall|i: int| 0 <= i < lines.len() implies {
            let line = #[trigger] lines[i];
            line.len() > 0 && trim(line) == line && !is_comment(line)
        } by {
            let line = lines[i];
            trimmed(whole).lemma_filter_pred(|l: Seq<char>| l.len() > 0, i);
            assert(lines.contains(line));
            trimmed(whole).lemma_filter_contains_rev(|l: Seq<char>| l.len() > 0, line);
            let j = choose|j: int| 0 <= j < trimmed(whole).len() && trimmed(whole)[j] == line;
            assert(line == trim(whole[j]));
            assert(is_fresh(whole[j]));
            lemma_trim_idempotent(whole[j]);
            lemma_trim_ends(whole[j]);
            lemma_trim_keeps_first(whole[j]);
        }
    }
}

} // verus!
