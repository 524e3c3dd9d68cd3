//! Characters and pieces of text: white space, trimming, prefixes, and the
//! way between strings and vectors of characters.

use vstd::prelude::*;

verus! {

/// White space as Unicode defines it (the property `White_Space`): what
/// trimming takes off both ends of a line.
pub open spec fn is_whitespace(c: char) -> bool {
    let n = c as u32;
    ||| 0x09 <= n <= 0x0d
    ||| n == 0x20
    ||| n == 0x85
    ||| n == 0xa0
    ||| n == 0x1680
    ||| 0x2000 <= n <= 0x200a
    ||| n == 0x2028
    ||| n == 0x2029
    ||| n == 0x202f
    ||| n == 0x205f
    ||| n == 0x3000
}

/// ASCII white space: space, tab, line feed, form feed and carriage return.
/// Tokens of a command are separated by it.
pub open spec fn is_ascii_whitespace(c: char) -> bool {
    c == ' ' || c == '\t' || c == '\n' || c == '\x0c' || c == '\r'
}

/// `text` without the white space it starts with.
pub open spec fn trim_start(text: Seq<char>) -> Seq<char>
    decreases text.len(),
{
    if text.len() > 0 && is_whitespace(text[0]) {
        trim_start(text.drop_first())
    } else {
        text
    }
}

/// `text` without the white space it ends with.
pub open spec fn trim_end(text: Seq<char>) -> Seq<char>
    decreases text.len(),
{
    if text.len() > 0 && is_whitespace(text.last()) {
        trim_end(text.drop_last())
    } else {
        text
    }
}

/// `text` without the white space at either end.
pub open spec fn trim(text: Seq<char>) -> Seq<char> {
    trim_end(trim_start(text))
}

/// `text` begins with `prefix`.
pub open spec fn has_prefix(text: Seq<char>, prefix: Seq<char>) -> bool {
    prefix.len() <= text.len() && text.take(prefix.len() as int) == prefix
}

/// The character sequences that a vector of strings holds.
pub open spec fn strings_of(items: Seq<String>) -> Seq<Seq<char>> {
    items.map_values(|s: String| s@)
}

/// The character sequences that a vector of character vectors holds.
pub open spec fn texts_of(items: Seq<Vec<char>>) -> Seq<Seq<char>> {
    items.map_values(|s: Vec<char>| s@)
}

/// `String::push`: the string afterwards is the string before with `c` at
/// its end.
pub assume_specification[ String::push ](s: &mut String, c: char)
    ensures
        final(s)@ == old(s)@.push(c),
;

/// Whether `c` is white space as Unicode defines it.
pub fn is_whitespace_char(c: char) -> (yes: bool)
    ensures
        yes == is_whitespace(c),
{
    let n = c as u32;
    (0x09 <= n && n <= 0x0d) || n == 0x20 || n == 0x85 || n == 0xa0 || n == 0x1680 || (0x2000 <= n
        && n <= 0x200a) || n == 0x2028 || n == 0x2029 || n == 0x202f || n == 0x205f || n
        == 0x3000
}

/// Whether `c` is ASCII white space.
pub fn is_ascii_whitespace_char(c: char) -> (yes: bool)
    ensures
        yes == is_ascii_whitespace(c),
{
    c == ' ' || c == '\t' || c == '\n' || c == '\x0c' || c == '\r'
}

/// The characters of a string.
pub fn chars_of(text: &str) -> (chars: Vec<char>)
    ensures
        chars@ == text@,
{
    let mut chars: Vec<char> = Vec::new();
    for c in it: text.chars()
        invariant
            chars@ == it.seq().take(it.index() as int),
    {
        chars.push(c);
    }
    chars
}

/// Puts the characters of `source` from `from` up to `to` at the end of
/// `target`.
pub fn append_range(target: &mut Vec<char>, source: &Vec<char>, from: usize, to: usize)
    requires
        from <= to <= source.len(),
    ensures
        final(target)@ == old(target)@ + source@.subrange(from as int, to as int),
{
    let mut i: usize = from;
    assert(target@ =~= old(target)@ + source@.subrange(from as int, i as int));
    while i < to
        invariant
            from <= i <= to <= source.len(),
            target@ == old(target)@ + source@.subrange(from as int, i as int),
        decreases to - i,
    {
        target.push(source[i]);
        proof {
            assert(source@.subrange(from as int, i + 1) =~= source@.subrange(
                from as int,
                i as int,
            ).push(source@[i as int]));
            assert(target@ =~= old(target)@ + source@.subrange(from as int, i + 1));
        }
        i += 1;
    }
}

/// The string made of the characters from `from` up to `to`.
pub fn string_of(chars: &Vec<char>, from: usize, to: usize) -> (text: String)
    requires
        from <= to <= chars.len(),
    ensures
        text@ == chars@.subrange(from as int, to as int),
{
    let mut text = String::new();
    let mut i: usize = from;
    while i < to
        invariant
            from <= i <= to <= chars.len(),
            text@ == chars@.subrange(from as int, i as int),
        decreases to - i,
    {
        text.push(chars[i]);
        proof {
            assert(chars@.subrange(from as int, i + 1) =~= chars@.subrange(
                from as int,
                i as int,
            ).push(chars@[i as int]));
        }
        i += 1;
    }
    text
}

/// Where the white space at the start of `text` ends: everything before
/// `start` is white space, and what stands at `start`, if anything, is not.
pub proof fn lemma_trim_start_at(text: Seq<char>, start: int)
    requires
        0 <= start <= text.len(),
        forall|k: int| 0 <= k < start ==> is_whitespace(#[trigger] text[k]),
        start == text.len() || !is_whitespace(text[start]),
    ensures
        trim_start(text) == text.skip(start),
    decreases start,
{
    if start == 0 {
        assert(text.skip(0) =~= text);
    } else {
        let rest = text.drop_first();
        assert forall|k: int| 0 <= k < start - 1 implies is_whitespace(#[trigger] rest[k]) by {
            assert(rest[k] == text[k + 1]);
        }
        lemma_trim_start_at(rest, start - 1);
        assert(rest.skip(start - 1) =~= text.skip(start));
    }
}

/// Where the white space at the end of `text` begins: everything from `end`
/// on is white space, and what stands before `end`, if anything, is not.
pub proof fn lemma_trim_end_at(text: Seq<char>, end: int)
    requires
        0 <= end <= text.len(),
        forall|k: int| end <= k < text.len() ==> is_whitespace(#[trigger] text[k]),
        end == 0 || !is_whitespace(text[end - 1]),
    ensures
        trim_end(text) == text.take(end),
    decreases text.len() - end,
{
    if end == text.len() {
        assert(text.take(end) =~= text);
    } else {
        let rest = text.drop_last();
        assert forall|k: int| end <= k < rest.len() implies is_whitespace(#[trigger] rest[k]) by {
            assert(rest[k] == text[k]);
        }
        lemma_trim_end_at(rest, end);
        assert(rest.take(end) =~= text.take(end));
    }
}

/// A trimmed text has no white space at either end.
pub proof fn lemma_trim_ends(text: Seq<char>)
    ensures
        trim(text).len() > 0 ==> !is_whitespace(trim(text)[0]) && !is_whitespace(
            trim(text).last(),
        ),
        trim(text).len() <= text.len(),
{
    lemma_trim_start_ends(text);
    lemma_trim_end_ends(trim_start(text));
}

proof fn lemma_trim_start_ends(text: Seq<char>)
    ensures
        trim_start(text).len() <= text.len(),
        trim_start(text).len() > 0 ==> !is_whitespace(trim_start(text)[0]),
        trim_start(text) == text.skip(text.len() - trim_start(text).len()),
    decreases text.len(),
{
    if text.len() > 0 && is_whitespace(text[0]) {
        let rest = text.drop_first();
        lemma_trim_start_ends(rest);
        assert(rest.skip(rest.len() - trim_start(rest).len()) =~= text.skip(
            text.len() - trim_start(rest).len(),
        ));
    } else {
        assert(text.skip(0) =~= text);
    }
}

proof fn lemma_trim_end_ends(text: Seq<char>)
    ensures
        trim_end(text).len() <= text.len(),
        trim_end(text).len() > 0 ==> !is_whitespace(trim_end(text).last()),
        trim_end(text) == text.take(trim_end(text).len() as int),
    decreases text.len(),
{
    if text.len() > 0 && is_whitespace(text.last()) {
        let rest = text.drop_last();
        lemma_trim_end_ends(rest);
        assert(rest.take(trim_end(rest).len() as int) =~= text.take(trim_end(rest).len() as int));
    } else {
        assert(text.take(text.len() as int) =~= text);
    }
}

/// Trimming a text that does not begin with white space leaves its first
/// character where it is.
pub proof fn lemma_trim_keeps_first(text: Seq<char>)
    requires
        text.len() > 0,
        !is_whitespace(text[0]),
    ensures
        trim(text).len() > 0,
        trim(text)[0] == text[0],
    decreases text.len(),
{
    lemma_trim_end_ends(text);
    if is_whitespace(text.last()) {
        let rest = text.drop_last();
        assert(rest.len() > 0);
        assert(rest[0] == text[0]);
        lemma_trim_keeps_first(rest);
    }
}

/// Trimming what is trimmed changes nothing.
pub proof fn lemma_trim_idempotent(text: Seq<char>)
    ensures
        trim(trim(text)) == trim(text),
{
    lemma_trim_ends(text);
}

/// The part of `chars` between `from` and `to` without the white space at
/// its ends, as bounds within `chars`.
pub fn trim_bounds(chars: &Vec<char>, from: usize, to: usize) -> (bounds: (usize, usize))
    requires
        from <= to <= chars.len(),
    ensures
        from <= bounds.0 <= bounds.1 <= to,
        chars@.subrange(bounds.0 as int, bounds.1 as int) == trim(
            chars@.subrange(from as int, to as int),
        ),
{
    let ghost text = chars@.subrange(from as int, to as int);
    let mut start: usize = from;
    while start < to && is_whitespace_char(chars[start])
        invariant
            from <= start <= to <= chars.len(),
            forall|k: int| from <= k < start ==> is_whitespace(#[trigger] chars@[k]),
        decreases to - start,
    {
        start += 1;
    }
    let mut end: usize = to;
    while end > start && is_whitespace_char(chars[end - 1])
        invariant
            start <= end <= to <= chars.len(),
            forall|k: int| end <= k < to ==> is_whitespace(#[trigger] chars@[k]),
        decreases end,
    {
        end -= 1;
    }
    proof {
        assert forall|k: int| 0 <= k < start - from implies is_whitespace(#[trigger] text[k]) by {
            assert(text[k] == chars@[from + k]);
        }
        lemma_trim_start_at(text, start - from);
        let rest = text.skip(start - from);
        assert(rest =~= chars@.subrange(start as int, to as int));
        assert forall|k: int| end - start <= k < rest.len() implies is_whitespace(
            #[trigger] rest[k],
        ) by {
            assert(rest[k] == chars@[start + k]);
        }
        lemma_trim_end_at(rest, end - start);
        assert(rest.take(end - start) =~= chars@.subrange(start as int, end as int));
    }
    (start, end)
}

/// Whether `chars` begins with `prefix`.
pub fn starts_with(chars: &Vec<char>, prefix: &str) -> (yes: bool)
    ensures
        yes == has_prefix(chars@, prefix@),
{
    let wanted = chars_of(prefix);
    if wanted.len() > chars.len() {
        return false;
    }
    let mut i: usize = 0;
    while i < wanted.len()
        invariant
            i <= wanted.len() <= chars.len(),
            wanted@ == prefix@,
            chars@.take(i as int) == wanted@.take(i as int),
        decreases wanted.len() - i,
    {
        if chars[i] != wanted[i] {
            proof {
                assert(chars@.take(wanted.len() as int)[i as int] != wanted@[i as int]);
            }
            return false;
        }
        proof {
            assert(chars@.take(i + 1) =~= chars@.take(i as int).push(chars@[i as int]));
            assert(wanted@.take(i + 1) =~= wanted@.take(i as int).push(wanted@[i as int]));
        }
        i += 1;
    }
    proof {
        assert(wanted@.take(i as int) =~= wanted@);
    }
    true
}

/// Whether `chars` spells `word`.
pub fn equals_str(chars: &Vec<char>, word: &str) -> (yes: bool)
    ensures
        yes == (chars@ == word@),
{
    let wanted = chars_of(word);
    if wanted.len() != chars.len() {
        return false;
    }
    let mut i: usize = 0;
    while i < wanted.len()
        invariant
            i <= wanted.len() == chars.len(),
            wanted@ == word@,
            chars@.take(i as int) == wanted@.take(i as int),
        decreases wanted.len() - i,
    {
        if chars[i] != wanted[i] {
            return false;
        }
        proof {
            assert(chars@.take(i + 1) =~= chars@.take(i as int).push(chars@[i as int]));
            assert(wanted@.take(i + 1) =~= wanted@.take(i as int).push(wanted@[i as int]));
        }
        i += 1;
    }
    proof {
        assert(wanted@.take(i as int) =~= wanted@);
        assert(chars@.take(i as int) =~= chars@);
    }
    true
}

} // verus!
