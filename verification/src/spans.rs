//! Spans of a file's text that the editor selects and grows a selection
//! through: the word under the cursor, the brackets around a span, the line,
//! and the whole file. The text is the file as one sequence of characters,
//! lines separated by newlines, and a span is a start and an end offset.

use vstd::prelude::*;
use crate::text::{alphanumeric_char, is_alphanumeric};

verus! {

/// Whether a character belongs to a word: a letter, a digit or an underscore.
pub open spec fn is_word(c: char) -> bool {
    alphanumeric_char(c) || c == '_'
}

/// Where the run of word characters that ends at `i` begins.
pub open spec fn word_start(text: Seq<char>, i: int) -> int
    decreases i,
{
    if 0 < i <= text.len() && is_word(text[i - 1]) {
        word_start(text, i - 1)
    } else {
        i
    }
}

/// Where the run of word characters that begins at `i` ends.
pub open spec fn word_end(text: Seq<char>, i: int) -> int
    decreases text.len() - i,
{
    if 0 <= i < text.len() && is_word(text[i]) {
        word_end(text, i + 1)
    } else {
        i
    }
}

/// The word around an offset, one past the end of the text meaning its end:
/// the run of word characters on either side, if there is any.
pub open spec fn word_at(text: Seq<char>, at: int) -> Option<(int, int)> {
    let a = if at < text.len() { at } else { text.len() as int };
    let s = word_start(text, a);
    let e = word_end(text, a);
    if s == e { None } else { Some((s, e)) }
}

/// Where the line holding offset `i` begins.
pub open spec fn line_start(text: Seq<char>, i: int) -> int
    decreases i,
{
    if 0 < i <= text.len() && text[i - 1] != '\n' {
        line_start(text, i - 1)
    } else {
        i
    }
}

/// Where the line holding offset `i` ends, before its newline.
pub open spec fn line_end(text: Seq<char>, i: int) -> int
    decreases text.len() - i,
{
    if 0 <= i < text.len() && text[i] != '\n' {
        line_end(text, i + 1)
    } else {
        i
    }
}

pub open spec fn is_opening(c: char) -> bool {
    c == '(' || c == '[' || c == '{'
}

pub open spec fn is_closing(c: char) -> bool {
    c == ')' || c == ']' || c == '}'
}

/// The bracket that closes an opening one.
pub open spec fn partner(c: char) -> char {
    if c == '(' {
        ')'
    } else if c == '[' {
        ']'
    } else if c == '{' {
        '}'
    } else {
        c
    }
}

/// How many more brackets close than open between two offsets.
pub open spec fn unclosed_before(text: Seq<char>, a: int, b: int) -> int
    decreases b - a,
{
    if a >= b {
        0
    } else {
        (if is_closing(text[a]) { 1int } else if is_opening(text[a]) { -1int } else { 0int }) + unclosed_before(
            text,
            a + 1,
            b,
        )
    }
}

/// The last opening bracket before offset `i` that nothing between it and
/// `start` closes.
pub open spec fn open_before(text: Seq<char>, i: int, start: int) -> Option<int>
    decreases i,
{
    if i <= 0 {
        None
    } else if is_opening(text[i - 1]) && unclosed_before(text, i, start) == 0 {
        Some(i - 1)
    } else {
        open_before(text, i - 1, start)
    }
}

/// How many more of one bracket than of its partner stand between two offsets.
pub open spec fn unmatched_after(text: Seq<char>, open: char, close: char, a: int, b: int) -> int
    decreases b - a,
{
    if b <= a {
        0
    } else {
        unmatched_after(text, open, close, a, b - 1) + (if text[b - 1] == open {
            1int
        } else if text[b - 1] == close {
            -1int
        } else {
            0int
        })
    }
}

/// The first closing bracket at or after offset `k` that closes what was
/// open at offset `end`.
pub open spec fn close_after(text: Seq<char>, open: char, close: char, k: int, end: int) -> Option<int>
    decreases text.len() - k,
{
    if k >= text.len() || k < 0 {
        None
    } else if text[k] == close && unmatched_after(text, open, close, end, k) == 0 {
        Some(k)
    } else {
        close_after(text, open, close, k + 1, end)
    }
}

/// The innermost bracket pair around a span: the nearest opening bracket
/// before the start that is still open there, and the bracket that closes it
/// after the end.
pub open spec fn enclosing(text: Seq<char>, start: int, end: int) -> Option<(int, int)> {
    match open_before(text, start, start) {
        Some(o) => match close_after(text, text[o], partner(text[o]), end, end) {
            Some(c) => Some((o, c)),
            None => None,
        },
        None => None,
    }
}

/// The next selection outward from a span: the word under a bare cursor,
/// then the inside of the brackets around it, then the brackets themselves,
/// then the line, then the whole text; nothing once the span is the whole
/// text.
pub open spec fn wider(text: Seq<char>, start: int, end: int) -> Option<(int, int)> {
    if start == end && word_at(text, start) is Some && word_at(text, start) != Some((start, end)) {
        word_at(text, start)
    } else if enclosing(text, start, end) is Some {
        let (o, c) = enclosing(text, start, end)->0;
        if (o + 1, c) != (start, end) { Some((o + 1, c)) } else { Some((o, c + 1)) }
    } else if (line_start(text, start), line_end(text, end)) != (start, end) {
        Some((line_start(text, start), line_end(text, end)))
    } else if (start, end) != (0int, text.len() as int) {
        Some((0int, text.len() as int))
    } else {
        None
    }
}

/// Whether a character belongs to a word.
pub fn is_word_char(c: char) -> (r: bool)
    ensures
        r == is_word(c),
{
    is_alphanumeric(c) || c == '_'
}

/// The word around an offset, if there is one.
pub fn word_span(text: &[char], at: usize) -> (r: Option<(usize, usize)>)
    ensures
        r matches Some(p) ==> word_at(text@, at as int) == Some((p.0 as int, p.1 as int)),
        r is None ==> word_at(text@, at as int) is None,
{
    let n = text.len();
    let a = if at < n { at } else { n };
    let mut start = a;
    while start > 0 && is_word_char(text[start - 1])
        invariant
            start <= a <= n == text@.len(),
            word_start(text@, start as int) == word_start(text@, a as int),
        decreases start,
    {
        start = start - 1;
    }
    let mut end = a;
    while end < n && is_word_char(text[end])
        invariant
            a <= end <= n == text@.len(),
            word_end(text@, end as int) == word_end(text@, a as int),
        decreases n - end,
    {
        end = end + 1;
    }
    if start == end {
        return None;
    }
    Some((start, end))
}

/// The line around a span, without its newlines.
pub fn line_span(text: &[char], start: usize, end: usize) -> (r: (usize, usize))
    requires
        start <= text@.len(),
    ensures
        r.0 == line_start(text@, start as int),
        r.1 == line_end(text@, end as int),
{
    let n = text.len();
    let mut line_start_at = start;
    while line_start_at > 0 && text[line_start_at - 1] != '\n'
        invariant
            line_start_at <= start <= n == text@.len(),
            line_start(text@, line_start_at as int) == line_start(text@, start as int),
        decreases line_start_at,
    {
        line_start_at = line_start_at - 1;
    }
    let mut line_end_at = end;
    while line_end_at < n && text[line_end_at] != '\n'
        invariant
            end <= line_end_at,
            n == text@.len(),
            line_end(text@, line_end_at as int) == line_end(text@, end as int),
        decreases n - line_end_at,
    {
        line_end_at = line_end_at + 1;
    }
    (line_start_at, line_end_at)
}

fn partner_of(c: char) -> (r: char)
    ensures
        r == partner(c),
{
    if c == '(' {
        ')'
    } else if c == '[' {
        ']'
    } else if c == '{' {
        '}'
    } else {
        c
    }
}

/// The nearest opening bracket before `start` that is still open there.
fn open_bracket_before(text: &[char], start: usize) -> (r: Option<usize>)
    requires
        start <= text@.len(),
    ensures
        r matches Some(o) ==> open_before(text@, start as int, start as int) == Some(o as int) && o < start
            && is_opening(text@[o as int]),
        r is None ==> open_before(text@, start as int, start as int) is None,
{
    let mut depth: usize = 0;
    let mut i = start;
    while i > 0
        invariant
            i <= start <= text@.len(),
            depth == unclosed_before(text@, i as int, start as int),
            depth <= start - i,
            open_before(text@, i as int, start as int) == open_before(text@, start as int, start as int),
        decreases i,
    {
        let c = text[i - 1];
        if c == ')' || c == ']' || c == '}' {
            depth = depth + 1;
        } else if c == '(' || c == '[' || c == '{' {
            if depth == 0 {
                return Some(i - 1);
            }
            depth = depth - 1;
        }
        i = i - 1;
    }
    None
}

/// The innermost bracket pair that contains the whole span, found by
/// counting depth outward from each end.
pub fn enclosing_bracket_span(text: &[char], start: usize, end: usize) -> (r: Option<(usize, usize)>)
    requires
        start <= text@.len(),
    ensures
        r matches Some(p) ==> enclosing(text@, start as int, end as int) == Some((p.0 as int, p.1 as int)) && p.0
            < start && p.1 < text@.len(),
        r is None ==> enclosing(text@, start as int, end as int) is None,
{
    let n = text.len();
    let o = match open_bracket_before(text, start) {
        Some(o) => o,
        None => {
            return None;
        },
    };
    let opener = text[o];
    let wanted = partner_of(opener);
    let mut depth: usize = 0;
    let mut k = end;
    while k < n
        invariant
            end <= k,
            n == text@.len(),
            o < start <= n,
            opener == text@[o as int],
            is_opening(opener),
            wanted == partner(opener),
            open_before(text@, start as int, start as int) == Some(o as int),
            depth == unmatched_after(text@, opener, wanted, end as int, k as int),
            depth <= k - end,
            close_after(text@, opener, wanted, k as int, end as int) == close_after(
                text@,
                opener,
                wanted,
                end as int,
                end as int,
            ),
        decreases n - k,
    {
        let c = text[k];
        if c == opener {
            depth = depth + 1;
        } else if c == wanted {
            if depth == 0 {
                return Some((o, k));
            }
            depth = depth - 1;
        }
        k = k + 1;
    }
    None
}

/// The next selection outward from the span from `start` to `end`: the word
/// under a bare cursor, then whatever brackets enclose the span, then the
/// whole line, then the whole text. Nothing once the span is the whole text.
pub fn wider_span(text: &[char], start: usize, end: usize) -> (r: Option<(usize, usize)>)
    requires
        start <= text@.len(),
    ensures
        r matches Some(p) ==> wider(text@, start as int, end as int) == Some((p.0 as int, p.1 as int)),
        r is None ==> wider(text@, start as int, end as int) is None,
{
    let n = text.len();
    if start == end {
        match word_span(text, start) {
            Some(word) => {
                if word.0 != start || word.1 != end {
                    return Some(word);
                }
            },
            None => {},
        }
    }
    match enclosing_bracket_span(text, start, end) {
        Some((open, close)) => {
            if open + 1 != start || close != end {
                return Some((open + 1, close));
            }
            return Some((open, close + 1));
        },
        None => {},
    }
    let line = line_span(text, start, end);
    if line.0 != start || line.1 != end {
        return Some(line);
    }
    if start != 0 || end != text.len() {
        return Some((0, text.len()));
    }
    None
}

} // verus!
