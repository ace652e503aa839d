//! Reading a yes or no out of a value, the way int_from reads a number.
//!
//! The words a value may be written in when it means yes are `true`, `yes`,
//! `y`, `on` and `1`, and when it means no `false`, `no`, `n`, `off` and `0`.
//! Case does not matter and surrounding space is ignored. Nothing outside
//! them is guessed at.

use vstd::prelude::*;
use vstd::string::StringExecFns;
use crate::text::{is_white, is_white_char, push_char};

verus! {

/// The text with white space removed from both ends.
pub open spec fn trimmed(s: Seq<char>) -> Seq<char> {
    let start = lead_white(s);
    s.subrange(start as int, (s.len() - trail_white(s.skip(start as int))) as int)
}

/// How many white-space characters open the text.
pub open spec fn lead_white(s: Seq<char>) -> nat
    decreases s.len(),
{
    if s.len() == 0 || !is_white(s[0]) {
        0
    } else {
        1 + lead_white(s.skip(1))
    }
}

/// How many white-space characters close the text.
pub open spec fn trail_white(s: Seq<char>) -> nat
    decreases s.len(),
{
    if s.len() == 0 || !is_white(s.last()) {
        0
    } else {
        1 + trail_white(s.drop_last())
    }
}

/// An ASCII upper-case letter made lower case; every other character as is.
///
/// Against the ASCII words read here this decides the same as Unicode lower
/// casing: no character outside ASCII lower-cases into one of their letters.
pub open spec fn ascii_lower(c: char) -> char {
    if 'A' <= c && c <= 'Z' {
        ((c as u32 + 32) as u8) as char
    } else {
        c
    }
}

/// A word read as yes, as no, or as neither.
pub open spec fn word_meaning(w: Seq<char>) -> Option<bool> {
    if w == "true"@ || w == "yes"@ || w == "y"@ || w == "on"@ || w == "1"@ {
        Some(true)
    } else if w == "false"@ || w == "no"@ || w == "n"@ || w == "off"@ || w == "0"@ {
        Some(false)
    } else {
        None
    }
}

/// What reading written text answers.
pub open spec fn bool_from_text(written: Seq<char>) -> Result<bool, Seq<char>> {
    match word_meaning(trimmed(written).map_values(|c: char| ascii_lower(c))) {
        Some(b) => Ok(b),
        None => Err("bool_from: '"@ + written + "' is neither true nor false. Write one of true, yes, y, on, 1 or false, no, n, off, 0"@),
    }
}

/// The text of a result.
pub open spec fn text_result<T>(r: Result<T, String>) -> Result<T, Seq<char>> {
    match r {
        Ok(v) => Ok(v),
        Err(e) => Err(e@),
    }
}

pub(crate) proof fn lemma_lead_white(s: Seq<char>, k: int)
    requires
        0 <= k <= s.len(),
        forall|j: int| 0 <= j < k ==> is_white(#[trigger] s[j]),
    ensures
        lead_white(s) == k + lead_white(s.skip(k)),
    decreases k,
{
    if k > 0 {
        assert(s.skip(1).skip(k - 1) == s.skip(k));
        assert forall|j: int| 0 <= j < k - 1 implies is_white(#[trigger] s.skip(1)[j]) by {
            assert(s.skip(1)[j] == s[j + 1]);
        }
        lemma_lead_white(s.skip(1), k - 1);
    } else {
        assert(s.skip(0) == s);
    }
}

pub(crate) proof fn lemma_trail_white(s: Seq<char>, k: int)
    requires
        0 <= k <= s.len(),
        forall|j: int| s.len() - k <= j < s.len() ==> is_white(#[trigger] s[j]),
    ensures
        trail_white(s) == k + trail_white(s.take(s.len() - k)),
    decreases k,
{
    if k > 0 {
        let d = s.drop_last();
        assert(d.take(d.len() - (k - 1)) == s.take(s.len() - k));
        assert forall|j: int| d.len() - (k - 1) <= j < d.len() implies is_white(#[trigger] d[j]) by {
            assert(d[j] == s[j]);
        }
        lemma_trail_white(d, k - 1);
    } else {
        assert(s.take(s.len() as int) == s);
    }
}

/// The characters of a text with white space removed from both ends.
pub(crate) fn trim_chars(text: &str) -> (r: Vec<char>)
    ensures
        r@ == trimmed(text@),
{
    let chars = crate::text::chars_of(text);
    let ghost s = text@;
    proof { assert(chars@ == s); }
    let mut start: usize = 0;
    while start < chars.len() && is_white_char(chars[start])
        invariant
            start <= chars@.len(),
            chars@ == s,
            forall|j: int| 0 <= j < start ==> is_white(#[trigger] s[j]),
        decreases chars.len() - start,
    {
        start = start + 1;
    }
    proof {
        lemma_lead_white(s, start as int);
        assert(lead_white(s.skip(start as int)) == 0);
    }
    let ghost rest = s.skip(start as int);
    let mut end: usize = chars.len();
    while end > start && is_white_char(chars[end - 1])
        invariant
            start <= end <= chars@.len(),
            chars@ == s,
            rest == s.skip(start as int),
            forall|j: int| end <= j < s.len() ==> is_white(#[trigger] s[j]),
        decreases end,
    {
        end = end - 1;
    }
    proof {
        let k = s.len() - end;
        assert forall|j: int| rest.len() - k <= j < rest.len() implies is_white(#[trigger] rest[j]) by {
            assert(rest[j] == s[j + start]);
        }
        lemma_trail_white(rest, k);
        if rest.take(rest.len() - k).len() > 0 {
            assert(rest.take(rest.len() - k).last() == s[end - 1]);
        }
        assert(trail_white(rest.take(rest.len() - k)) == 0);
    }
    let mut out: Vec<char> = Vec::new();
    let mut i: usize = start;
    while i < end
        invariant
            start <= i <= end <= s.len(),
            chars@ == s,
            out@ == s.subrange(start as int, i as int),
        decreases end - i,
    {
        out.push(chars[i]);
        i = i + 1;
        proof { assert(out@ =~= s.subrange(start as int, i as int)); }
    }
    out
}

fn trim_lower(text: &str) -> (r: Vec<char>)
    ensures
        r@ == trimmed(text@).map_values(|c: char| ascii_lower(c)),
{
    let chars = trim_chars(text);
    let ghost t = trimmed(text@);
    let mut out: Vec<char> = Vec::new();
    let mut i: usize = 0;
    while i < chars.len()
        invariant
            i <= chars@.len(),
            chars@ == t,
            out@ == t.take(i as int).map_values(|c: char| ascii_lower(c)),
        decreases chars.len() - i,
    {
        let c = chars[i];
        let lower = if 'A' <= c && c <= 'Z' { ((c as u32 + 32) as u8) as char } else { c };
        out.push(lower);
        i = i + 1;
        proof {
            assert(t.take(i as int) == t.take(i - 1).push(c));
            assert(out@ == t.take(i as int).map_values(|c: char| ascii_lower(c)));
        }
    }
    proof { assert(t.take(t.len() as int) =~= t); }
    out
}

fn is_word(w: &Vec<char>, word: &str) -> (r: bool)
    ensures
        r == (w@ == word@),
{
    crate::text::same_chars(w, &crate::text::chars_of(word))
}

/// Reads yes or no out of text as written.
pub fn from_written(written: String) -> (r: Result<bool, String>)
    ensures
        text_result(r) == bool_from_text(written@),
{
    let word = trim_lower(written.as_str());
    if is_word(&word, "true") || is_word(&word, "yes") || is_word(&word, "y") || is_word(&word, "on") || is_word(&word, "1") {
        return Ok(true);
    }
    if is_word(&word, "false") || is_word(&word, "no") || is_word(&word, "n") || is_word(&word, "off") || is_word(&word, "0") {
        return Ok(false);
    }
    let mut message = String::from_str("bool_from: '");
    message.append(written.as_str());
    message.append("' is neither true nor false. Write one of true, yes, y, on, 1 or false, no, n, off, 0");
    Err(message)
}

/// Converts a value to true or false, by what it looks like written out. A
/// bool is already the answer, a number is 1 or 0 and nothing else, and text
/// is one of the words above. Anything else is an error rather than a guess.
pub fn from<T: std::fmt::Display>(v: T) -> (r: Result<bool, String>)
    ensures
        exists|w: String| vstd::string::to_string_from_display_ensures::<T>(&v, w) && text_result(r) == bool_from_text(w@),
{
    let written = v.to_string();
    from_written(written)
}

} // verus!
