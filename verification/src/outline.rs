//! What a single line of a Nail file declares or imports, read off the line
//! itself: the editor lists declarations in its symbol picker and follows
//! imports to the files they name.

use vstd::prelude::*;
use crate::text::{chars_of, is_white, is_white_char, push_char};
use crate::spans::{is_word, is_word_char};
use crate::editor::{lemma_trimmed_end, trimmed_end};

verus! {

/// How many white-space characters a text begins with.
pub open spec fn lead_white(s: Seq<char>) -> nat
    decreases s.len(),
{
    if s.len() == 0 || !is_white(s[0]) {
        0
    } else {
        1 + lead_white(s.skip(1))
    }
}

/// A text without its leading white space.
pub open spec fn trim_start(s: Seq<char>) -> Seq<char> {
    s.skip(lead_white(s) as int)
}

/// A text without white space at either end.
pub open spec fn trim(s: Seq<char>) -> Seq<char> {
    trimmed_end(trim_start(s))
}

/// Where the first of the given characters stands in a text, or its length.
pub open spec fn first_of(s: Seq<char>, stops: Seq<char>) -> int
    decreases s.len(),
{
    if s.len() == 0 {
        0
    } else if stops.contains(s[0]) {
        0
    } else {
        1 + first_of(s.skip(1), stops)
    }
}

/// The text up to the first of the given characters, trimmed.
pub open spec fn name_until(s: Seq<char>, stops: Seq<char>) -> Seq<char> {
    trim(s.take(first_of(s, stops)))
}

/// Whether a text begins with a prefix.
pub open spec fn starts(s: Seq<char>, prefix: Seq<char>) -> bool {
    s.len() >= prefix.len() && s.take(prefix.len() as int) == prefix
}

/// The label of the declaration a line starts: a function, struct or enum
/// by its keyword and name, or the name of a binding written at the left
/// margin (a word followed directly by a colon, on a line with an `=`).
pub open spec fn declaration(line: Seq<char>) -> Option<Seq<char>> {
    let text = trim_start(line);
    let f = seq!['f', ' '];
    let st = seq!['s', 't', 'r', 'u', 'c', 't', ' '];
    let en = seq!['e', 'n', 'u', 'm', ' '];
    if starts(text, f) {
        Some(f + name_until(text.skip(2), seq!['(', ':', ' ']))
    } else if starts(text, st) {
        Some(st + name_until(text.skip(7), seq!['{', ' ']))
    } else if starts(text, en) {
        Some(en + name_until(text.skip(5), seq!['{', ' ']))
    } else if text.len() != line.len() || !text.contains('=') {
        None
    } else {
        let e = first_of(text, seq![':']);
        if 0 < e < text.len() && forall|j: int| 0 <= j < e ==> is_word(#[trigger] text[j]) {
            Some(text.take(e))
        } else {
            None
        }
    }
}

/// The file an import line names: the text between the backticks of
/// `import(` or `import_dangerous(`, white space allowed around the opening
/// bracket; nothing for any other line or for an empty name.
pub open spec fn import_of(line: Seq<char>) -> Option<Seq<char>> {
    let text = trim_start(line);
    let dangerous = seq!['i', 'm', 'p', 'o', 'r', 't', '_', 'd', 'a', 'n', 'g', 'e', 'r', 'o', 'u', 's'];
    let plain = seq!['i', 'm', 'p', 'o', 'r', 't'];
    let after = if starts(text, dangerous) {
        Some(text.skip(16))
    } else if starts(text, plain) {
        Some(text.skip(6))
    } else {
        None
    };
    match after {
        None => None,
        Some(rest) => import_rest(rest),
    }
}

/// The file named by what follows the import keyword: a bracket, then a
/// path between backticks, white space allowed before each.
pub open spec fn import_rest(rest: Seq<char>) -> Option<Seq<char>> {
    let a = trim_start(rest);
    if a.len() == 0 || a[0] != '(' {
        None
    } else {
        let b = trim_start(a.skip(1));
        if b.len() == 0 || b[0] != '`' {
            None
        } else {
            let c = b.skip(1);
            let e = first_of(c, seq!['`']);
            if e >= c.len() || e == 0 {
                None
            } else {
                Some(c.take(e))
            }
        }
    }
}

/// Leading white space is no longer than the text.
pub(crate) proof fn lemma_lead_white_bound(s: Seq<char>)
    ensures
        lead_white(s) <= s.len(),
    decreases s.len(),
{
    if s.len() > 0 && is_white(s[0]) {
        lemma_lead_white_bound(s.skip(1));
    }
}

pub(crate) proof fn lemma_lead_white(s: Seq<char>, k: int)
    requires
        0 <= k <= s.len(),
        forall|j: int| 0 <= j < k ==> is_white(#[trigger] s[j]),
        k == s.len() || !is_white(s[k]),
    ensures
        lead_white(s) == k,
    decreases k,
{
    if k > 0 {
        assert forall|j: int| 0 <= j < k - 1 implies is_white(#[trigger] s.skip(1)[j]) by {
            assert(s.skip(1)[j] == s[j + 1]);
        }
        lemma_lead_white(s.skip(1), k - 1);
    }
}

proof fn lemma_first_of(s: Seq<char>, stops: Seq<char>, k: int)
    requires
        0 <= k <= s.len(),
        forall|j: int| 0 <= j < k ==> !stops.contains(#[trigger] s[j]),
        k == s.len() || stops.contains(s[k]),
    ensures
        first_of(s, stops) == k,
    decreases k,
{
    if k > 0 {
        assert forall|j: int| 0 <= j < k - 1 implies !stops.contains(#[trigger] s.skip(1)[j]) by {
            assert(s.skip(1)[j] == s[j + 1]);
        }
        lemma_first_of(s.skip(1), stops, k - 1);
    }
}

/// Where the white space at the start of `s[from..]` ends.
pub(crate) fn skip_white(s: &Vec<char>, from: usize) -> (r: usize)
    requires
        from <= s@.len(),
    ensures
        from <= r <= s@.len(),
        lead_white(s@.skip(from as int)) == r - from,
        forall|j: int| from <= j < r ==> is_white(#[trigger] s@[j]),
        r == s@.len() || !is_white(s@[r as int]),
{
    let mut i = from;
    while i < s.len() && is_white_char(s[i])
        invariant
            from <= i <= s@.len(),
            forall|j: int| from <= j < i ==> is_white(#[trigger] s@[j]),
        decreases s.len() - i,
    {
        i = i + 1;
    }
    proof {
        let t = s@.skip(from as int);
        assert forall|j: int| 0 <= j < i - from implies is_white(#[trigger] t[j]) by {
            assert(t[j] == s@[from + j]);
        }
        lemma_lead_white(t, i - from);
    }
    i
}

/// Whether `s[at..]` begins with the given characters.
fn starts_at(s: &Vec<char>, at: usize, prefix: &Vec<char>) -> (r: bool)
    requires
        at <= s@.len(),
    ensures
        r == starts(s@.skip(at as int), prefix@),
        r ==> at + prefix.len() <= s.len(),
{
    let n = s.len();
    let m = prefix.len();
    if n - at < m {
        return false;
    }
    let mut j: usize = 0;
    while j < m
        invariant
            at + m <= n == s@.len(),
            m == prefix@.len(),
            j <= m,
            forall|k: int| 0 <= k < j ==> s@[at + k] == prefix@[k],
        decreases m - j,
    {
        if s[at + j] != prefix[j] {
            proof {
                assert(s@.skip(at as int).take(m as int)[j as int] != prefix@[j as int]);
            }
            return false;
        }
        j = j + 1;
    }
    proof {
        assert(s@.skip(at as int).take(m as int) =~= prefix@);
    }
    true
}

/// The characters of `s[from..to]` as a string.
fn text_between(s: &Vec<char>, from: usize, to: usize) -> (r: String)
    requires
        from <= to <= s@.len(),
    ensures
        r@ == s@.subrange(from as int, to as int),
{
    let mut out = String::new();
    let mut i = from;
    while i < to
        invariant
            from <= i <= to <= s@.len(),
            out@ == s@.subrange(from as int, i as int),
        decreases to - i,
    {
        push_char(&mut out, s[i]);
        proof {
            assert(out@ =~= s@.subrange(from as int, i + 1));
        }
        i = i + 1;
    }
    out
}

/// Whether a character is one of the given ones.
fn is_one_of(c: char, stops: &Vec<char>) -> (r: bool)
    ensures
        r == stops@.contains(c),
{
    let mut i: usize = 0;
    while i < stops.len()
        invariant
            i <= stops@.len(),
            forall|j: int| 0 <= j < i ==> stops@[j] != c,
        decreases stops.len() - i,
    {
        if stops[i] == c {
            return true;
        }
        i = i + 1;
    }
    false
}

/// A keyword followed by the trimmed text of `s[from..]` up to the first of
/// the stop characters.
fn labelled(keyword: &Vec<char>, s: &Vec<char>, from: usize, stops: &Vec<char>) -> (r: String)
    requires
        from <= s@.len(),
    ensures
        r@ == keyword@ + name_until(s@.skip(from as int), stops@),
{
    let n = s.len();
    let mut end = from;
    while end < n && !is_one_of(s[end], stops)
        invariant
            from <= end <= n == s@.len(),
            forall|j: int| from <= j < end ==> !stops@.contains(#[trigger] s@[j]),
        decreases n - end,
    {
        end = end + 1;
    }
    let ghost t = s@.skip(from as int);
    proof {
        assert forall|j: int| 0 <= j < end - from implies !stops@.contains(#[trigger] t[j]) by {
            assert(t[j] == s@[from + j]);
        }
        if end < n {
            assert(t[end - from] == s@[end as int]);
        }
        lemma_first_of(t, stops@, end - from);
    }
    let lead = skip_white(s, from);
    let start = if lead < end { lead } else { end };
    let mut stop = end;
    while stop > start && is_white_char(s[stop - 1])
        invariant
            start <= stop <= end <= n == s@.len(),
            forall|j: int| stop <= j < end ==> is_white(#[trigger] s@[j]),
        decreases stop,
    {
        stop = stop - 1;
    }
    proof {
        let x = t.take(end - from);
        assert forall|j: int| 0 <= j < start - from implies is_white(#[trigger] x[j]) by {
            assert(x[j] == s@[from + j]);
        }
        if start < end {
            assert(x[start - from] == s@[start as int]);
        }
        lemma_lead_white(x, start - from);
        let y = x.skip(start - from);
        assert(y =~= s@.subrange(start as int, end as int));
        assert forall|j: int| stop - start <= j < y.len() implies is_white(#[trigger] y[j]) by {
            assert(y[j] == s@[start + j]);
        }
        if stop > start {
            assert(y[stop - start - 1] == s@[stop - 1]);
        }
        lemma_trimmed_end(y, stop - start);
        assert(y.take(stop - start) =~= s@.subrange(start as int, stop as int));
    }
    let mut out = String::new();
    let mut i: usize = 0;
    while i < keyword.len()
        invariant
            i <= keyword@.len(),
            out@ == keyword@.take(i as int),
        decreases keyword.len() - i,
    {
        push_char(&mut out, keyword[i]);
        proof {
            assert(out@ =~= keyword@.take(i + 1));
        }
        i = i + 1;
    }
    let mut k = start;
    while k < stop
        invariant
            start <= k <= stop <= s@.len(),
            out@ == keyword@ + s@.subrange(start as int, k as int),
        decreases stop - k,
    {
        push_char(&mut out, s[k]);
        proof {
            assert(out@ =~= keyword@ + s@.subrange(start as int, k + 1));
        }
        k = k + 1;
    }
    out
}


/// Where the first occurrence of a character stands in `s[from..]`, as an
/// offset into `s`, or the length of `s`.
fn find_char(s: &Vec<char>, from: usize, c: char) -> (r: usize)
    requires
        from <= s@.len(),
    ensures
        from <= r <= s@.len(),
        first_of(s@.skip(from as int), seq![c]) == r - from,
        forall|j: int| from <= j < r ==> s@[j] != c,
        r < s@.len() ==> s@[r as int] == c,
{
    let mut i = from;
    while i < s.len() && s[i] != c
        invariant
            from <= i <= s@.len(),
            forall|j: int| from <= j < i ==> s@[j] != c,
        decreases s.len() - i,
    {
        i = i + 1;
    }
    proof {
        let t = s@.skip(from as int);
        assert forall|j: int| 0 <= j < i - from implies !seq![c].contains(#[trigger] t[j]) by {
            assert(t[j] == s@[from + j]);
            if seq![c].contains(t[j]) {
                assert(seq![c][0] == c);
            }
        }
        if i < s.len() {
            assert(t[i - from] == c);
            assert(seq![c][0] == c);
        }
        lemma_first_of(t, seq![c], i - from);
    }
    i
}

/// The label of the declaration a line starts, if it starts one. Functions,
/// structs and enums announce themselves with a keyword, and a binding at the
/// left margin is the file's own data rather than a local inside something
/// else.
#[verifier::loop_isolation(false)]
pub fn declaration_label(line: &str) -> (r: Option<String>)
    ensures
        r matches Some(x) ==> declaration(line@) == Some(x@),
        r is None ==> declaration(line@) is None,
{
    let s = chars_of(line);
    let n = s.len();
    let at = skip_white(&s, 0);
    let ghost text = s@.skip(at as int);
    proof {
        assert(s@.skip(0) == s@);
        assert(trim_start(line@) == text);
    }
    let f = vec!['f', ' '];
    let st = vec!['s', 't', 'r', 'u', 'c', 't', ' '];
    let en = vec!['e', 'n', 'u', 'm', ' '];
    if starts_at(&s, at, &f) {
        proof {
            assert(f@ == seq!['f', ' ']);
            assert(text.skip(2) =~= s@.skip(at + 2));
        }
        return Some(labelled(&f, &s, at + 2, &vec!['(', ':', ' ']));
    }
    if starts_at(&s, at, &st) {
        proof {
            assert(st@ == seq!['s', 't', 'r', 'u', 'c', 't', ' ']);
            assert(text.skip(7) =~= s@.skip(at + 7));
        }
        return Some(labelled(&st, &s, at + 7, &vec!['{', ' ']));
    }
    if starts_at(&s, at, &en) {
        proof {
            assert(en@ == seq!['e', 'n', 'u', 'm', ' ']);
            assert(text.skip(5) =~= s@.skip(at + 5));
        }
        return Some(labelled(&en, &s, at + 5, &vec!['{', ' ']));
    }
    proof {
        assert(f@ == seq!['f', ' ']);
        assert(st@ == seq!['s', 't', 'r', 'u', 'c', 't', ' ']);
        assert(en@ == seq!['e', 'n', 'u', 'm', ' ']);
    }
    if at != 0 {
        return None;
    }
    let equals = find_char(&s, 0, '=');
    if equals >= n {
        proof {
            assert(!text.contains('='));
        }
        return None;
    }
    proof {
        assert(text[equals as int] == '=');
    }
    let e = find_char(&s, 0, ':');
    if e == 0 || e >= n {
        return None;
    }
    let mut j: usize = 0;
    while j < e
        invariant
            e < n == s@.len(),
            j <= e,
            forall|k: int| 0 <= k < j ==> is_word(#[trigger] s@[k]),
        decreases e - j,
    {
        if !is_word_char(s[j]) {
            proof {
                assert(text[j as int] == s@[j as int]);
            }
            return None;
        }
        j = j + 1;
    }
    proof {
        assert forall|k: int| 0 <= k < e implies is_word(#[trigger] text[k]) by {
            assert(text[k] == s@[k]);
        }
    }
    let name = text_between(&s, 0, e);
    proof {
        assert(name@ =~= text.take(e as int));
    }
    Some(name)
}

/// The file named by `s[rest_at..]`, what follows an import keyword.
fn path_after(s: &Vec<char>, rest_at: usize) -> (r: Option<String>)
    requires
        rest_at <= s@.len(),
    ensures
        r matches Some(x) ==> import_rest(s@.skip(rest_at as int)) == Some(x@),
        r is None ==> import_rest(s@.skip(rest_at as int)) is None,
{
    let n = s.len();
    let a = skip_white(&s, rest_at);
    proof {
        assert(trim_start(s@.skip(rest_at as int)) =~= s@.skip(a as int));
    }
    if a >= n || s[a] != '(' {
        return None;
    }
    let b = skip_white(&s, a + 1);
    proof {
        assert(s@.skip(a as int).skip(1) =~= s@.skip(a + 1));
        assert(trim_start(s@.skip(a + 1)) =~= s@.skip(b as int));
    }
    if b >= n || s[b] != '`' {
        return None;
    }
    let c = b + 1;
    let e = find_char(&s, c, '`');
    proof {
        assert(s@.skip(b as int).skip(1) =~= s@.skip(c as int));
    }
    if e >= n || e == c {
        return None;
    }
    let path = text_between(&s, c, e);
    proof {
        assert(path@ =~= s@.skip(c as int).take(e - c));
    }
    Some(path)
}

/// The file an import line brings in, as it is written on the line. Only
/// import lines answer: a path is the one thing in a Nail file that names
/// another file. The dangerous form is tried first, because `import` is a
/// prefix of `import_dangerous`.
pub fn imported_path(line: &str) -> (r: Option<String>)
    ensures
        r matches Some(x) ==> import_of(line@) == Some(x@),
        r is None ==> import_of(line@) is None,
{
    let s = chars_of(line);
    let at = skip_white(&s, 0);
    let ghost text = s@.skip(at as int);
    proof {
        assert(s@.skip(0) == s@);
        assert(trim_start(line@) == text);
    }
    let dangerous = vec!['i', 'm', 'p', 'o', 'r', 't', '_', 'd', 'a', 'n', 'g', 'e', 'r', 'o', 'u', 's'];
    let plain = vec!['i', 'm', 'p', 'o', 'r', 't'];
    proof {
        assert(dangerous@ == seq!['i', 'm', 'p', 'o', 'r', 't', '_', 'd', 'a', 'n', 'g', 'e', 'r', 'o', 'u', 's']);
        assert(plain@ == seq!['i', 'm', 'p', 'o', 'r', 't']);
    }
    let rest_at = if starts_at(&s, at, &dangerous) {
        proof {
            assert(text.skip(16) =~= s@.skip(at + 16));
        }
        at + 16
    } else if starts_at(&s, at, &plain) {
        proof {
            assert(text.skip(6) =~= s@.skip(at + 6));
        }
        at + 6
    } else {
        return None;
    };
    path_after(&s, rest_at)
}

} // verus!
