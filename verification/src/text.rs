//! Text helpers shared by the library: decimal numbers, whitespace, and the
//! few string operations Verus needs a contract for.

use vstd::prelude::*;
use vstd::string::StringExecFns;

verus! {

/// Appends one character to a string.
///
/// Wraps `String::push`, whose documentation says it appends the given
/// character to the end of the string.
#[verifier::external_body]
pub(crate) fn push_char(s: &mut String, c: char)
    ensures
        final(s)@ == old(s)@.push(c),
{
    s.push(c);
}

/// The characters of a natural number in decimal, most significant first.
pub open spec fn nat_digits(n: nat) -> Seq<char>
    decreases n,
{
    if n < 10 {
        seq![digit_char(n)]
    } else {
        nat_digits(n / 10).push(digit_char(n % 10))
    }
}

/// The ASCII character for a digit value below ten.
pub open spec fn digit_char(d: nat) -> char {
    ((d + 48) as u8) as char
}

/// A whole number as Rust's `Display` writes it: a minus sign for negatives,
/// then the decimal digits.
pub open spec fn int_text(n: int) -> Seq<char> {
    if n < 0 {
        seq!['-'].add(nat_digits((-n) as nat))
    } else {
        nat_digits(n as nat)
    }
}

fn digits_of(n: u64) -> (r: String)
    ensures
        r@ == nat_digits(n as nat),
    decreases n,
{
    if n < 10 {
        let mut s = String::new();
        push_char(&mut s, ((n as u8) + 48) as char);
        s
    } else {
        let mut s = digits_of(n / 10);
        push_char(&mut s, (((n % 10) as u8) + 48) as char);
        s
    }
}

/// A signed whole number written in decimal.
pub fn int_to_text(n: i64) -> (r: String)
    ensures
        r@ == int_text(n as int),
{
    if n < 0 {
        let magnitude: u64 = if n == i64::MIN { 9223372036854775808u64 } else { (-n) as u64 };
        let mut s = String::from_str("-");
        proof { reveal_strlit("-"); }
        let digits = digits_of(magnitude);
        s.append(digits.as_str());
        s
    } else {
        digits_of(n as u64)
    }
}

/// An unsigned size written in decimal.
pub fn usize_to_text(n: usize) -> (r: String)
    ensures
        r@ == int_text(n as int),
{
    digits_of(n as u64)
}

} // verus!

verus! {

/// The characters of `s` other than `c`, in order.
pub open spec fn without_char(s: Seq<char>, c: char) -> Seq<char> {
    s.filter(|x: char| x != c)
}

/// Drops every occurrence of one character.
pub fn remove_char(text: &str, c: char) -> (r: String)
    ensures
        r@ == without_char(text@, c),
{
    let mut out = String::new();
    let ghost whole = text@;
    for ch in it: text.chars()
        invariant
            it.seq() == whole,
            out@ == without_char(whole.take(it.index() as int), c),
    {
        proof {
            assert(whole.take(it.index() + 1).drop_last() == whole.take(it.index() as int));
            reveal_with_fuel(Seq::filter, 1);
        }
        if ch != c {
            push_char(&mut out, ch);
        }
    }
    proof { assert(whole.take(whole.len() as int) == whole); }
    out
}

} // verus!

verus! {

/// Text of ASCII characters is one byte per character in UTF-8, each byte the
/// character's code.
pub proof fn lemma_ascii_utf8(s: Seq<char>)
    requires
        forall|i: int| 0 <= i < s.len() ==> (#[trigger] s[i] as u32) < 0x80,
    ensures
        vstd::utf8::encode_utf8(s) == s.map_values(|c: char| (c as u32) as u8),
    decreases s.len(),
{
    if s.len() > 0 {
        let rest = s.drop_first();
        assert forall|i: int| 0 <= i < rest.len() implies (#[trigger] rest[i] as u32) < 0x80 by {
            assert(rest[i] == s[i + 1]);
        }
        lemma_ascii_utf8(rest);
        let u = s[0] as u32;
        assert(u & 0x7F == u) by (bit_vector)
            requires
                u < 0x80,
        ;
        assert(vstd::utf8::encode_scalar(u) == seq![u as u8]);
        assert(s.map_values(|c: char| (c as u32) as u8) =~= seq![u as u8] + rest.map_values(|c: char| (c as u32) as u8));
    }
}

/// Dropping white space from a text that has none leaves it as it was.
pub proof fn lemma_without_white_none(s: Seq<char>)
    requires
        forall|i: int| 0 <= i < s.len() ==> !is_white(#[trigger] s[i]),
    ensures
        without_white(s) == s,
    decreases s.len(),
{
    reveal_with_fuel(Seq::filter, 1);
    if s.len() > 0 {
        let front = s.drop_last();
        assert forall|i: int| 0 <= i < front.len() implies !is_white(#[trigger] front[i]) by {
            assert(front[i] == s[i]);
        }
        lemma_without_white_none(front);
        assert(!is_white(s[s.len() - 1]));
        assert(front.push(s.last()) =~= s);
    }
}

/// Dropping a character a text does not hold leaves the text as it was.
pub proof fn lemma_without_absent(s: Seq<char>, c: char)
    requires
        forall|i: int| 0 <= i < s.len() ==> #[trigger] s[i] != c,
    ensures
        without_char(s, c) == s,
    decreases s.len(),
{
    reveal_with_fuel(Seq::filter, 1);
    if s.len() > 0 {
        let front = s.drop_last();
        assert forall|i: int| 0 <= i < front.len() implies #[trigger] front[i] != c by {
            assert(front[i] == s[i]);
        }
        lemma_without_absent(front, c);
        assert(s[s.len() - 1] != c);
        assert(front.push(s.last()) =~= s);
    }
}

/// Every character takes at least one byte in UTF-8.
pub proof fn lemma_utf8_len_at_least_chars(s: Seq<char>)
    ensures
        vstd::utf8::encode_utf8(s).len() >= s.len(),
    decreases s.len(),
{
    if s.len() > 0 {
        lemma_utf8_len_at_least_chars(s.drop_first());
    }
}

} // verus!

verus! {

/// Whether `c` is Unicode white space, as `char::is_whitespace` decides it:
/// the characters with the `White_Space` property.
pub open spec fn is_white(c: char) -> bool {
    let u = c as u32;
    (0x9 <= u <= 0xd) || u == 0x20 || u == 0x85 || u == 0xa0 || u == 0x1680
        || (0x2000 <= u <= 0x200a) || u == 0x2028 || u == 0x2029 || u == 0x202f
        || u == 0x205f || u == 0x3000
}

/// Whether `c` is white space.
pub fn is_white_char(c: char) -> (r: bool)
    ensures
        r == is_white(c),
{
    let u = c as u32;
    (0x9 <= u && u <= 0xd) || u == 0x20 || u == 0x85 || u == 0xa0 || u == 0x1680
        || (0x2000 <= u && u <= 0x200a) || u == 0x2028 || u == 0x2029 || u == 0x202f
        || u == 0x205f || u == 0x3000
}

/// The characters of `s` that are not white space, in order.
pub open spec fn without_white(s: Seq<char>) -> Seq<char> {
    s.filter(|x: char| !is_white(x))
}

/// Drops every white-space character, as a `String` and as characters.
pub fn remove_white(text: &str) -> (r: (String, Vec<char>))
    ensures
        r.0@ == without_white(text@),
        r.1@ == without_white(text@),
{
    let mut out = String::new();
    let mut chars: Vec<char> = Vec::new();
    let ghost whole = text@;
    for ch in it: text.chars()
        invariant
            it.seq() == whole,
            out@ == without_white(whole.take(it.index() as int)),
            chars@ == out@,
    {
        proof {
            assert(whole.take(it.index() + 1).drop_last() == whole.take(it.index() as int));
            reveal_with_fuel(Seq::filter, 1);
        }
        if !is_white_char(ch) {
            push_char(&mut out, ch);
            chars.push(ch);
        }
    }
    proof { assert(whole.take(whole.len() as int) == whole); }
    (out, chars)
}

/// How many bytes `c` takes in UTF-8.
pub open spec fn utf8_width(c: char) -> nat {
    let u = c as u32;
    if u < 0x80 {
        1
    } else if u < 0x800 {
        2
    } else if u < 0x10000 {
        3
    } else {
        4
    }
}

} // verus!

verus! {

/// An unsigned 64-bit number written in decimal.
pub fn u64_to_text(n: u64) -> (r: String)
    ensures
        r@ == int_text(n as int),
{
    digits_of(n)
}

} // verus!

verus! {

/// Reads bytes as UTF-8 text.
///
/// Wraps `String::from_utf8`, which the standard library documents as
/// succeeding exactly when the bytes are valid UTF-8, with the text they
/// encode. On failure the error's own description is handed back; what it
/// says is left unstated.
#[verifier::external_body]
pub(crate) fn utf8_text(bytes: Vec<u8>) -> (r: Result<String, String>)
    ensures
        r is Ok <==> vstd::utf8::valid_utf8(bytes@),
        r matches Ok(s) ==> s@ == vstd::utf8::decode_utf8(bytes@),
{
    String::from_utf8(bytes).map_err(|e| e.to_string())
}

/// The bytes of a string, copied into a vector.
pub fn text_bytes(text: &str) -> (r: Vec<u8>)
    ensures
        r@ == vstd::utf8::encode_utf8(text@),
{
    let bytes = text.as_bytes();
    let mut out: Vec<u8> = Vec::new();
    let mut i: usize = 0;
    while i < bytes.len()
        invariant
            i <= bytes@.len(),
            bytes@ == vstd::utf8::encode_utf8(text@),
            out@ == bytes@.take(i as int),
        decreases bytes.len() - i,
    {
        out.push(bytes[i]);
        i = i + 1;
        proof { assert(out@ == bytes@.take(i as int)); }
    }
    proof { assert(bytes@.take(bytes@.len() as int) == bytes@); }
    out
}

} // verus!

verus! {

/// The characters of a string, in a vector.
pub fn chars_of(text: &str) -> (r: Vec<char>)
    ensures
        r@ == text@,
{
    let mut chars: Vec<char> = Vec::new();
    for ch in it: text.chars()
        invariant
            chars@ == text@.take(it.index() as int),
            it.seq() == text@,
    {
        chars.push(ch);
        proof { assert(chars@ == text@.take(it.index() + 1)); }
    }
    proof { assert(text@.take(text@.len() as int) == text@); }
    chars
}

/// Whether two character vectors hold the same characters.
pub fn same_chars(a: &Vec<char>, b: &Vec<char>) -> (r: bool)
    ensures
        r == (a@ == b@),
{
    if a.len() != b.len() {
        return false;
    }
    let mut i: usize = 0;
    while i < a.len()
        invariant
            a@.len() == b@.len(),
            i <= a@.len(),
            forall|j: int| 0 <= j < i ==> a@[j] == b@[j],
        decreases a.len() - i,
    {
        if a[i] != b[i] {
            return false;
        }
        i = i + 1;
    }
    proof { assert(a@ =~= b@); }
    true
}

} // verus!

verus! {

/// Whether a character is an upper-case letter, as `char::is_uppercase`
/// decides by the Unicode `Uppercase` property.
pub uninterp spec fn uppercase_char(c: char) -> bool;

/// Whether a character is an upper-case letter.
///
/// Wraps `char::is_uppercase`. Its result is named by `uppercase_char`; for
/// ASCII the documentation gives that exactly `A` to `Z` are upper case.
#[verifier::external_body]
pub(crate) fn is_uppercase(c: char) -> (r: bool)
    ensures
        r == uppercase_char(c),
        (c as u32) < 128 ==> (r <==> ('A' <= c && c <= 'Z')),
{
    c.is_uppercase()
}

/// Whether a character is a letter or a digit, as `char::is_alphanumeric`
/// decides by the Unicode `Alphabetic` and `Numeric` properties.
pub uninterp spec fn alphanumeric_char(c: char) -> bool;

/// Whether a character is a letter or a digit.
///
/// Wraps `char::is_alphanumeric`. Its result is named by `alphanumeric_char`;
/// among the ASCII characters exactly the letters and the digits have those
/// properties.
#[verifier::external_body]
pub(crate) fn is_alphanumeric(c: char) -> (r: bool)
    ensures
        r == alphanumeric_char(c),
        (c as u32) < 128 ==> (r <==> (('a' <= c && c <= 'z') || ('A' <= c && c <= 'Z') || ('0' <= c && c <= '9'))),
{
    c.is_alphanumeric()
}

/// Whether a string reads exactly as a literal.
pub fn text_is(s: &String, lit: &str) -> (r: bool)
    ensures
        r == (s@ == lit@),
{
    same_chars(&chars_of(s.as_str()), &chars_of(lit))
}

} // verus!
