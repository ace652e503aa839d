//! Base58, the Bitcoin alphabet, for ids and keys meant to be read aloud
//! and retyped. It leaves out 0, O, I and l so no character can be mistaken
//! for another, and leading zero bytes come out as leading `1`s.

use vstd::prelude::*;
use vstd::string::StringExecFns;
use crate::std_lib::binary::{be_value, bytes_to_hex, hex_text, hex_value};
use crate::std_lib::radix::{canonical, digits_of, lemma_canonical_unique, limbs_value, multiply_add};
use crate::text::{int_text, is_white, lemma_without_white_none, push_char, remove_white, usize_to_text, utf8_text, without_white};

verus! {

/// The character for a base58 digit.
pub open spec fn b58_char(d: nat) -> char {
    if d < 9 {
        ((d + 49) as u8) as char
    } else if d < 17 {
        ((d + 56) as u8) as char
    } else if d < 22 {
        ((d + 57) as u8) as char
    } else if d < 33 {
        ((d + 58) as u8) as char
    } else if d < 44 {
        ((d + 64) as u8) as char
    } else {
        ((d + 65) as u8) as char
    }
}

/// Where a character sits in the base58 alphabet.
pub open spec fn b58_index(c: char) -> Option<nat> {
    if '1' <= c && c <= '9' {
        Some((c as nat - 49) as nat)
    } else if 'A' <= c && c <= 'H' {
        Some((c as nat - 56) as nat)
    } else if 'J' <= c && c <= 'N' {
        Some((c as nat - 57) as nat)
    } else if 'P' <= c && c <= 'Z' {
        Some((c as nat - 58) as nat)
    } else if 'a' <= c && c <= 'k' {
        Some((c as nat - 64) as nat)
    } else if 'm' <= c && c <= 'z' {
        Some((c as nat - 65) as nat)
    } else {
        None
    }
}

/// How many times `x` leads the sequence.
pub open spec fn leading<T>(s: Seq<T>, x: T) -> nat
    decreases s.len(),
{
    if s.len() == 0 || s[0] != x {
        0
    } else {
        1 + leading(s.skip(1), x)
    }
}

/// Bytes in base58: a `1` for each leading zero byte, then the digits of
/// the number the remaining bytes spell, most significant first.
pub open spec fn base58_text(b: Seq<u8>) -> Seq<char> {
    let zeros = leading(b, 0u8);
    Seq::new(zeros, |i: int| '1') + digits_of(be_value(b.skip(zeros as int)), 58).reverse().map_values(|d: u8| b58_char(d as nat))
}

fn digit_char(d: u8) -> (c: char)
    requires
        d < 58,
    ensures
        c == b58_char(d as nat),
{
    if d < 9 {
        (d + 49) as char
    } else if d < 17 {
        (d + 56) as char
    } else if d < 22 {
        (d + 57) as char
    } else if d < 33 {
        (d + 58) as char
    } else if d < 44 {
        (d + 64) as char
    } else {
        (d + 65) as char
    }
}

proof fn lemma_leading_step<T>(s: Seq<T>, x: T, k: int)
    requires
        0 <= k <= s.len(),
        forall|j: int| 0 <= j < k ==> s[j] == x,
    ensures
        leading(s, x) == k + leading(s.skip(k), x),
    decreases k,
{
    if k > 0 {
        assert(s.skip(1).skip(k - 1) == s.skip(k));
        lemma_leading_step(s.skip(1), x, k - 1);
    } else {
        assert(s.skip(0) == s);
    }
}

/// Bytes as base58.
pub(crate) fn encode_bytes(bytes: &[u8]) -> (r: String)
    ensures
        r@ == base58_text(bytes@),
{
    let ghost b = bytes@;
    let mut zeros: usize = 0;
    while zeros < bytes.len() && bytes[zeros] == 0
        invariant
            zeros <= b.len(),
            b == bytes@,
            forall|j: int| 0 <= j < zeros ==> b[j] == 0u8,
        decreases bytes.len() - zeros,
    {
        zeros = zeros + 1;
    }
    proof {
        lemma_leading_step(b, 0u8, zeros as int);
        assert(leading(b.skip(zeros as int), 0u8) == 0);
    }
    let mut digits: Vec<u8> = Vec::new();
    let mut i: usize = zeros;
    proof { assert(b.subrange(zeros as int, zeros as int) == Seq::<u8>::empty()); }
    while i < bytes.len()
        invariant
            b == bytes@,
            zeros <= i <= b.len(),
            zeros < b.len() ==> b[zeros as int] != 0,
            canonical(digits@, 58),
            limbs_value(digits@, 58) == be_value(b.subrange(zeros as int, i as int)),
            digits@.len() == 0 ==> i == zeros,
        decreases bytes.len() - i,
    {
        let byte = bytes[i];
        proof { assert(b.subrange(zeros as int, i + 1).drop_last() == b.subrange(zeros as int, i as int)); }
        multiply_add(&mut digits, 58, 256, byte as u32);
        i = i + 1;
    }
    proof {
        assert(b.subrange(zeros as int, b.len() as int) == b.skip(zeros as int));
        lemma_canonical_unique(digits@, 58);
    }
    let mut out = String::new();
    let mut k: usize = 0;
    while k < zeros
        invariant
            k <= zeros,
            out@ == Seq::new(k as nat, |j: int| '1'),
        decreases zeros - k,
    {
        push_char(&mut out, '1');
        k = k + 1;
        proof { assert(out@ == Seq::new(k as nat, |j: int| '1')); }
    }
    let ghost front = out@;
    let ghost ds = digits@;
    let mut j: usize = digits.len();
    while j > 0
        invariant
            j <= ds.len(),
            ds == digits@,
            canonical(ds, 58),
            out@ == front + ds.reverse().take((ds.len() - j) as int).map_values(|d: u8| b58_char(d as nat)),
        decreases j,
    {
        j = j - 1;
        let d = digits[j];
        push_char(&mut out, digit_char(d));
        proof {
            let t = (ds.len() - j) as int;
            assert(ds.reverse().take(t) == ds.reverse().take(t - 1).push(d));
            assert(ds.reverse().take(t).map_values(|d: u8| b58_char(d as nat))
                == ds.reverse().take(t - 1).map_values(|d: u8| b58_char(d as nat)).push(b58_char(d as nat)));
        }
    }
    proof { assert(ds.reverse().take(ds.len() as int) == ds.reverse()); }
    out
}

/// The number base58 digits spell, most significant first.
pub open spec fn b58_value(s: Seq<char>) -> nat
    decreases s.len(),
{
    if s.len() == 0 {
        0
    } else {
        b58_value(s.drop_last()) * 58 + match b58_index(s.last()) {
            Some(v) => v,
            None => 0,
        }
    }
}

/// Whether every character is in the alphabet.
pub open spec fn all_b58(s: Seq<char>) -> bool {
    forall|i: int| 0 <= i < s.len() ==> b58_index(#[trigger] s[i]) is Some
}

/// The first character outside the alphabet.
pub open spec fn first_bad58(s: Seq<char>) -> int {
    choose|i: int| 0 <= i < s.len() && b58_index(s[i]) is None && all_b58(s.take(i))
}

/// What decoding base58 answers, naming `what` in its errors. White space
/// is ignored; each leading `1` is a zero byte.
pub open spec fn base58_decoded(text: Seq<char>, what: Seq<char>) -> Result<Seq<u8>, Seq<char>> {
    let c = without_white(text);
    let ones = leading(c, '1');
    if !all_b58(c) {
        Err(what + ": `"@ + seq![c[first_bad58(c)]] + "` is not a base58 character, the alphabet leaves out 0, O, I and l"@)
    } else {
        Ok(Seq::new(ones, |i: int| 0u8) + digits_of(b58_value(c.skip(ones as int)), 256).reverse())
    }
}

fn index_of(c: char) -> (r: Option<u8>)
    ensures
        match b58_index(c) {
            Some(v) => r == Some(v as u8) && v < 58,
            None => r is None,
        },
{
    if '1' <= c && c <= '9' {
        Some(((c as u32) - 49) as u8)
    } else if 'A' <= c && c <= 'H' {
        Some(((c as u32) - 56) as u8)
    } else if 'J' <= c && c <= 'N' {
        Some(((c as u32) - 57) as u8)
    } else if 'P' <= c && c <= 'Z' {
        Some(((c as u32) - 58) as u8)
    } else if 'a' <= c && c <= 'k' {
        Some(((c as u32) - 64) as u8)
    } else if 'm' <= c && c <= 'z' {
        Some(((c as u32) - 65) as u8)
    } else {
        None
    }
}

/// Base58 back to bytes; a character outside the alphabet is an error.
pub(crate) fn decode_to_bytes(text: &str, what: &str) -> (r: Result<Vec<u8>, String>)
    ensures
        match (r, base58_decoded(text@, what@)) {
            (Ok(b), Ok(t)) => b@ == t,
            (Err(e), Err(t)) => e@ == t,
            _ => false,
        },
{
    let (_, cleaned) = remove_white(text);
    let ghost c = cleaned@;
    let mut ones: usize = 0;
    while ones < cleaned.len() && cleaned[ones] == '1'
        invariant
            ones <= c.len(),
            c == cleaned@,
            forall|j: int| 0 <= j < ones ==> c[j] == '1',
        decreases cleaned.len() - ones,
    {
        ones = ones + 1;
    }
    proof {
        lemma_leading_step(c, '1', ones as int);
        assert(leading(c.skip(ones as int), '1') == 0);
        assert(c.subrange(ones as int, ones as int) == Seq::<char>::empty());
    }
    let mut bytes: Vec<u8> = Vec::new();
    let mut i: usize = ones;
    while i < cleaned.len()
        invariant
            c == cleaned@,
            c == without_white(text@),
            ones == leading(c, '1'),
            ones <= i <= c.len(),
            forall|j: int| 0 <= j < ones ==> c[j] == '1',
            ones < c.len() ==> c[ones as int] != '1',
            all_b58(c.take(i as int)),
            canonical(bytes@, 256),
            limbs_value(bytes@, 256) == b58_value(c.subrange(ones as int, i as int)),
            bytes@.len() == 0 ==> i == ones,
        decreases cleaned.len() - i,
    {
        let ch = cleaned[i];
        match index_of(ch) {
            Some(d) => {
                proof {
                    assert(c.subrange(ones as int, i + 1).drop_last() == c.subrange(ones as int, i as int));
                    assert(c.subrange(ones as int, i + 1).last() == ch);
                    assert forall|j: int| 0 <= j < i + 1 implies b58_index(#[trigger] c.take(i + 1)[j]) is Some by {
                        if j < i {
                            assert(c.take(i + 1)[j] == c.take(i as int)[j]);
                        }
                    }
                }
                multiply_add(&mut bytes, 256, 58, d as u32);
                i = i + 1;
            },
            None => {
                let mut message = String::from_str(what);
                message.append(": `");
                push_char(&mut message, ch);
                message.append("` is not a base58 character, the alphabet leaves out 0, O, I and l");
                proof {
                    let at = i as int;
                    assert(!all_b58(c));
                    let f = first_bad58(c);
                    if f < at {
                        assert(c.take(at)[f] == c[f]);
                    } else if f > at {
                        assert(c.take(f)[at] == c[at]);
                    }
                    assert(f == at);
                }
                return Err(message);
            },
        }
    }
    proof {
        assert(c.take(c.len() as int) == c);
        assert(c.subrange(ones as int, c.len() as int) == c.skip(ones as int));
        lemma_canonical_unique(bytes@, 256);
    }
    let mut out: Vec<u8> = Vec::new();
    let mut k: usize = 0;
    while k < ones
        invariant
            k <= ones,
            out@ == Seq::new(k as nat, |j: int| 0u8),
        decreases ones - k,
    {
        out.push(0);
        k = k + 1;
        proof { assert(out@ == Seq::new(k as nat, |j: int| 0u8)); }
    }
    let ghost front = out@;
    let ghost bs = bytes@;
    let mut j: usize = bytes.len();
    while j > 0
        invariant
            j <= bs.len(),
            bs == bytes@,
            out@ == front + bs.reverse().take((bs.len() - j) as int),
        decreases j,
    {
        j = j - 1;
        out.push(bytes[j]);
        proof {
            let t = (bs.len() - j) as int;
            assert(bs.reverse().take(t) == bs.reverse().take(t - 1).push(bs[j as int]));
        }
    }
    proof { assert(bs.reverse().take(bs.len() as int) == bs.reverse()); }
    Ok(out)
}

/// Text bytes as base58, the way Bitcoin spells binary for human eyes.
pub fn encode(text: String) -> (r: String)
    ensures
        r@ == base58_text(vstd::utf8::encode_utf8(text@)),
{
    encode_bytes(text.as_str().as_bytes())
}

/// What decoding base58 back to text answers.
pub open spec fn decode_result(text: Seq<char>) -> Result<Seq<char>, Seq<char>> {
    match base58_decoded(text, "base58_decode"@) {
        Ok(bytes) => if vstd::utf8::valid_utf8(bytes) {
            Ok(vstd::utf8::decode_utf8(bytes))
        } else {
            Err("base58_decode: the decoded bytes are not text"@)
        },
        Err(e) => Err(e),
    }
}

/// Base58 back to text. Whitespace is forgiven. A character outside the
/// alphabet is named, as are decoded bytes that make no text.
pub fn decode(text: String) -> (r: Result<String, String>)
    ensures
        match (r, decode_result(text@)) {
            (Ok(s), Ok(t)) => s@ == t,
            (Err(e), Err(t)) => e@ == t,
            _ => false,
        },
{
    let bytes = decode_to_bytes(text.as_str(), "base58_decode")?;
    match utf8_text(bytes) {
        Ok(s) => Ok(s),
        Err(_) => Err(String::from_str("base58_decode: the decoded bytes are not text")),
    }
}

/// Whether every character is an ASCII hex digit.
pub open spec fn all_hex(s: Seq<char>) -> bool {
    forall|i: int| 0 <= i < s.len() ==> hex_value(#[trigger] s[i]) is Some
}

/// The first character that is not an ASCII hex digit.
pub open spec fn first_non_hex(s: Seq<char>) -> int {
    choose|i: int| 0 <= i < s.len() && hex_value(s[i]) is None && all_hex(s.take(i))
}

/// The bytes pairs of hex digits spell.
pub open spec fn hex_pairs(s: Seq<char>) -> Seq<u8> {
    Seq::new(s.len() / 2, |i: int| (16 * hex_value(s[2 * i])->0 + hex_value(s[2 * i + 1])->0) as u8)
}

/// What `encode_hex` answers.
pub open spec fn encode_hex_result(hex: Seq<char>) -> Result<Seq<char>, Seq<char>> {
    let c = without_white(hex);
    if !all_hex(c) {
        Err("base58_encode_hex: `"@ + seq![c[first_non_hex(c)]] + "` is not a hex digit"@)
    } else if c.len() % 2 != 0 {
        Err("base58_encode_hex: hex text needs an even number of digits, this has "@ + int_text(c.len() as int))
    } else {
        Ok(base58_text(hex_pairs(c)))
    }
}

fn hex_digit(c: char) -> (r: Option<u8>)
    ensures
        match hex_value(c) {
            Some(v) => r == Some(v as u8) && v < 16,
            None => r is None,
        },
{
    if '0' <= c && c <= '9' {
        Some(((c as u32) - 48) as u8)
    } else if 'a' <= c && c <= 'f' {
        Some(((c as u32) - 87) as u8)
    } else if 'A' <= c && c <= 'F' {
        Some(((c as u32) - 55) as u8)
    } else {
        None
    }
}

/// Hex bytes as base58, how a binary id becomes something short enough to
/// read aloud. Leading zero bytes come out as leading `1`s.
pub fn encode_hex(hex: String) -> (r: Result<String, String>)
    ensures
        match (r, encode_hex_result(hex@)) {
            (Ok(s), Ok(t)) => s@ == t,
            (Err(e), Err(t)) => e@ == t,
            _ => false,
        },
{
    let (_, cleaned) = remove_white(hex.as_str());
    let ghost c = cleaned@;
    let mut i: usize = 0;
    while i < cleaned.len()
        invariant
            c == cleaned@,
            c == without_white(hex@),
            i <= c.len(),
            all_hex(c.take(i as int)),
        decreases cleaned.len() - i,
    {
        let ch = cleaned[i];
        if hex_digit(ch).is_none() {
            let mut message = String::from_str("base58_encode_hex: `");
            push_char(&mut message, ch);
            message.append("` is not a hex digit");
            proof {
                let at = i as int;
                assert(!all_hex(c));
                let f = first_non_hex(c);
                if f < at {
                    assert(c.take(at)[f] == c[f]);
                } else if f > at {
                    assert(c.take(f)[at] == c[at]);
                }
                assert(f == at);
            }
            return Err(message);
        }
        proof {
            assert forall|j: int| 0 <= j < i + 1 implies hex_value(#[trigger] c.take(i + 1)[j]) is Some by {
                if j < i {
                    assert(c.take(i + 1)[j] == c.take(i as int)[j]);
                }
            }
        }
        i = i + 1;
    }
    proof { assert(c.take(c.len() as int) == c); }
    if cleaned.len() % 2 != 0 {
        let mut message = String::from_str("base58_encode_hex: hex text needs an even number of digits, this has ");
        message.append(usize_to_text(cleaned.len()).as_str());
        return Err(message);
    }
    let mut bytes: Vec<u8> = Vec::new();
    let mut k: usize = 0;
    while k < cleaned.len() / 2
        invariant
            c == cleaned@,
            all_hex(c),
            c.len() % 2 == 0,
            k <= c.len() / 2,
            bytes@ == hex_pairs(c).take(k as int),
        decreases cleaned.len() / 2 - k,
    {
        let high = hex_digit(cleaned[2 * k]).unwrap();
        let low = hex_digit(cleaned[2 * k + 1]).unwrap();
        bytes.push(16 * high + low);
        k = k + 1;
        proof { assert(bytes@ == hex_pairs(c).take(k as int)); }
    }
    proof { assert(hex_pairs(c).take((c.len() / 2) as int) == hex_pairs(c)); }
    Ok(encode_bytes(bytes.as_slice()))
}

/// Base58 back to hex bytes, for ids and keys that were never text.
pub fn decode_hex(text: String) -> (r: Result<String, String>)
    ensures
        match (r, base58_decoded(text@, "base58_decode_hex"@)) {
            (Ok(s), Ok(b)) => s@ == hex_text(b),
            (Err(e), Err(t)) => e@ == t,
            _ => false,
        },
{
    let bytes = decode_to_bytes(text.as_str(), "base58_decode_hex")?;
    Ok(bytes_to_hex(bytes.as_slice()))
}


proof fn lemma_b58_char_reads(d: nat)
    requires
        d < 58,
    ensures
        b58_index(b58_char(d)) == Some(d),
        d != 0 ==> b58_char(d) != '1',
        !is_white(b58_char(d)),
{
}

proof fn lemma_digits_canonical(n: nat, base: nat)
    requires
        2 <= base <= 256,
    ensures
        canonical(digits_of(n, base), base),
        limbs_value(digits_of(n, base), base) == n,
    decreases n,
{
    if n > 0 {
        vstd::arithmetic::div_mod::lemma_div_decreases(n as int, base as int);
        lemma_digits_canonical(n / base, base);
        let rest = digits_of(n / base, base);
        let ds = digits_of(n, base);
        vstd::arithmetic::div_mod::lemma_fundamental_div_mod(n as int, base as int);
        vstd::arithmetic::div_mod::lemma_mod_bound(n as int, base as int);
        let low = n % base;
        assert(low < 256);
        assert(ds == seq![low as u8] + rest);
        assert(ds.skip(1) =~= rest);
        assert(ds[0] as nat == low);
        assert forall|i: int| 0 <= i < ds.len() implies (#[trigger] ds[i] as nat) < base by {
            if i > 0 {
                assert(ds[i] == rest[i - 1]);
            }
        }
        if rest.len() == 0 {
            if n / base > 0 {
                assert(digits_of(n / base, base).len() > 0);
            }
            let q = n / base;
            let r = n % base;
            assert(r == n) by (nonlinear_arith)
                requires q == 0, n == base * q + r;
        } else {
            assert(ds.last() == rest.last());
        }
        assert(limbs_value(ds, base) == ds[0] as nat + base * limbs_value(ds.skip(1), base));
    }
}

proof fn lemma_be_value_reversed(s: Seq<u8>)
    ensures
        be_value(s) == limbs_value(s.reverse(), 256),
    decreases s.len(),
{
    if s.len() > 0 {
        lemma_be_value_reversed(s.drop_last());
        assert(s.reverse().skip(1) =~= s.drop_last().reverse());
        assert(s.reverse()[0] == s.last());
    }
}

proof fn lemma_b58_value_of_digits(ds: Seq<u8>)
    requires
        forall|i: int| 0 <= i < ds.len() ==> (#[trigger] ds[i] as nat) < 58,
    ensures
        b58_value(ds.reverse().map_values(|d: u8| b58_char(d as nat))) == limbs_value(ds, 58),
    decreases ds.len(),
{
    if ds.len() > 0 {
        let rest = ds.skip(1);
        assert forall|i: int| 0 <= i < rest.len() implies (#[trigger] rest[i] as nat) < 58 by {
            assert(rest[i] == ds[i + 1]);
        }
        lemma_b58_value_of_digits(rest);
        let t = ds.reverse().map_values(|d: u8| b58_char(d as nat));
        assert(t.drop_last() =~= rest.reverse().map_values(|d: u8| b58_char(d as nat)));
        assert(t.last() == b58_char(ds[0] as nat));
        lemma_b58_char_reads(ds[0] as nat);
    }
}

proof fn lemma_leading_facts<T>(s: Seq<T>, x: T)
    ensures
        leading(s, x) <= s.len(),
        forall|j: int| 0 <= j < leading(s, x) ==> s[j] == x,
        leading(s, x) < s.len() ==> s[leading(s, x) as int] != x,
    decreases s.len(),
{
    if s.len() > 0 && s[0] == x {
        lemma_leading_facts(s.skip(1), x);
        assert forall|j: int| 0 <= j < leading(s, x) implies s[j] == x by {
            if j > 0 {
                assert(s[j] == s.skip(1)[j - 1]);
            }
        }
        if leading(s, x) < s.len() {
            assert(s[leading(s, x) as int] == s.skip(1)[leading(s.skip(1), x) as int]);
        }
    }
}

/// The base58 of some bytes is all alphabet, holds no white space, and
/// leads with exactly as many `1`s as the bytes lead with zeros.
proof fn lemma_text_shape(bytes: Seq<u8>)
    ensures
        all_b58(base58_text(bytes)),
        without_white(base58_text(bytes)) == base58_text(bytes),
        leading(base58_text(bytes), '1') == leading(bytes, 0u8),
{
    let zeros = leading(bytes, 0u8);
    lemma_leading_facts(bytes, 0u8);
    let tail = bytes.skip(zeros as int);
    let ds = digits_of(be_value(tail), 58);
    lemma_digits_canonical(be_value(tail), 58);
    let digit_text = ds.reverse().map_values(|d: u8| b58_char(d as nat));
    let t = base58_text(bytes);
    assert(t == Seq::new(zeros, |i: int| '1') + digit_text);
    assert forall|i: int| 0 <= i < t.len() implies b58_index(#[trigger] t[i]) is Some && !is_white(t[i]) by {
        if i < zeros {
            assert(t[i] == '1');
        } else {
            let k = i - zeros;
            assert(t[i] == digit_text[k]);
            assert(digit_text[k] == b58_char(ds[ds.len() - 1 - k] as nat));
            lemma_b58_char_reads(ds[ds.len() - 1 - k] as nat);
        }
    }
    lemma_without_white_none(t);
    lemma_leading_step(t, '1', zeros as int);
    assert(t.skip(zeros as int) =~= digit_text);
    if digit_text.len() > 0 {
        assert(digit_text[0] == b58_char(ds.last() as nat));
        lemma_b58_char_reads(ds.last() as nat);
    }
    assert(leading(digit_text, '1') == 0);
}

/// The digits after the leading `1`s read back to the bytes after the
/// leading zeros.
proof fn lemma_tail_reads(bytes: Seq<u8>)
    ensures
        digits_of(b58_value(base58_text(bytes).skip(leading(bytes, 0u8) as int)), 256).reverse()
            == bytes.skip(leading(bytes, 0u8) as int),
{
    let zeros = leading(bytes, 0u8);
    lemma_leading_facts(bytes, 0u8);
    let tail = bytes.skip(zeros as int);
    let v = be_value(tail);
    let ds = digits_of(v, 58);
    lemma_digits_canonical(v, 58);
    let digit_text = ds.reverse().map_values(|d: u8| b58_char(d as nat));
    let t = base58_text(bytes);
    assert(t == Seq::new(zeros, |i: int| '1') + digit_text);
    assert(t.skip(zeros as int) =~= digit_text);
    lemma_b58_value_of_digits(ds);
    lemma_be_value_reversed(tail);
    let rt = tail.reverse();
    if tail.len() > 0 {
        assert(tail[0] == bytes[zeros as int]);
        assert(rt.last() == tail[0]);
    }
    assert forall|i: int| 0 <= i < rt.len() implies (#[trigger] rt[i] as nat) < 256 by {}
    assert(canonical(rt, 256));
    crate::std_lib::radix::lemma_canonical_unique(rt, 256);
    assert(rt.reverse() =~= tail);
}

/// Decoding what base58 encoding wrote gives the bytes back, whichever
/// function the decoding names in its errors.
pub proof fn base58_round_trips(bytes: Seq<u8>, what: Seq<char>)
    ensures
        base58_decoded(base58_text(bytes), what) == Ok::<Seq<u8>, Seq<char>>(bytes),
{
    let zeros = leading(bytes, 0u8);
    lemma_leading_facts(bytes, 0u8);
    lemma_text_shape(bytes);
    lemma_tail_reads(bytes);
    let tail = bytes.skip(zeros as int);
    assert(Seq::new(zeros, |i: int| 0u8) + tail =~= bytes);
}

/// Decoding the base58 of a text gives the text back.
pub proof fn base58_text_round_trips(text: Seq<char>)
    ensures
        decode_result(base58_text(vstd::utf8::encode_utf8(text))) == Ok::<Seq<char>, Seq<char>>(text),
{
    base58_round_trips(vstd::utf8::encode_utf8(text), "base58_decode"@);
    vstd::utf8::encode_utf8_valid_utf8(text);
    vstd::utf8::encode_utf8_decode_utf8(text);
}


/// White space anywhere in base58 is forgiven: any text that is an encoding
/// once its white space is taken out decodes to the encoded bytes.
pub proof fn base58_forgives_white_space(bytes: Seq<u8>, spaced: Seq<char>, what: Seq<char>)
    requires
        without_white(spaced) == base58_text(bytes),
    ensures
        base58_decoded(spaced, what) == Ok::<Seq<u8>, Seq<char>>(bytes),
{
    lemma_text_shape(bytes);
    base58_round_trips(bytes, what);
}


/// The Bitcoin base58 alphabet.
pub open spec fn bitcoin_alphabet() -> Seq<char> {
    "123456789ABCDEFGHJKLMNPQRSTUVWXYZabcdefghijkmnopqrstuvwxyz"@
}

/// The digits are the Bitcoin alphabet's, in its order, and reading a
/// character gives back its place in it; a character outside it reads as
/// nothing.
pub proof fn the_digits_are_the_bitcoin_alphabet(d: nat, c: char)
    ensures
        bitcoin_alphabet().len() == 58,
        d < 58 ==> b58_char(d) == bitcoin_alphabet()[d as int],
        d < 58 ==> b58_index(bitcoin_alphabet()[d as int]) == Some(d),
        b58_index(c) matches Some(v) ==> v < 58 && bitcoin_alphabet()[v as int] == c,
{
    reveal_strlit("123456789ABCDEFGHJKLMNPQRSTUVWXYZabcdefghijkmnopqrstuvwxyz");
    let alpha = bitcoin_alphabet();
    assert(alpha.len() == 58);
        assert(b58_char(0) == '1' && b58_index('1') == Some(0nat));
        assert(b58_char(1) == '2' && b58_index('2') == Some(1nat));
        assert(b58_char(2) == '3' && b58_index('3') == Some(2nat));
        assert(b58_char(3) == '4' && b58_index('4') == Some(3nat));
        assert(b58_char(4) == '5' && b58_index('5') == Some(4nat));
        assert(b58_char(5) == '6' && b58_index('6') == Some(5nat));
        assert(b58_char(6) == '7' && b58_index('7') == Some(6nat));
        assert(b58_char(7) == '8' && b58_index('8') == Some(7nat));
        assert(b58_char(8) == '9' && b58_index('9') == Some(8nat));
        assert(b58_char(9) == 'A' && b58_index('A') == Some(9nat));
        assert(b58_char(10) == 'B' && b58_index('B') == Some(10nat));
        assert(b58_char(11) == 'C' && b58_index('C') == Some(11nat));
        assert(b58_char(12) == 'D' && b58_index('D') == Some(12nat));
        assert(b58_char(13) == 'E' && b58_index('E') == Some(13nat));
        assert(b58_char(14) == 'F' && b58_index('F') == Some(14nat));
        assert(b58_char(15) == 'G' && b58_index('G') == Some(15nat));
        assert(b58_char(16) == 'H' && b58_index('H') == Some(16nat));
        assert(b58_char(17) == 'J' && b58_index('J') == Some(17nat));
        assert(b58_char(18) == 'K' && b58_index('K') == Some(18nat));
        assert(b58_char(19) == 'L' && b58_index('L') == Some(19nat));
        assert(b58_char(20) == 'M' && b58_index('M') == Some(20nat));
        assert(b58_char(21) == 'N' && b58_index('N') == Some(21nat));
        assert(b58_char(22) == 'P' && b58_index('P') == Some(22nat));
        assert(b58_char(23) == 'Q' && b58_index('Q') == Some(23nat));
        assert(b58_char(24) == 'R' && b58_index('R') == Some(24nat));
        assert(b58_char(25) == 'S' && b58_index('S') == Some(25nat));
        assert(b58_char(26) == 'T' && b58_index('T') == Some(26nat));
        assert(b58_char(27) == 'U' && b58_index('U') == Some(27nat));
        assert(b58_char(28) == 'V' && b58_index('V') == Some(28nat));
        assert(b58_char(29) == 'W' && b58_index('W') == Some(29nat));
        assert(b58_char(30) == 'X' && b58_index('X') == Some(30nat));
        assert(b58_char(31) == 'Y' && b58_index('Y') == Some(31nat));
        assert(b58_char(32) == 'Z' && b58_index('Z') == Some(32nat));
        assert(b58_char(33) == 'a' && b58_index('a') == Some(33nat));
        assert(b58_char(34) == 'b' && b58_index('b') == Some(34nat));
        assert(b58_char(35) == 'c' && b58_index('c') == Some(35nat));
        assert(b58_char(36) == 'd' && b58_index('d') == Some(36nat));
        assert(b58_char(37) == 'e' && b58_index('e') == Some(37nat));
        assert(b58_char(38) == 'f' && b58_index('f') == Some(38nat));
        assert(b58_char(39) == 'g' && b58_index('g') == Some(39nat));
        assert(b58_char(40) == 'h' && b58_index('h') == Some(40nat));
        assert(b58_char(41) == 'i' && b58_index('i') == Some(41nat));
        assert(b58_char(42) == 'j' && b58_index('j') == Some(42nat));
        assert(b58_char(43) == 'k' && b58_index('k') == Some(43nat));
        assert(b58_char(44) == 'm' && b58_index('m') == Some(44nat));
        assert(b58_char(45) == 'n' && b58_index('n') == Some(45nat));
        assert(b58_char(46) == 'o' && b58_index('o') == Some(46nat));
        assert(b58_char(47) == 'p' && b58_index('p') == Some(47nat));
        assert(b58_char(48) == 'q' && b58_index('q') == Some(48nat));
        assert(b58_char(49) == 'r' && b58_index('r') == Some(49nat));
        assert(b58_char(50) == 's' && b58_index('s') == Some(50nat));
        assert(b58_char(51) == 't' && b58_index('t') == Some(51nat));
        assert(b58_char(52) == 'u' && b58_index('u') == Some(52nat));
        assert(b58_char(53) == 'v' && b58_index('v') == Some(53nat));
        assert(b58_char(54) == 'w' && b58_index('w') == Some(54nat));
        assert(b58_char(55) == 'x' && b58_index('x') == Some(55nat));
        assert(b58_char(56) == 'y' && b58_index('y') == Some(56nat));
        assert(b58_char(57) == 'z' && b58_index('z') == Some(57nat));
    if d < 58 {
        if d == 0 {
        } else if d == 1 {
        } else if d == 2 {
        } else if d == 3 {
        } else if d == 4 {
        } else if d == 5 {
        } else if d == 6 {
        } else if d == 7 {
        } else if d == 8 {
        } else if d == 9 {
        } else if d == 10 {
        } else if d == 11 {
        } else if d == 12 {
        } else if d == 13 {
        } else if d == 14 {
        } else if d == 15 {
        } else if d == 16 {
        } else if d == 17 {
        } else if d == 18 {
        } else if d == 19 {
        } else if d == 20 {
        } else if d == 21 {
        } else if d == 22 {
        } else if d == 23 {
        } else if d == 24 {
        } else if d == 25 {
        } else if d == 26 {
        } else if d == 27 {
        } else if d == 28 {
        } else if d == 29 {
        } else if d == 30 {
        } else if d == 31 {
        } else if d == 32 {
        } else if d == 33 {
        } else if d == 34 {
        } else if d == 35 {
        } else if d == 36 {
        } else if d == 37 {
        } else if d == 38 {
        } else if d == 39 {
        } else if d == 40 {
        } else if d == 41 {
        } else if d == 42 {
        } else if d == 43 {
        } else if d == 44 {
        } else if d == 45 {
        } else if d == 46 {
        } else if d == 47 {
        } else if d == 48 {
        } else if d == 49 {
        } else if d == 50 {
        } else if d == 51 {
        } else if d == 52 {
        } else if d == 53 {
        } else if d == 54 {
        } else if d == 55 {
        } else if d == 56 {
        } else if d == 57 {
        }
    }
    if b58_index(c) is Some {
        let v = b58_index(c)->0;
        assert(v < 58);
        let d2 = v;
        if d2 == 0 {
        } else if d2 == 1 {
        } else if d2 == 2 {
        } else if d2 == 3 {
        } else if d2 == 4 {
        } else if d2 == 5 {
        } else if d2 == 6 {
        } else if d2 == 7 {
        } else if d2 == 8 {
        } else if d2 == 9 {
        } else if d2 == 10 {
        } else if d2 == 11 {
        } else if d2 == 12 {
        } else if d2 == 13 {
        } else if d2 == 14 {
        } else if d2 == 15 {
        } else if d2 == 16 {
        } else if d2 == 17 {
        } else if d2 == 18 {
        } else if d2 == 19 {
        } else if d2 == 20 {
        } else if d2 == 21 {
        } else if d2 == 22 {
        } else if d2 == 23 {
        } else if d2 == 24 {
        } else if d2 == 25 {
        } else if d2 == 26 {
        } else if d2 == 27 {
        } else if d2 == 28 {
        } else if d2 == 29 {
        } else if d2 == 30 {
        } else if d2 == 31 {
        } else if d2 == 32 {
        } else if d2 == 33 {
        } else if d2 == 34 {
        } else if d2 == 35 {
        } else if d2 == 36 {
        } else if d2 == 37 {
        } else if d2 == 38 {
        } else if d2 == 39 {
        } else if d2 == 40 {
        } else if d2 == 41 {
        } else if d2 == 42 {
        } else if d2 == 43 {
        } else if d2 == 44 {
        } else if d2 == 45 {
        } else if d2 == 46 {
        } else if d2 == 47 {
        } else if d2 == 48 {
        } else if d2 == 49 {
        } else if d2 == 50 {
        } else if d2 == 51 {
        } else if d2 == 52 {
        } else if d2 == 53 {
        } else if d2 == 54 {
        } else if d2 == 55 {
        } else if d2 == 56 {
        } else if d2 == 57 {
        }
    }
}

} // verus!
