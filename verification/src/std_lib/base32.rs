//! Base32 encoding, RFC 4648 - the alphabet authenticator secrets use.

use vstd::prelude::*;
use vstd::string::StringExecFns;
use crate::std_lib::binary::{bytes_to_hex, hex_message, hex_reading, hex_text, hex_to_bytes, hex_value, lemma_hex_text_front, pair_byte, read_pairs, HexReading};
use crate::std_lib::bits::radix_char;
use crate::text::{is_white, lemma_without_white_none};
use crate::text::{int_text, push_char, text_bytes, usize_to_text, utf8_text};

verus! {

/// The character for a five-bit value: `A` to `Z`, then `2` to `7`.
pub open spec fn b32_char(d: u64) -> char {
    if d < 26 {
        ((d + 65) as u8) as char
    } else {
        ((d + 24) as u8) as char
    }
}

/// Byte `k` of a chunk, zero past its end.
pub open spec fn byte_at(c: Seq<u8>, k: int) -> u64 {
    if 0 <= k < c.len() {
        c[k] as u64
    } else {
        0
    }
}

/// A chunk of up to five bytes as a 40-bit number, first byte highest.
pub open spec fn chunk_value(c: Seq<u8>) -> u64 {
    (byte_at(c, 0) << 32u64) | (byte_at(c, 1) << 24u64) | (byte_at(c, 2) << 16u64) | (byte_at(c, 3) << 8u64) | byte_at(c, 4)
}

/// How many characters carry the bits of a chunk of `n` bytes.
pub open spec fn digit_count(n: nat) -> nat {
    if n == 1 {
        2
    } else if n == 2 {
        4
    } else if n == 3 {
        5
    } else if n == 4 {
        7
    } else {
        8
    }
}

/// One chunk of up to five bytes as eight characters, padded with `=`.
pub open spec fn chunk_text(c: Seq<u8>) -> Seq<char> {
    Seq::new(8, |k: int| if k < digit_count(c.len()) {
        b32_char((chunk_value(c) >> ((35 - 5 * k) as u64)) & 31)
    } else {
        '='
    })
}

/// Bytes in base32, five at a time.
pub open spec fn base32_text(b: Seq<u8>) -> Seq<char>
    decreases b.len(),
{
    if b.len() == 0 {
        Seq::empty()
    } else if b.len() <= 5 {
        chunk_text(b)
    } else {
        chunk_text(b.take(5)) + base32_text(b.skip(5))
    }
}

fn alphabet_char(d: u64) -> (c: char)
    requires
        d < 32,
    ensures
        c == b32_char(d),
{
    if d < 26 {
        ((d as u8) + 65) as char
    } else {
        ((d as u8) + 24) as char
    }
}

fn byte_or_zero(bytes: &[u8], k: usize) -> (r: u64)
    requires
        k <= bytes@.len(),
    ensures
        r == byte_at(bytes@.skip(k as int), 0),
{
    if k < bytes.len() {
        bytes[k] as u64
    } else {
        0
    }
}

/// Bytes as base32, padded the way RFC 4648 asks.
pub(crate) fn encode_bytes(bytes: &[u8]) -> (r: String)
    ensures
        r@ == base32_text(bytes@),
{
    let mut out = String::new();
    let mut i: usize = 0;
    let ghost all = bytes@;
    proof { assert(all.skip(0) == all); }
    while i < bytes.len()
        invariant
            all == bytes@,
            i <= all.len(),
            base32_text(all) == out@ + base32_text(all.skip(i as int)),
        decreases bytes.len() - i,
    {
        let n: usize = if bytes.len() - i < 5 { bytes.len() - i } else { 5 };
        let ghost chunk = all.skip(i as int).take(n as int);
        let b0 = if n > 0 { bytes[i] as u64 } else { 0 };
        let b1 = if n > 1 { bytes[i + 1] as u64 } else { 0 };
        let b2 = if n > 2 { bytes[i + 2] as u64 } else { 0 };
        let b3 = if n > 3 { bytes[i + 3] as u64 } else { 0 };
        let b4 = if n > 4 { bytes[i + 4] as u64 } else { 0 };
        let value = (b0 << 32u64) | (b1 << 24u64) | (b2 << 16u64) | (b3 << 8u64) | b4;
        proof {
            assert(b0 == byte_at(chunk, 0));
            assert(b1 == byte_at(chunk, 1));
            assert(b2 == byte_at(chunk, 2));
            assert(b3 == byte_at(chunk, 3));
            assert(b4 == byte_at(chunk, 4));
            assert(value == chunk_value(chunk));
        }
        let digits: usize = if n == 1 { 2 } else if n == 2 { 4 } else if n == 3 { 5 } else if n == 4 { 7 } else { 8 };
        let ghost before = out@;
        let mut k: usize = 0;
        while k < 8
            invariant
                k <= 8,
                digits == digit_count(chunk.len()),
                value == chunk_value(chunk),
                out@ == before + chunk_text(chunk).take(k as int),
            decreases 8 - k,
        {
            if k < digits {
                let shift: u64 = (35 - 5 * k) as u64;
                let x = value >> shift;
                assert(x & 31u64 < 32u64) by (bit_vector);
                push_char(&mut out, alphabet_char((value >> shift) & 31));
            } else {
                push_char(&mut out, '=');
            }
            proof { assert(out@ == before + chunk_text(chunk).take(k + 1)); }
            k = k + 1;
        }
        proof {
            assert(chunk_text(chunk).take(8) == chunk_text(chunk));
            let rest = all.skip(i as int);
            if rest.len() <= 5 {
                assert(chunk == rest);
                assert(all.skip(i + n) == Seq::<u8>::empty());
            } else {
                assert(rest.skip(5) == all.skip(i + 5));
            }
        }
        i = i + n;
    }
    proof { assert(all.skip(i as int) == Seq::<u8>::empty()); }
    out
}

/// The white space `u8::is_ascii_whitespace` names.
pub open spec fn ascii_space(b: u8) -> bool {
    b == 32 || b == 9 || b == 10 || b == 12 || b == 13
}

/// A byte with its ASCII lower-case letter made upper case.
pub open spec fn ascii_upper(b: u8) -> u8 {
    if 97 <= b <= 122 {
        (b - 32) as u8
    } else {
        b
    }
}

/// The bytes a base32 decoder reads: no white space, no padding, upper case.
pub open spec fn cleaned32(bs: Seq<u8>) -> Seq<u8> {
    bs.filter(|b: u8| !ascii_space(b) && b != 61).map_values(|b: u8| ascii_upper(b))
}

/// Where a byte sits in the base32 alphabet.
pub open spec fn b32_index(b: u8) -> Option<u64> {
    if 65 <= b <= 90 {
        Some((b - 65) as u64)
    } else if 50 <= b <= 55 {
        Some((b - 24) as u64)
    } else {
        None
    }
}

/// Whether every byte is in the alphabet.
pub open spec fn all_b32(c: Seq<u8>) -> bool {
    forall|i: int| 0 <= i < c.len() ==> b32_index(c[i]) is Some
}

/// The first byte outside the alphabet.
pub open spec fn first_bad32(c: Seq<u8>) -> int {
    choose|i: int| 0 <= i < c.len() && b32_index(c[i]) is None && all_b32(c.take(i))
}

/// The number a group of alphabet bytes spells, five bits each.
pub open spec fn group_value(g: Seq<u8>) -> u64
    decreases g.len(),
{
    if g.len() == 0 {
        0
    } else {
        ((group_value(g.drop_last()) << 5u64) | b32_index(g.last())->0) as u64
    }
}

/// The bytes a group of up to eight characters carries.
pub open spec fn group_bytes(g: Seq<u8>) -> Seq<u8> {
    let v = group_value(g) << ((40 - 5 * g.len()) as u64);
    Seq::new(((5 * g.len()) / 8) as nat, |k: int| ((v >> ((32 - 8 * k) as u64)) & 0xff) as u8)
}

/// The bytes of cleaned base32, eight characters at a time.
pub open spec fn decode_groups(c: Seq<u8>) -> Seq<u8>
    decreases c.len(),
{
    if c.len() == 0 {
        Seq::empty()
    } else if c.len() <= 8 {
        group_bytes(c)
    } else {
        group_bytes(c.take(8)) + decode_groups(c.skip(8))
    }
}

/// What decoding base32 text answers, naming `what` in its errors.
pub open spec fn base32_decoded(text: Seq<char>, what: Seq<char>) -> Result<Seq<u8>, Seq<char>> {
    let c = cleaned32(vstd::utf8::encode_utf8(text));
    if !all_b32(c) {
        Err(what + ": `"@ + seq![c[first_bad32(c)] as char] + "` is not a base32 character"@)
    } else if c.len() % 8 == 1 {
        Err(what + ": a base32 group of "@ + int_text(1) + " characters is cut short"@)
    } else {
        Ok(decode_groups(c))
    }
}

fn index_of(b: u8) -> (r: Option<u64>)
    ensures
        r == b32_index(b),
{
    if 65 <= b && b <= 90 {
        Some((b - 65) as u64)
    } else if 50 <= b && b <= 55 {
        Some((b - 24) as u64)
    } else {
        None
    }
}

fn clean(bytes: &Vec<u8>) -> (r: Vec<u8>)
    ensures
        r@ == cleaned32(bytes@),
{
    let mut out: Vec<u8> = Vec::new();
    let mut i: usize = 0;
    while i < bytes.len()
        invariant
            i <= bytes@.len(),
            out@ == cleaned32(bytes@.take(i as int)),
        decreases bytes.len() - i,
    {
        let b = bytes[i];
        proof {
            assert(bytes@.take(i + 1).drop_last() == bytes@.take(i as int));
            reveal_with_fuel(Seq::filter, 1);
            let f = |x: u8| !ascii_space(x) && x != 61;
            assert(bytes@.take(i + 1).filter(f) == if f(b) {
                bytes@.take(i as int).filter(f).push(b)
            } else {
                bytes@.take(i as int).filter(f)
            });
        }
        if !(b == 32 || b == 9 || b == 10 || b == 12 || b == 13) && b != 61 {
            let up = if 97 <= b && b <= 122 { b - 32 } else { b };
            out.push(up);
        }
        i = i + 1;
    }
    proof { assert(bytes@.take(bytes@.len() as int) == bytes@); }
    out
}

proof fn lemma_group_value_bound(g: Seq<u8>)
    requires
        all_b32(g),
        g.len() <= 8,
    ensures
        group_value(g) < (1u64 << (5 * g.len()) as u64),
    decreases g.len(),
{
    if g.len() > 0 {
        let p = g.drop_last();
        assert(all_b32(p)) by {
            assert forall|i: int| 0 <= i < p.len() implies #[trigger] b32_index(p[i]) is Some by {
                assert(p[i] == g[i]);
            }
        }
        lemma_group_value_bound(p);
        let v = group_value(p);
        let d = b32_index(g.last())->0;
        let n = p.len() as u64;
        assert(d < 32);
        assert(v < (1u64 << (5 * n)) && n < 8 && d < 32 ==> ((v << 5u64) | d) < (1u64 << (5 * (n + 1)))) by (bit_vector);
    } else {
        assert(0u64 < (1u64 << 0u64)) by (bit_vector);
    }
}

/// Base32 back to bytes. Case, padding and white space are forgiven; any
/// other character outside the alphabet is an error naming `what`.
#[verifier::rlimit(40)]
pub(crate) fn decode_to_bytes(text: &str, what: &str) -> (r: Result<Vec<u8>, String>)
    ensures
        match (r, base32_decoded(text@, what@)) {
            (Ok(b), Ok(t)) => b@ == t,
            (Err(e), Err(t)) => e@ == t,
            _ => false,
        },
{
    let raw = text_bytes(text);
    let cleaned = clean(&raw);
    let ghost c = cleaned@;
    let mut out: Vec<u8> = Vec::new();
    let mut i: usize = 0;
    proof { assert(c.skip(0) == c); assert(c.take(0) == Seq::<u8>::empty()); }
    while i < cleaned.len()
        invariant
            c == cleaned@,
            c == cleaned32(vstd::utf8::encode_utf8(text@)),
            i <= c.len(),
            all_b32(c.take(i as int)),
            i % 8 == 0 || i == c.len(),
            i == c.len() ==> c.len() % 8 != 1,
            decode_groups(c) == out@ + decode_groups(c.skip(i as int)),
        decreases cleaned.len() - i,
    {
        let n: usize = if cleaned.len() - i < 8 { cleaned.len() - i } else { 8 };
        let ghost g = c.skip(i as int).take(n as int);
        let mut value: u64 = 0;
        let mut k: usize = 0;
        while k < n
            invariant
                k <= n <= 8,
                i + n <= c.len(),
                i % 8 == 0,
                n == 8 || i + n == c.len(),
                c == cleaned@,
                c == cleaned32(vstd::utf8::encode_utf8(text@)),
                g == c.skip(i as int).take(n as int),
                all_b32(c.take(i as int)),
                all_b32(g.take(k as int)),
                value == group_value(g.take(k as int)),
            decreases n - k,
        {
            let b = cleaned[i + k];
            match index_of(b) {
                Some(d) => {
                    proof {
                        assert(g.take(k + 1).drop_last() == g.take(k as int));
                        assert(g[k as int] == b);
                        lemma_group_value_bound(g.take(k as int));
                        let v = value;
                        let kk = k as u64;
                        assert(v < (1u64 << (5 * kk)) && kk < 8 ==> v << 5u64 < 0x100_0000_0000u64) by (bit_vector);
                        assert(all_b32(g.take(k + 1))) by {
                            assert forall|j: int| 0 <= j < k + 1 implies #[trigger] b32_index(g.take(k + 1)[j]) is Some by {
                                if j < k {
                                    assert(g.take(k + 1)[j] == g.take(k as int)[j]);
                                }
                            }
                        }
                    }
                    value = (value << 5u64) | d;
                    k = k + 1;
                },
                None => {
                    let mut message = String::from_str(what);
                    message.append(": `");
                    push_char(&mut message, b as char);
                    message.append("` is not a base32 character");
                    proof {
                        let at = (i + k) as int;
                        assert(c[at] == b);
                        assert forall|j: int| 0 <= j < at implies #[trigger] b32_index(c.take(at)[j]) is Some by {
                            if j < i {
                                assert(c.take(at)[j] == c.take(i as int)[j]);
                            } else {
                                assert(c.take(at)[j] == g.take(k as int)[j - i]);
                            }
                        }
                        assert(!all_b32(c));
                        let f = first_bad32(c);
                        if f < at {
                            assert(c.take(at)[f] == c[f]);
                        } else if f > at {
                            assert(c.take(f)[at] == c[at]);
                        }
                        assert(f == at);
                    }
                    return Err(message);
                },
            }
        }
        proof {
            assert(g.take(n as int) == g);
            assert forall|j: int| 0 <= j < i + n implies #[trigger] b32_index(c.take(i + n)[j]) is Some by {
                if j < i {
                    assert(c.take(i + n)[j] == c.take(i as int)[j]);
                } else {
                    assert(c.take(i + n)[j] == g[j - i]);
                }
            }
        }
        if n == 1 {
            let mut message = String::from_str(what);
            message.append(": a base32 group of ");
            message.append(usize_to_text(n).as_str());
            message.append(" characters is cut short");
            proof {
                assert(i + 1 == c.len());
                assert(c.take(i + 1) == c);
                assert(c.len() % 8 == 1);
            }
            return Err(message);
        }
        let bits: u64 = 5 * n as u64;
        let byte_count: usize = (5 * n) / 8;
        proof { lemma_group_value_bound(g); }
        let shifted = value << (40 - bits);
        let ghost before = out@;
        let mut k: usize = 0;
        while k < byte_count
            invariant
                k <= byte_count,
                n <= 8,
                byte_count == (5 * g.len()) / 8,
                g.len() == n,
                shifted == group_value(g) << ((40 - 5 * g.len()) as u64),
                out@ == before + group_bytes(g).take(k as int),
            decreases byte_count - k,
        {
            let byte = ((shifted >> ((32 - 8 * k) as u64)) & 0xff) as u8;
            out.push(byte);
            proof { assert(out@ == before + group_bytes(g).take(k + 1)); }
            k = k + 1;
        }
        proof {
            assert(group_bytes(g).take(byte_count as int) == group_bytes(g));
            let rest = c.skip(i as int);
            if rest.len() <= 8 {
                assert(g == rest);
                assert(c.skip(i + n) == Seq::<u8>::empty());
            } else {
                assert(rest.skip(8) == c.skip(i + 8));
            }
        }
        i = i + n;
        proof {
            if i < c.len() {
                assert(n == 8);
            }
        }
    }
    proof {
        assert(c.take(c.len() as int) == c);
        assert(c.skip(i as int) == Seq::<u8>::empty());
        assert(c.len() % 8 != 1) by {
            if c.len() % 8 == 1 {
                assert(false);
            }
        }
    }
    Ok(out)
}

/// Text as base32, padded the way RFC 4648 asks.
pub fn encode(text: String) -> (r: String)
    ensures
        r@ == base32_text(vstd::utf8::encode_utf8(text@)),
{
    encode_bytes(text.as_str().as_bytes())
}

/// What decoding base32 back to text answers.
pub open spec fn decode_result(text: Seq<char>) -> Result<Seq<char>, Seq<char>> {
    match base32_decoded(text, "base32_decode"@) {
        Ok(bytes) => if vstd::utf8::valid_utf8(bytes) {
            Ok(vstd::utf8::decode_utf8(bytes))
        } else {
            Err("base32_decode: the decoded bytes are not text"@)
        },
        Err(e) => Err(e),
    }
}

/// Base32 back to text. Case and padding are forgiven; other characters are not.
pub fn decode(text: String) -> (r: Result<String, String>)
    ensures
        match (r, decode_result(text@)) {
            (Ok(s), Ok(t)) => s@ == t,
            (Err(e), Err(t)) => e@ == t,
            _ => false,
        },
{
    let bytes = decode_to_bytes(text.as_str(), "base32_decode")?;
    match utf8_text(bytes) {
        Ok(s) => Ok(s),
        Err(_) => Err(String::from_str("base32_decode: the decoded bytes are not text")),
    }
}

/// Hex bytes as base32 - how a binary secret becomes an authenticator code.
pub fn encode_hex(hex: String) -> (r: Result<String, String>)
    requires
        !(hex_reading(hex@) is Crash),
    ensures
        match hex_reading(hex@) {
            HexReading::Bytes(b) => r is Ok && r->Ok_0@ == base32_text(b),
            other => r is Err && r->Err_0@ == hex_message("base32_encode_hex"@, other),
        },
{
    let bytes = hex_to_bytes(hex.as_str(), "base32_encode_hex")?;
    Ok(encode_bytes(bytes.as_slice()))
}

/// Base32 back to hex bytes, for secrets that were never text.
pub fn decode_hex(text: String) -> (r: Result<String, String>)
    ensures
        match (r, base32_decoded(text@, "base32_decode_hex"@)) {
            (Ok(s), Ok(b)) => s@ == hex_text(b),
            (Err(e), Err(t)) => e@ == t,
            _ => false,
        },
{
    let bytes = decode_to_bytes(text.as_str(), "base32_decode_hex")?;
    Ok(bytes_to_hex(bytes.as_slice()))
}


/// The byte an ASCII character is written with.
pub open spec fn code(ch: char) -> u8 {
    (ch as u32) as u8
}

/// The alphabet bytes a chunk's characters are written with, its padding
/// left out.
pub open spec fn chunk_digits(c: Seq<u8>) -> Seq<u8> {
    Seq::new(digit_count(c.len()), |k: int| code(b32_char((chunk_value(c) >> ((35 - 5 * k) as u64)) & 31)))
}

/// The alphabet bytes of a whole encoding, chunk after chunk.
pub open spec fn all_digits(b: Seq<u8>) -> Seq<u8>
    decreases b.len(),
{
    if b.len() == 0 {
        Seq::empty()
    } else if b.len() <= 5 {
        chunk_digits(b)
    } else {
        chunk_digits(b.take(5)) + all_digits(b.skip(5))
    }
}

proof fn lemma_b32_char_reads(x: u64)
    requires
        x < 32,
    ensures
        (b32_char(x) as u32) < 0x80,
        b32_index(code(b32_char(x))) == Some(x),
        !ascii_space(code(b32_char(x))),
        code(b32_char(x)) != 61,
        ascii_upper(code(b32_char(x))) == code(b32_char(x)),
{
}

proof fn lemma_value_fits(b0: u64, b1: u64, b2: u64, b3: u64, b4: u64)
    by (bit_vector)
    requires
        b0 < 256, b1 < 256, b2 < 256, b3 < 256, b4 < 256,
    ensures
        ((b0 << 32u64) | (b1 << 24u64) | (b2 << 16u64) | (b3 << 8u64) | b4) < 0x100_0000_0000u64,
        (((b0 << 32u64) | (b1 << 24u64) | (b2 << 16u64) | (b3 << 8u64) | b4) >> 32u64) & 0xff == b0,
        (((b0 << 32u64) | (b1 << 24u64) | (b2 << 16u64) | (b3 << 8u64) | b4) >> 24u64) & 0xff == b1,
        (((b0 << 32u64) | (b1 << 24u64) | (b2 << 16u64) | (b3 << 8u64) | b4) >> 16u64) & 0xff == b2,
        (((b0 << 32u64) | (b1 << 24u64) | (b2 << 16u64) | (b3 << 8u64) | b4) >> 8u64) & 0xff == b3,
        (((b0 << 32u64) | (b1 << 24u64) | (b2 << 16u64) | (b3 << 8u64) | b4) >> 0u64) & 0xff == b4,
        (b1 == 0 && b2 == 0 && b3 == 0 && b4 == 0) ==>
            ((((b0 << 32u64) | (b1 << 24u64) | (b2 << 16u64) | (b3 << 8u64) | b4) >> 30u64) << 30u64) == ((b0 << 32u64) | (b1 << 24u64) | (b2 << 16u64) | (b3 << 8u64) | b4),
        (b2 == 0 && b3 == 0 && b4 == 0) ==>
            ((((b0 << 32u64) | (b1 << 24u64) | (b2 << 16u64) | (b3 << 8u64) | b4) >> 20u64) << 20u64) == ((b0 << 32u64) | (b1 << 24u64) | (b2 << 16u64) | (b3 << 8u64) | b4),
        (b3 == 0 && b4 == 0) ==>
            ((((b0 << 32u64) | (b1 << 24u64) | (b2 << 16u64) | (b3 << 8u64) | b4) >> 15u64) << 15u64) == ((b0 << 32u64) | (b1 << 24u64) | (b2 << 16u64) | (b3 << 8u64) | b4),
        (b4 == 0) ==>
            ((((b0 << 32u64) | (b1 << 24u64) | (b2 << 16u64) | (b3 << 8u64) | b4) >> 5u64) << 5u64) == ((b0 << 32u64) | (b1 << 24u64) | (b2 << 16u64) | (b3 << 8u64) | b4),
        ((((b0 << 32u64) | (b1 << 24u64) | (b2 << 16u64) | (b3 << 8u64) | b4) >> 0u64) << 0u64) == ((b0 << 32u64) | (b1 << 24u64) | (b2 << 16u64) | (b3 << 8u64) | b4),
{
}

proof fn lemma_fold_step(v: u64, s: u64, t: u64)
    by (bit_vector)
    requires
        v < 0x100_0000_0000u64,
        t + 5 == s,
        s <= 40,
    ensures
        (((v >> s) << 5u64) | ((v >> t) & 31)) == v >> t,
        v >> 40u64 == 0,
        (v >> t) & 31 < 32,
{
}


proof fn lemma_fold(c: Seq<u8>, j: int)
    requires
        1 <= c.len() <= 5,
        0 <= j <= digit_count(c.len()),
    ensures
        group_value(chunk_digits(c).take(j)) == chunk_value(c) >> ((40 - 5 * j) as u64),
        all_b32(chunk_digits(c).take(j)),
    decreases j,
{
    let g = chunk_digits(c);
    let v = chunk_value(c);
    lemma_value_fits(byte_at(c, 0), byte_at(c, 1), byte_at(c, 2), byte_at(c, 3), byte_at(c, 4));
    if j == 0 {
        lemma_fold_step(v, 5, 0);
        assert(g.take(0) =~= Seq::<u8>::empty());
    } else {
        lemma_fold(c, j - 1);
        let s = (45 - 5 * j) as u64;
        let t = (40 - 5 * j) as u64;
        lemma_fold_step(v, s, t);
        let x = (v >> t) & 31;
        lemma_b32_char_reads(x);
        assert(g.take(j).drop_last() =~= g.take(j - 1));
        assert(g.take(j).last() == g[j - 1]);
        assert(g[j - 1] == code(b32_char(x)));
        assert(all_b32(g.take(j))) by {
            assert forall|i: int| 0 <= i < j implies #[trigger] b32_index(g.take(j)[i]) is Some by {
                if i < j - 1 {
                    assert(g.take(j)[i] == g.take(j - 1)[i]);
                }
            }
        }
    }
}

/// A chunk's alphabet bytes decode to the chunk.
proof fn lemma_digits_decode(c: Seq<u8>)
    requires
        1 <= c.len() <= 5,
    ensures
        all_b32(chunk_digits(c)),
        group_bytes(chunk_digits(c)) == c,
        chunk_digits(c).len() == digit_count(c.len()),
{
    let g = chunk_digits(c);
    let d = digit_count(c.len());
    let v = chunk_value(c);
    lemma_fold(c, d as int);
    assert(g.take(d as int) =~= g);
    let t = (40 - 5 * d) as u64;
    lemma_value_fits(byte_at(c, 0), byte_at(c, 1), byte_at(c, 2), byte_at(c, 3), byte_at(c, 4));
    assert((v >> t) << t == v);
    let bytes = group_bytes(g);
    assert(bytes.len() == c.len());
    assert forall|k: int| 0 <= k < c.len() implies #[trigger] bytes[k] == c[k] by {
        assert(byte_at(c, k) == c[k] as u64);
        if k == 0 {
            assert(((v >> 32u64) & 0xff) == byte_at(c, 0));
        } else if k == 1 {
            assert(((v >> 24u64) & 0xff) == byte_at(c, 1));
        } else if k == 2 {
            assert(((v >> 16u64) & 0xff) == byte_at(c, 2));
        } else if k == 3 {
            assert(((v >> 8u64) & 0xff) == byte_at(c, 3));
        } else {
            assert(((v >> 0u64) & 0xff) == byte_at(c, 4));
        }
    }
    assert(bytes =~= c);
}


proof fn lemma_filter_keeps_all(s: Seq<u8>)
    requires
        forall|i: int| 0 <= i < s.len() ==> !ascii_space(#[trigger] s[i]) && s[i] != 61,
    ensures
        s.filter(|b: u8| !ascii_space(b) && b != 61) == s,
    decreases s.len(),
{
    reveal_with_fuel(Seq::filter, 1);
    if s.len() > 0 {
        let front = s.drop_last();
        assert forall|i: int| 0 <= i < front.len() implies !ascii_space(#[trigger] front[i]) && front[i] != 61 by {
            assert(front[i] == s[i]);
        }
        lemma_filter_keeps_all(front);
        assert(front.push(s.last()) =~= s);
    } else {
        assert(s.filter(|b: u8| !ascii_space(b) && b != 61) =~= s);
    }
}

proof fn lemma_filter_drops_padding(m: nat)
    ensures
        Seq::new(m, |k: int| 61u8).filter(|b: u8| !ascii_space(b) && b != 61) == Seq::<u8>::empty(),
    decreases m,
{
    reveal_with_fuel(Seq::filter, 1);
    if m > 0 {
        lemma_filter_drops_padding((m - 1) as nat);
        assert(Seq::new(m, |k: int| 61u8).drop_last() =~= Seq::new((m - 1) as nat, |k: int| 61u8));
    } else {
        assert(Seq::new(m, |k: int| 61u8) =~= Seq::<u8>::empty());
    }
}

proof fn lemma_cleaned_concat(a: Seq<u8>, b: Seq<u8>)
    ensures
        cleaned32(a + b) == cleaned32(a) + cleaned32(b),
{
    let p = |x: u8| !ascii_space(x) && x != 61;
    Seq::filter_distributes_over_add(a, b, p);
    assert((a.filter(p) + b.filter(p)).map_values(|x: u8| ascii_upper(x))
        =~= a.filter(p).map_values(|x: u8| ascii_upper(x)) + b.filter(p).map_values(|x: u8| ascii_upper(x)));
}

/// A chunk's characters are ASCII, and cleaning their bytes leaves its
/// alphabet bytes.
proof fn lemma_chunk_cleaned(c: Seq<u8>)
    requires
        1 <= c.len() <= 5,
    ensures
        forall|k: int| 0 <= k < chunk_text(c).len() ==> (#[trigger] chunk_text(c)[k] as u32) < 0x80,
        cleaned32(chunk_text(c).map_values(|ch: char| (ch as u32) as u8)) == chunk_digits(c),
{
    let d = digit_count(c.len());
    let v = chunk_value(c);
    let t = chunk_text(c);
    let digits = chunk_digits(c);
    let pads = Seq::new((8 - d) as nat, |k: int| 61u8);
    lemma_value_fits(byte_at(c, 0), byte_at(c, 1), byte_at(c, 2), byte_at(c, 3), byte_at(c, 4));
    assert forall|k: int| 0 <= k < 8 implies (#[trigger] t[k] as u32) < 0x80 by {
        if k < d {
            let s = (40 - 5 * k) as u64;
            let u = (35 - 5 * k) as u64;
            lemma_fold_step(v, s, u);
            lemma_b32_char_reads((v >> u) & 31);
        }
    }
    assert forall|k: int| 0 <= k < d implies !ascii_space(#[trigger] digits[k]) && digits[k] != 61 && ascii_upper(digits[k]) == digits[k] by {
        let s = (40 - 5 * k) as u64;
        let u = (35 - 5 * k) as u64;
        lemma_fold_step(v, s, u);
        lemma_b32_char_reads((v >> u) & 31);
    }
    assert(t.map_values(|ch: char| (ch as u32) as u8) =~= digits + pads);
    lemma_cleaned_concat(digits, pads);
    lemma_filter_keeps_all(digits);
    lemma_filter_drops_padding((8 - d) as nat);
    assert(cleaned32(pads) =~= Seq::<u8>::empty());
    assert(cleaned32(digits) =~= digits);
    assert(cleaned32(digits) + cleaned32(pads) =~= digits);
}

/// An encoding is ASCII, and cleaning its bytes leaves the alphabet bytes of
/// its chunks.
proof fn lemma_text_cleaned(b: Seq<u8>)
    ensures
        forall|k: int| 0 <= k < base32_text(b).len() ==> (#[trigger] base32_text(b)[k] as u32) < 0x80,
        cleaned32(base32_text(b).map_values(|ch: char| (ch as u32) as u8)) == all_digits(b),
    decreases b.len(),
{
    if b.len() == 0 {
        assert(base32_text(b).map_values(|ch: char| (ch as u32) as u8) =~= Seq::<u8>::empty());
        reveal_with_fuel(Seq::filter, 1);
        assert(cleaned32(Seq::<u8>::empty()) =~= Seq::<u8>::empty());
    } else if b.len() <= 5 {
        lemma_chunk_cleaned(b);
    } else {
        let head = b.take(5);
        let rest = b.skip(5);
        lemma_chunk_cleaned(head);
        lemma_text_cleaned(rest);
        let t = base32_text(b);
        assert(t == chunk_text(head) + base32_text(rest));
        assert forall|k: int| 0 <= k < t.len() implies (#[trigger] t[k] as u32) < 0x80 by {
            if k < 8 {
                assert(t[k] == chunk_text(head)[k]);
            } else {
                assert(t[k] == base32_text(rest)[k - 8]);
            }
        }
        assert(t.map_values(|ch: char| (ch as u32) as u8)
            =~= chunk_text(head).map_values(|ch: char| (ch as u32) as u8) + base32_text(rest).map_values(|ch: char| (ch as u32) as u8));
        lemma_cleaned_concat(chunk_text(head).map_values(|ch: char| (ch as u32) as u8), base32_text(rest).map_values(|ch: char| (ch as u32) as u8));
    }
}

/// The alphabet bytes of an encoding decode to the bytes encoded.
proof fn lemma_all_digits_decode(b: Seq<u8>)
    ensures
        all_b32(all_digits(b)),
        decode_groups(all_digits(b)) == b,
        all_digits(b).len() % 8 != 1,
        b.len() > 0 ==> all_digits(b).len() >= 2,
    decreases b.len(),
{
    if b.len() == 0 {
        assert(decode_groups(all_digits(b)) =~= b);
    } else if b.len() <= 5 {
        lemma_digits_decode(b);
    } else {
        let head = b.take(5);
        let rest = b.skip(5);
        lemma_digits_decode(head);
        lemma_all_digits_decode(rest);
        let d = all_digits(b);
        assert(d == chunk_digits(head) + all_digits(rest));
        assert(d.take(8) =~= chunk_digits(head));
        assert(d.skip(8) =~= all_digits(rest));
        assert(all_b32(d)) by {
            assert forall|i: int| 0 <= i < d.len() implies #[trigger] b32_index(d[i]) is Some by {
                if i < 8 {
                    assert(d[i] == chunk_digits(head)[i]);
                } else {
                    assert(d[i] == all_digits(rest)[i - 8]);
                }
            }
        }
        assert(head + rest =~= b);
    }
}

/// Decoding what base32 encoding wrote gives the bytes back, whichever
/// function the decoding names in its errors.
pub proof fn base32_round_trips(bytes: Seq<u8>, what: Seq<char>)
    ensures
        base32_decoded(base32_text(bytes), what) == Ok::<Seq<u8>, Seq<char>>(bytes),
{
    let t = base32_text(bytes);
    lemma_text_cleaned(bytes);
    crate::text::lemma_ascii_utf8(t);
    lemma_all_digits_decode(bytes);
}

/// Decoding the base32 of a text gives the text back.
pub proof fn base32_text_round_trips(text: Seq<char>)
    ensures
        decode_result(base32_text(vstd::utf8::encode_utf8(text))) == Ok::<Seq<char>, Seq<char>>(text),
{
    base32_round_trips(vstd::utf8::encode_utf8(text), "base32_decode"@);
    vstd::utf8::encode_utf8_valid_utf8(text);
    vstd::utf8::encode_utf8_decode_utf8(text);
}


/// An ASCII letter made lower case; other characters as they are.
pub open spec fn ascii_lower(c: char) -> char {
    if 'A' <= c <= 'Z' {
        ((c as u32) + 32) as char
    } else {
        c
    }
}

/// A text made lower case, ASCII letters only, with its `=` signs taken out.
pub open spec fn lowered_unpadded(s: Seq<char>) -> Seq<char>
    decreases s.len(),
{
    if s.len() == 0 {
        s
    } else if s.last() == '=' {
        lowered_unpadded(s.drop_last())
    } else {
        lowered_unpadded(s.drop_last()).push(ascii_lower(s.last()))
    }
}

proof fn lemma_cleaned_one(x: u8)
    ensures
        cleaned32(seq![x]) == if !ascii_space(x) && x != 61 { seq![ascii_upper(x)] } else { Seq::<u8>::empty() },
{
    reveal_with_fuel(Seq::filter, 2);
    assert(seq![x].drop_last() =~= Seq::<u8>::empty());
    let p = |b: u8| !ascii_space(b) && b != 61;
    if p(x) {
        assert(seq![x].filter(p) =~= seq![x]);
        assert(seq![x].filter(p).map_values(|b: u8| ascii_upper(b)) =~= seq![ascii_upper(x)]);
    } else {
        assert(seq![x].filter(p) =~= Seq::<u8>::empty());
        assert(seq![x].filter(p).map_values(|b: u8| ascii_upper(b)) =~= Seq::<u8>::empty());
    }
}

/// Lower-casing an ASCII text and taking out its `=` signs keeps it ASCII
/// and leaves what the decoder reads of it unchanged.
proof fn lemma_lowered_unpadded(s: Seq<char>)
    requires
        forall|i: int| 0 <= i < s.len() ==> (#[trigger] s[i] as u32) < 0x80,
    ensures
        forall|i: int| 0 <= i < lowered_unpadded(s).len() ==> (#[trigger] lowered_unpadded(s)[i] as u32) < 0x80,
        cleaned32(lowered_unpadded(s).map_values(|ch: char| (ch as u32) as u8))
            == cleaned32(s.map_values(|ch: char| (ch as u32) as u8)),
    decreases s.len(),
{
    if s.len() > 0 {
        let front = s.drop_last();
        let c = s.last();
        lemma_lowered_unpadded(front);
        let f = lowered_unpadded(front);
        assert(s.map_values(|ch: char| (ch as u32) as u8) =~= front.map_values(|ch: char| (ch as u32) as u8)
            + seq![(c as u32) as u8]);
        lemma_cleaned_concat(front.map_values(|ch: char| (ch as u32) as u8), seq![(c as u32) as u8]);
        lemma_cleaned_one((c as u32) as u8);
        if c == '=' {
            assert(cleaned32(front.map_values(|ch: char| (ch as u32) as u8)) + Seq::<u8>::empty()
                =~= cleaned32(front.map_values(|ch: char| (ch as u32) as u8)));
        } else {
            let l = ascii_lower(c);
            assert((l as u32) < 0x80);
            assert(lowered_unpadded(s) == f.push(l));
            assert forall|i: int| 0 <= i < f.push(l).len() implies (#[trigger] f.push(l)[i] as u32) < 0x80 by {
                if i < f.len() {
                    assert(f.push(l)[i] == f[i]);
                }
            }
            assert(f.push(l).map_values(|ch: char| (ch as u32) as u8) =~= f.map_values(|ch: char| (ch as u32) as u8)
                + seq![(l as u32) as u8]);
            lemma_cleaned_concat(f.map_values(|ch: char| (ch as u32) as u8), seq![(l as u32) as u8]);
            lemma_cleaned_one((l as u32) as u8);
        }
    } else {
        assert(s.map_values(|ch: char| (ch as u32) as u8) =~= Seq::<u8>::empty());
    }
}

/// Decoding forgives case and padding: what base32 encoding wrote, made
/// lower case and stripped of its `=` signs, still decodes to the bytes.
pub proof fn base32_forgives_case_and_padding(bytes: Seq<u8>, what: Seq<char>)
    ensures
        base32_decoded(lowered_unpadded(base32_text(bytes)), what) == Ok::<Seq<u8>, Seq<char>>(bytes),
{
    let t = base32_text(bytes);
    lemma_text_cleaned(bytes);
    lemma_lowered_unpadded(t);
    crate::text::lemma_ascii_utf8(t);
    crate::text::lemma_ascii_utf8(lowered_unpadded(t));
    base32_round_trips(bytes, what);
}


/// Whether every character is an ASCII hex digit.
pub open spec fn hex_digits_only(h: Seq<char>) -> bool {
    forall|i: int| 0 <= i < h.len() ==> (#[trigger] hex_value(h[i])) is Some
}

proof fn lemma_hex_digit_lowered(a: char)
    requires
        hex_value(a) is Some,
    ensures
        radix_char(hex_value(a)->0) == ascii_lower(a),
        (a as u32) < 0x80,
        !is_white(a),
        hex_value(a)->0 < 16,
{
    let d = hex_value(a)->0;
    if d < 10 {
        assert(radix_char(d) as u32 == d + 48);
    } else {
        assert(radix_char(d) as u32 == d + 87);
    }
}

/// Hex digits read pair by pair spell bytes whose hex text is the digits in
/// lower case.
proof fn lemma_hex_digits_read(h: Seq<char>)
    requires
        hex_digits_only(h),
        h.len() % 2 == 0,
    ensures
        read_pairs(h) is Bytes,
        hex_text(read_pairs(h)->Bytes_0) == h.map_values(|c: char| ascii_lower(c)),
        read_pairs(h)->Bytes_0.len() * 2 == h.len(),
    decreases h.len(),
{
    if h.len() == 0 {
        assert(h.map_values(|c: char| ascii_lower(c)) =~= Seq::<char>::empty());
    } else {
        let a = h[0];
        let b = h[1];
        lemma_hex_digit_lowered(a);
        lemma_hex_digit_lowered(b);
        let rest = h.skip(2);
        assert forall|i: int| 0 <= i < rest.len() implies (#[trigger] hex_value(rest[i])) is Some by {
            assert(rest[i] == h[i + 2]);
        }
        lemma_hex_digits_read(rest);
        let x = hex_value(a)->0;
        let y = hex_value(b)->0;
        let v = (16 * x + y) as u8;
        assert(pair_byte(a, b) == Some(v));
        let tail = read_pairs(rest)->Bytes_0;
        let bytes = seq![v] + tail;
        assert(read_pairs(h) == HexReading::Bytes(bytes));
        assert(bytes.len() > 0);
        lemma_hex_text_front(bytes);
        assert(bytes.skip(1) =~= tail);
        assert(v / 16 == x && v % 16 == y);
        assert(h.map_values(|c: char| ascii_lower(c)) =~= seq![ascii_lower(a), ascii_lower(b)]
            + rest.map_values(|c: char| ascii_lower(c)));
    }
}

/// A hex secret survives the trip through base32: decoding what encoding
/// its bytes wrote gives back the hex digits, in lower case.
pub proof fn hex_secrets_round_trip(hex: Seq<char>, what: Seq<char>)
    requires
        hex_digits_only(hex),
        hex.len() % 2 == 0,
    ensures
        hex_reading(hex) is Bytes,
        base32_decoded(base32_text(hex_reading(hex)->Bytes_0), what) == Ok::<Seq<u8>, Seq<char>>(
            hex_reading(hex)->Bytes_0,
        ),
        hex_text(hex_reading(hex)->Bytes_0) == hex.map_values(|c: char| ascii_lower(c)),
{
    assert forall|i: int| 0 <= i < hex.len() implies !is_white(#[trigger] hex[i]) by {
        lemma_hex_digit_lowered(hex[i]);
    }
    lemma_without_white_none(hex);
    assert forall|i: int| 0 <= i < hex.len() implies (#[trigger] hex[i] as u32) < 0x80 by {
        lemma_hex_digit_lowered(hex[i]);
    }
    crate::text::lemma_ascii_utf8(hex);
    lemma_hex_digits_read(hex);
    base32_round_trips(hex_reading(hex)->Bytes_0, what);
}

} // verus!
