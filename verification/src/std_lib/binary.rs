//! Packing and unpacking fixed-width numbers in hex strings.
//!
//! Nail carries binary data as hex text, so these functions are how a program
//! reads a file header or builds a wire packet: unpack numbers out of the hex,
//! pack them back in, and slice or join the pieces in between.

use vstd::prelude::*;
use vstd::string::StringExecFns;
use crate::std_lib::bits::radix_char;
use crate::text::{int_text, int_to_text, push_char, remove_white, u64_to_text, usize_to_text, utf8_width, without_white};

verus! {

/// The value of a hex digit, either case.
pub open spec fn hex_value(c: char) -> Option<nat> {
    if '0' <= c && c <= '9' {
        Some((c as nat - 48) as nat)
    } else if 'a' <= c && c <= 'f' {
        Some((c as nat - 87) as nat)
    } else if 'A' <= c && c <= 'F' {
        Some((c as nat - 55) as nat)
    } else {
        None
    }
}

/// The byte two characters spell when read as base-16 text the way
/// `u8::from_str_radix` reads it: two hex digits, or a `+` sign and one.
pub open spec fn pair_byte(a: char, b: char) -> Option<u8> {
    match (hex_value(a), hex_value(b)) {
        (Some(x), Some(y)) => Some((16 * x + y) as u8),
        (None, Some(y)) => if a == '+' {
            Some(y as u8)
        } else {
            None
        },
        _ => None,
    }
}

/// How hex text reads as bytes.
pub enum HexReading {
    /// Every pair was a byte.
    Bytes(Seq<u8>),
    /// The text holds an odd number of bytes, this many.
    Odd(nat),
    /// The first pair that is not a byte, as written.
    BadPair(Seq<char>),
    /// A pair boundary falls inside a multi-byte character, where slicing the
    /// text by bytes stops the program.
    Crash,
}

/// `out` in front of the bytes of a reading; other readings pass through.
pub open spec fn prefixed(out: Seq<u8>, rest: HexReading) -> HexReading {
    match rest {
        HexReading::Bytes(b) => HexReading::Bytes(out + b),
        other => other,
    }
}

/// Reads the characters two bytes at a time, as slicing the text at every
/// second byte does.
pub open spec fn read_pairs(cs: Seq<char>) -> HexReading
    decreases cs.len(),
{
    if cs.len() == 0 {
        HexReading::Bytes(Seq::empty())
    } else if (cs[0] as u32) < 0x80 {
        if cs.len() < 2 || (cs[1] as u32) >= 0x80 {
            HexReading::Crash
        } else {
            match pair_byte(cs[0], cs[1]) {
                Some(b) => prefixed(seq![b], read_pairs(cs.skip(2))),
                None => HexReading::BadPair(cs.take(2)),
            }
        }
    } else if utf8_width(cs[0]) == 2 {
        HexReading::BadPair(seq![cs[0]])
    } else {
        HexReading::Crash
    }
}

/// How a hex text reads: white space is ignored, the rest must be an even
/// number of bytes, and each pair of them a byte.
pub open spec fn hex_reading(text: Seq<char>) -> HexReading {
    let cleaned = without_white(text);
    let byte_count = vstd::utf8::encode_utf8(cleaned).len();
    if byte_count % 2 != 0 {
        HexReading::Odd(byte_count)
    } else {
        read_pairs(cleaned)
    }
}

/// The error a hex reading that is not bytes is reported with, naming the
/// function that read it.
pub open spec fn hex_message(what: Seq<char>, reading: HexReading) -> Seq<char> {
    match reading {
        HexReading::Odd(n) => what + ": hex text needs an even number of digits, this has "@ + int_text(n as int),
        HexReading::BadPair(p) => what + ": `"@ + p + "` is not a hex byte"@,
        _ => Seq::empty(),
    }
}

pub(crate) fn hex_digit_value(c: char) -> (r: Option<u8>)
    ensures
        match hex_value(c) {
            Some(v) => r == Some(v as u8),
            None => r is None,
        },
        r matches Some(v) ==> v < 16,
{
    if '0' <= c && c <= '9' {
        Some(((c as u32) - 48) as u8)
    } else if 'a' <= c && c <= 'f' {
        Some(((c as u32) - 87) as u8)
    } else if 'A' <= c && c <= 'F' {
        Some(((c as u32) - 55) as u8)
    } else {
        None
    }
}

fn pair_value(a: char, b: char) -> (r: Option<u8>)
    ensures
        r == pair_byte(a, b),
{
    match (hex_digit_value(a), hex_digit_value(b)) {
        (Some(x), Some(y)) => Some(16 * x + y),
        (None, Some(y)) => if a == '+' {
            Some(y)
        } else {
            None
        },
        _ => None,
    }
}

proof fn lemma_read_pairs_step(cs: Seq<char>, i: int)
    requires
        0 <= i < cs.len(),
    ensures
        cs.skip(i)[0] == cs[i],
        i + 1 < cs.len() ==> cs.skip(i)[1] == cs[i + 1],
        i + 2 <= cs.len() ==> cs.skip(i).skip(2) == cs.skip(i + 2),
        i + 2 <= cs.len() ==> cs.skip(i).take(2) == cs.subrange(i, i + 2),
{
}

/// Reads hex text into bytes. White space is skipped; an odd number of bytes
/// or a pair that is not a byte is an error naming `what`. Nothing comes back
/// for text that slicing by bytes would cut inside a character, where reading
/// it stops the program.
pub fn read_hex(hex: &str, what: &str) -> (r: Option<Result<Vec<u8>, String>>)
    ensures
        match hex_reading(hex@) {
            HexReading::Crash => r is None,
            HexReading::Bytes(b) => r is Some && r->0 is Ok && r->0->Ok_0@ == b,
            other => r is Some && r->0 is Err && r->0->Err_0@ == hex_message(what@, other),
        },
{
    let (cleaned, cs) = remove_white(hex);
    let byte_count = cleaned.as_str().as_bytes().len();
    if byte_count % 2 != 0 {
        let mut message = String::from_str(what);
        message.append(": hex text needs an even number of digits, this has ");
        message.append(usize_to_text(byte_count).as_str());
        return Some(Err(message));
    }
    let ghost all = cs@;
    let mut out: Vec<u8> = Vec::new();
    let mut i: usize = 0;
    proof { assert(all.skip(0) == all); }
    while i < cs.len()
        invariant
            all == cs@,
            all == without_white(hex@),
            hex_reading(hex@) == read_pairs(all),
            i <= cs.len(),
            read_pairs(all) == prefixed(out@, read_pairs(all.skip(i as int))),
        decreases cs.len() - i,
    {
        let a = cs[i];
        proof { lemma_read_pairs_step(all, i as int); }
        if (a as u32) < 0x80 {
            if i + 1 >= cs.len() || (cs[i + 1] as u32) >= 0x80 {
                proof { assert(read_pairs(all.skip(i as int)) is Crash); }
                return None;
            }
            let b = cs[i + 1];
            match pair_value(a, b) {
                Some(v) => {
                    proof {
                        let rest = read_pairs(all.skip(i + 2));
                        assert(read_pairs(all.skip(i as int)) == prefixed(seq![v], rest));
                        match rest {
                            HexReading::Bytes(x) => {
                                assert(out@.push(v) + x == out@ + (seq![v] + x));
                            },
                            _ => {},
                        }
                    }
                    out.push(v);
                    i = i + 2;
                },
                None => {
                    let mut message = String::from_str(what);
                    message.append(": `");
                    push_char(&mut message, a);
                    push_char(&mut message, b);
                    message.append("` is not a hex byte");
                    proof {
                        assert(all.skip(i as int).take(2) == seq![a, b]);
                    }
                    return Some(Err(message));
                },
            }
        } else {
            let u = a as u32;
            if u < 0x800 {
                let mut message = String::from_str(what);
                message.append(": `");
                push_char(&mut message, a);
                message.append("` is not a hex byte");
                return Some(Err(message));
            }
            proof { assert(read_pairs(all.skip(i as int)) is Crash); }
            return None;
        }
    }
    proof {
        assert(all.skip(i as int).len() == 0);
        assert(out@ + Seq::<u8>::empty() == out@);
    }
    Some(Ok(out))
}

/// Reads hex text into bytes, for text that reading does not stop on.
pub(crate) fn hex_to_bytes(hex: &str, what: &str) -> (r: Result<Vec<u8>, String>)
    requires
        !(hex_reading(hex@) is Crash),
    ensures
        match hex_reading(hex@) {
            HexReading::Bytes(b) => r is Ok && r->Ok_0@ == b,
            other => r is Err && r->Err_0@ == hex_message(what@, other),
        },
{
    match read_hex(hex, what) {
        Some(r) => r,
        None => Err(String::new()),
    }
}

/// Bytes written as lower-case hex, two digits each.
pub open spec fn hex_text(bytes: Seq<u8>) -> Seq<char>
    decreases bytes.len(),
{
    if bytes.len() == 0 {
        Seq::empty()
    } else {
        hex_text(bytes.drop_last()) + seq![
            radix_char((bytes.last() / 16) as nat),
            radix_char((bytes.last() % 16) as nat),
        ]
    }
}

fn nibble_char(d: u8) -> (c: char)
    requires
        d < 16,
    ensures
        c == radix_char(d as nat),
{
    if d < 10 {
        (d + 48) as char
    } else {
        (d + 87) as char
    }
}

/// Bytes as hex text.
pub fn bytes_to_hex(bytes: &[u8]) -> (r: String)
    ensures
        r@ == hex_text(bytes@),
{
    let mut out = String::new();
    let mut i: usize = 0;
    while i < bytes.len()
        invariant
            i <= bytes@.len(),
            out@ == hex_text(bytes@.take(i as int)),
        decreases bytes.len() - i,
    {
        let b = bytes[i];
        proof { assert(bytes@.take(i + 1).drop_last() == bytes@.take(i as int)); }
        push_char(&mut out, nibble_char(b / 16));
        push_char(&mut out, nibble_char(b % 16));
        i = i + 1;
    }
    proof { assert(bytes@.take(bytes@.len() as int) == bytes@); }
    out
}

/// Whether a byte count names one of the widths a number can be packed in.
pub open spec fn valid_width(byte_count: int) -> bool {
    byte_count == 1 || byte_count == 2 || byte_count == 4 || byte_count == 8
}

/// The error for a width that is not 1, 2, 4 or 8.
pub open spec fn width_message(what: Seq<char>, byte_count: int) -> Seq<char> {
    what + ": a number is 1, 2, 4 or 8 bytes wide, not "@ + int_text(byte_count)
}

pub fn check_width(byte_count: i64, what: &str) -> (r: Result<usize, String>)
    ensures
        valid_width(byte_count as int) ==> r == Ok::<usize, String>(byte_count as usize),
        !valid_width(byte_count as int) ==> r is Err && r->Err_0@ == width_message(what@, byte_count as int),
{
    if byte_count == 1 || byte_count == 2 || byte_count == 4 || byte_count == 8 {
        Ok(byte_count as usize)
    } else {
        let mut message = String::from_str(what);
        message.append(": a number is 1, 2, 4 or 8 bytes wide, not ");
        message.append(int_to_text(byte_count).as_str());
        Err(message)
    }
}

/// Where `width` bytes at `offset` lie in `len` bytes, or the error.
pub open spec fn take_message(what: Seq<char>, len: int, offset: int, width: int) -> Option<Seq<char>> {
    if offset < 0 {
        Some(what + ": the offset can not be negative"@)
    } else if offset + width > len {
        Some(what + ": wanted "@ + int_text(width) + " bytes at offset "@ + int_text(offset) + ", but there are only "@ + int_text(len) + " bytes"@)
    } else {
        None
    }
}

pub fn take_at(bytes: &Vec<u8>, offset: i64, width: u64, what: &str) -> (r: Result<Vec<u8>, String>)
    ensures
        take_message(what@, bytes@.len() as int, offset as int, width as int) is None
            ==> r is Ok && r->Ok_0@ == bytes@.subrange(offset as int, offset + width),
        take_message(what@, bytes@.len() as int, offset as int, width as int) is Some
            ==> r is Err && r->Err_0@ == take_message(what@, bytes@.len() as int, offset as int, width as int)->0,
{
    if offset < 0 {
        let mut message = String::from_str(what);
        message.append(": the offset can not be negative");
        return Err(message);
    }
    let start = offset as u64;
    if (start as u128) + (width as u128) > (bytes.len() as u128) {
        let mut message = String::from_str(what);
        message.append(": wanted ");
        message.append(u64_to_text(width).as_str());
        message.append(" bytes at offset ");
        message.append(int_to_text(offset).as_str());
        message.append(", but there are only ");
        message.append(usize_to_text(bytes.len()).as_str());
        message.append(" bytes");
        return Err(message);
    }
    let start = start as usize;
    let end: usize = start + width as usize;
    let mut out: Vec<u8> = Vec::new();
    let mut i: usize = start;
    while i < end
        invariant
            start <= i <= end,
            end == start + width,
            end <= bytes@.len(),
            out@ == bytes@.subrange(start as int, i as int),
        decreases end - i,
    {
        out.push(bytes[i]);
        i = i + 1;
        proof { assert(out@ == bytes@.subrange(start as int, i as int)); }
    }
    Ok(out)
}

/// Byte `k` of `x`, counting from the least significant.
pub open spec fn le_byte(x: u64, k: nat) -> u8 {
    ((x >> (8 * k) as u64) & 0xff) as u8
}

/// The lowest `width` bytes of `x`, least significant first.
pub open spec fn le_bytes(x: u64, width: nat) -> Seq<u8> {
    Seq::new(width, |k: int| le_byte(x, k as nat))
}

/// Bytes in the order asked for: reversed for big-endian.
pub open spec fn in_order(bytes: Seq<u8>, big_endian: bool) -> Seq<u8> {
    if big_endian {
        bytes.reverse()
    } else {
        bytes
    }
}

/// The smallest and largest values that fit a narrow width: the signed
/// minimum up to the unsigned maximum.
pub open spec fn fits_width(value: int, width: int) -> bool {
    if width == 1 {
        -128 <= value <= 255
    } else if width == 2 {
        -32768 <= value <= 65535
    } else if width == 4 {
        -2147483648 <= value <= 4294967295
    } else {
        true
    }
}

/// What `pack_int` answers.
pub open spec fn pack_int_result(value: i64, byte_count: i64, big_endian: bool) -> Result<Seq<char>, Seq<char>> {
    if !valid_width(byte_count as int) {
        Err(width_message("binary_pack_int"@, byte_count as int))
    } else if !fits_width(value as int, byte_count as int) {
        Err("binary_pack_int: "@ + int_text(value as int) + " does not fit in "@ + int_text(byte_count as int) + " bytes"@)
    } else {
        Ok(hex_text(in_order(le_bytes(value as u64, byte_count as nat), big_endian)))
    }
}

/// The text of a result.
pub open spec fn text_result<T>(r: Result<T, String>) -> Result<T, Seq<char>> {
    match r {
        Ok(v) => Ok(v),
        Err(e) => Err(e@),
    }
}

/// Pack an integer into its hex bytes: 1, 2, 4 or 8 of them, either endian.
pub fn pack_int(value: i64, byte_count: i64, big_endian: bool) -> (r: Result<String, String>)
    ensures
        match (r, pack_int_result(value, byte_count, big_endian)) {
            (Ok(s), Ok(t)) => s@ == t,
            (Err(e), Err(t)) => e@ == t,
            _ => false,
        },
{
    let width = check_width(byte_count, "binary_pack_int")?;
    let fits = if width == 1 {
        -128 <= value && value <= 255
    } else if width == 2 {
        -32768 <= value && value <= 65535
    } else if width == 4 {
        -2147483648 <= value && value <= 4294967295
    } else {
        true
    };
    if !fits {
        let mut message = String::from_str("binary_pack_int: ");
        message.append(int_to_text(value).as_str());
        message.append(" does not fit in ");
        message.append(int_to_text(byte_count).as_str());
        message.append(" bytes");
        return Err(message);
    }
    let x = value as u64;
    let mut bytes: Vec<u8> = Vec::new();
    let mut k: usize = 0;
    while k < width
        invariant
            width <= 8,
            k <= width,
            bytes@ == le_bytes(x, k as nat),
        decreases width - k,
    {
        let b = ((x >> (8 * k) as u64) & 0xff) as u8;
        bytes.push(b);
        k = k + 1;
        proof { assert(bytes@ == le_bytes(x, k as nat)); }
    }
    if big_endian {
        let mut reversed: Vec<u8> = Vec::new();
        let mut j: usize = width;
        while j > 0
            invariant
                j <= width,
                bytes@.len() == width,
                reversed@ == bytes@.reverse().take((width - j) as int),
            decreases j,
        {
            j = j - 1;
            reversed.push(bytes[j]);
            proof { assert(reversed@ == bytes@.reverse().take((width - j) as int)); }
        }
        proof { assert(reversed@ == bytes@.reverse()); }
        return Ok(bytes_to_hex(reversed.as_slice()));
    }
    Ok(bytes_to_hex(bytes.as_slice()))
}

/// The number bytes spell most significant first.
pub open spec fn be_value(bytes: Seq<u8>) -> nat
    decreases bytes.len(),
{
    if bytes.len() == 0 {
        0
    } else {
        be_value(bytes.drop_last()) * 256 + (bytes.last() as nat)
    }
}

/// 256 to the power `n`.
pub open spec fn pow256(n: nat) -> nat
    decreases n,
{
    if n == 0 {
        1
    } else {
        256 * pow256((n - 1) as nat)
    }
}

proof fn lemma_be_value_bound(bytes: Seq<u8>)
    ensures
        be_value(bytes) < pow256(bytes.len()),
    decreases bytes.len(),
{
    if bytes.len() > 0 {
        lemma_be_value_bound(bytes.drop_last());
    }
}

proof fn lemma_pow256_mono(a: nat, b: nat)
    requires
        a <= b,
    ensures
        pow256(a) <= pow256(b),
    decreases b,
{
    if a < b {
        lemma_pow256_mono(a, (b - 1) as nat);
    }
}

/// Half and all of the values a narrow width holds.
pub open spec fn half_range(width: int) -> int {
    if width == 1 {
        128
    } else if width == 2 {
        32768
    } else {
        2147483648
    }
}

/// What `unpack_int` answers.
pub open spec fn unpack_int_result(hex: Seq<char>, offset: i64, byte_count: i64, big_endian: bool, signed: bool) -> Result<i64, Seq<char>> {
    if !valid_width(byte_count as int) {
        Err(width_message("binary_unpack_int"@, byte_count as int))
    } else {
        match hex_reading(hex) {
            HexReading::Bytes(bytes) => {
                match take_message("binary_unpack_int"@, bytes.len() as int, offset as int, byte_count as int) {
                    Some(m) => Err(m),
                    None => {
                        let taken = bytes.subrange(offset as int, offset + byte_count);
                        let raw = be_value(in_order(taken, !big_endian));
                        if signed {
                            if byte_count < 8 && raw >= half_range(byte_count as int) {
                                Ok((raw - 2 * half_range(byte_count as int)) as i64)
                            } else {
                                Ok((raw as u64) as i64)
                            }
                        } else if raw > i64::MAX {
                            Err("binary_unpack_int: "@ + int_text(raw as int) + " is too large for an unsigned read"@)
                        } else {
                            Ok(raw as i64)
                        }
                    },
                }
            },
            other => Err(hex_message("binary_unpack_int"@, other)),
        }
    }
}

fn be_fold(bytes: &Vec<u8>) -> (raw: u64)
    requires
        bytes@.len() <= 8,
    ensures
        raw == be_value(bytes@),
{
    let mut raw: u64 = 0;
    let mut i: usize = 0;
    while i < bytes.len()
        invariant
            bytes@.len() <= 8,
            i <= bytes@.len(),
            raw == be_value(bytes@.take(i as int)),
        decreases bytes.len() - i,
    {
        proof {
            assert(bytes@.take(i + 1).drop_last() == bytes@.take(i as int));
            lemma_be_value_bound(bytes@.take(i as int));
            lemma_pow256_mono(i as nat, 7);
            reveal_with_fuel(pow256, 8);
            assert(pow256(7) == 72057594037927936);
        }
        raw = raw * 256 + bytes[i] as u64;
        i = i + 1;
    }
    proof { assert(bytes@.take(bytes@.len() as int) == bytes@); }
    raw
}

fn reversed(bytes: &Vec<u8>) -> (r: Vec<u8>)
    ensures
        r@ == bytes@.reverse(),
{
    let mut out: Vec<u8> = Vec::new();
    let mut j: usize = bytes.len();
    while j > 0
        invariant
            j <= bytes@.len(),
            out@ == bytes@.reverse().take((bytes@.len() - j) as int),
        decreases j,
    {
        j = j - 1;
        out.push(bytes[j]);
        proof { assert(out@ == bytes@.reverse().take((bytes@.len() - j) as int)); }
    }
    proof { assert(out@ == bytes@.reverse()); }
    out
}

/// Read an integer out of hex bytes at an offset. Signed reads sign-extend;
/// unsigned reads of the full 8 bytes must still fit in Nail's integer.
pub fn unpack_int(hex: String, offset: i64, byte_count: i64, big_endian: bool, signed: bool) -> (r: Result<i64, String>)
    requires
        !(hex_reading(hex@) is Crash),
    ensures
        text_result(r) == unpack_int_result(hex@, offset, byte_count, big_endian, signed),
{
    let width = check_width(byte_count, "binary_unpack_int")?;
    let bytes = hex_to_bytes(hex.as_str(), "binary_unpack_int")?;
    let taken = take_at(&bytes, offset, width as u64, "binary_unpack_int")?;
    let ordered = if big_endian { taken } else { reversed(&taken) };
    let raw = be_fold(&ordered);
    if signed {
        if width < 8 {
            let half: u64 = if width == 1 { 128 } else if width == 2 { 32768 } else { 2147483648 };
            proof {
                lemma_be_value_bound(ordered@);
                reveal_with_fuel(pow256, 5);
                assert(pow256(1) == 256 && pow256(2) == 65536 && pow256(4) == 4294967296);
            }
            if raw >= half {
                return Ok(raw as i64 - 2 * (half as i64));
            }
        }
        return Ok(raw as i64);
    }
    if raw > 9223372036854775807u64 {
        let mut message = String::from_str("binary_unpack_int: ");
        message.append(u64_to_text(raw).as_str());
        message.append(" is too large for an unsigned read");
        return Err(message);
    }
    Ok(raw as i64)
}

/// How many bytes a hex string holds.
pub fn byte_length(hex: String) -> (r: Result<i64, String>)
    requires
        !(hex_reading(hex@) is Crash),
    ensures
        match hex_reading(hex@) {
            HexReading::Bytes(b) => r == Ok::<i64, String>(b.len() as i64),
            other => r is Err && r->Err_0@ == hex_message("binary_byte_length"@, other),
        },
{
    let bytes = hex_to_bytes(hex.as_str(), "binary_byte_length")?;
    Ok(bytes.len() as i64)
}

/// What `slice` answers.
pub open spec fn slice_result(hex: Seq<char>, offset: i64, length: i64) -> Result<Seq<char>, Seq<char>> {
    if length < 0 {
        Err("binary_slice: the length can not be negative"@)
    } else {
        match hex_reading(hex) {
            HexReading::Bytes(bytes) => match take_message("binary_slice"@, bytes.len() as int, offset as int, length as int) {
                Some(m) => Err(m),
                None => Ok(hex_text(bytes.subrange(offset as int, offset + length))),
            },
            other => Err(hex_message("binary_slice"@, other)),
        }
    }
}

/// A run of bytes out of the middle: offset and length are in bytes, not digits.
pub fn slice(hex: String, offset: i64, length: i64) -> (r: Result<String, String>)
    requires
        length < 0 || !(hex_reading(hex@) is Crash),
    ensures
        match (r, slice_result(hex@, offset, length)) {
            (Ok(s), Ok(t)) => s@ == t,
            (Err(e), Err(t)) => e@ == t,
            _ => false,
        },
{
    if length < 0 {
        return Err(String::from_str("binary_slice: the length can not be negative"));
    }
    let bytes = hex_to_bytes(hex.as_str(), "binary_slice")?;
    let taken = take_at(&bytes, offset, length as u64, "binary_slice")?;
    Ok(bytes_to_hex(taken.as_slice()))
}

/// How a list of hex pieces reads when joined: the bytes of all of them, or
/// the first reading that is not bytes.
pub open spec fn concat_reading(parts: Seq<Seq<char>>) -> HexReading
    decreases parts.len(),
{
    if parts.len() == 0 {
        HexReading::Bytes(Seq::empty())
    } else {
        match concat_reading(parts.drop_last()) {
            HexReading::Bytes(b) => prefixed(b, hex_reading(parts.last())),
            other => other,
        }
    }
}

/// The texts of a list of strings.
pub open spec fn texts(parts: Seq<String>) -> Seq<Seq<char>> {
    parts.map_values(|p: String| p@)
}

/// The piece whose reading stops the joined reading: the first one read
/// after a run of pieces that all read as bytes.
pub open spec fn stopping_piece(parts: Seq<Seq<char>>) -> Seq<char>
    decreases parts.len(),
{
    if parts.len() == 0 {
        Seq::empty()
    } else if concat_reading(parts.drop_last()) is Bytes {
        parts.last()
    } else {
        stopping_piece(parts.drop_last())
    }
}

/// Join hex pieces into one, validating each along the way. A piece that
/// slicing by bytes would cut inside a character is refused by name.
pub fn concat(parts: Vec<String>) -> (r: Result<String, String>)
    ensures
        match concat_reading(texts(parts@)) {
            HexReading::Bytes(b) => r is Ok && r->Ok_0@ == hex_text(b),
            HexReading::Crash => r is Err && r->Err_0@ == "binary_concat: `"@ + stopping_piece(texts(parts@))
                + "` is not hex text"@,
            other => r is Err && r->Err_0@ == hex_message("binary_concat"@, other),
        },
{
    let mut joined: Vec<u8> = Vec::new();
    let mut i: usize = 0;
    proof {
        assert forall|j: int| 0 <= j <= parts@.len() implies (concat_reading(texts(parts@).take(j)) is Bytes
            || (concat_reading(texts(parts@)) == concat_reading(texts(parts@).take(j))
                && stopping_piece(texts(parts@)) == stopping_piece(texts(parts@).take(j)))) by {
            lemma_concat_reading_prefix(texts(parts@), j);
        }
        assert(texts(parts@).take(0) == Seq::<Seq<char>>::empty());
    }
    while i < parts.len()
        invariant
            i <= parts@.len(),
            concat_reading(texts(parts@).take(i as int)) == HexReading::Bytes(joined@),
            forall|j: int| i <= j <= parts@.len() ==> (concat_reading(texts(parts@).take(j)) is Bytes
                || (concat_reading(texts(parts@)) == concat_reading(texts(parts@).take(j))
                    && stopping_piece(texts(parts@)) == stopping_piece(texts(parts@).take(j)))),
        decreases parts.len() - i,
    {
        proof {
            assert(texts(parts@).take(i + 1).drop_last() == texts(parts@).take(i as int));
            assert(texts(parts@).take(i + 1).last() == parts@[i as int]@);
        }
        let piece = match read_hex(parts[i].as_str(), "binary_concat") {
            Some(Ok(bytes)) => bytes,
            Some(Err(message)) => {
                return Err(message);
            },
            None => {
                let mut message = String::from_str("binary_concat: `");
                message.append(parts[i].as_str());
                message.append("` is not hex text");
                return Err(message);
            },
        };
        let mut k: usize = 0;
        let ghost before = joined@;
        while k < piece.len()
            invariant
                k <= piece@.len(),
                joined@ == before + piece@.take(k as int),
            decreases piece.len() - k,
        {
            joined.push(piece[k]);
            k = k + 1;
            proof { assert(joined@ == before + piece@.take(k as int)); }
        }
        proof { assert(piece@.take(piece@.len() as int) == piece@); }
        i = i + 1;
    }
    proof { assert(texts(parts@).take(parts@.len() as int) == texts(parts@)); }
    Ok(bytes_to_hex(joined.as_slice()))
}

/// Once a prefix of the pieces fails to read, the whole list fails the same
/// way, stopped by the same piece.
proof fn lemma_concat_reading_prefix(parts: Seq<Seq<char>>, j: int)
    requires
        0 <= j <= parts.len(),
    ensures
        !(concat_reading(parts.take(j)) is Bytes) ==> concat_reading(parts) == concat_reading(parts.take(j))
            && stopping_piece(parts) == stopping_piece(parts.take(j)),
    decreases parts.len() - j,
{
    if j < parts.len() {
        lemma_concat_reading_prefix(parts, j + 1);
        assert(parts.take(j + 1).drop_last() == parts.take(j));
    } else {
        assert(parts.take(j) == parts);
    }
}

/// A hex digit reads back as the value it was written for, and is a single
/// ASCII character that is not white space.
pub(crate) proof fn lemma_hex_digit(d: nat)
    requires
        d < 16,
    ensures
        hex_value(radix_char(d)) == Some(d),
        (radix_char(d) as u32) < 0x80,
        !crate::text::is_white(radix_char(d)),
{
    if d < 10 {
        assert(radix_char(d) as nat == d + 48);
    } else {
        assert(radix_char(d) as nat == d + 87);
    }
}

/// Hex text of bytes, read from the front: the first byte's two digits, then
/// the rest.
pub(crate) proof fn lemma_hex_text_front(b: Seq<u8>)
    requires
        b.len() > 0,
    ensures
        hex_text(b) == seq![radix_char((b[0] / 16) as nat), radix_char((b[0] % 16) as nat)] + hex_text(b.skip(1)),
    decreases b.len(),
{
    if b.len() == 1 {
        assert(b.drop_last() =~= Seq::<u8>::empty());
        assert(b.skip(1) =~= Seq::<u8>::empty());
        assert(hex_text(b.drop_last()) == Seq::<char>::empty());
        assert(hex_text(b.skip(1)) == Seq::<char>::empty());
        assert(hex_text(b) =~= seq![radix_char((b[0] / 16) as nat), radix_char((b[0] % 16) as nat)]);
    } else {
        let front = b.drop_last();
        lemma_hex_text_front(front);
        assert(front.skip(1) =~= b.skip(1).drop_last());
        assert(b.skip(1).last() == b.last());
        assert(front[0] == b[0]);
    }
}

/// What hex text of bytes reads as, character by character.
proof fn lemma_hex_text_reads(b: Seq<u8>)
    ensures
        read_pairs(hex_text(b)) == HexReading::Bytes(b),
        hex_text(b).len() == 2 * b.len(),
        forall|i: int| 0 <= i < hex_text(b).len() ==> (#[trigger] hex_text(b)[i] as u32) < 0x80 && !crate::text::is_white(hex_text(b)[i]),
    decreases b.len(),
{
    if b.len() > 0 {
        let rest = b.skip(1);
        lemma_hex_text_reads(rest);
        lemma_hex_text_front(b);
        let hi = (b[0] / 16) as nat;
        let lo = (b[0] % 16) as nat;
        lemma_hex_digit(hi);
        lemma_hex_digit(lo);
        let cs = hex_text(b);
        assert(cs[0] == radix_char(hi) && cs[1] == radix_char(lo));
        assert(cs.skip(2) =~= hex_text(rest));
        assert(pair_byte(cs[0], cs[1]) == Some(b[0]));
        assert(seq![b[0]] + rest =~= b);
        assert forall|i: int| 0 <= i < cs.len() implies (#[trigger] cs[i] as u32) < 0x80 && !crate::text::is_white(cs[i]) by {
            if i >= 2 {
                assert(cs[i] == hex_text(rest)[i - 2]);
            }
        }
        assert(read_pairs(cs) == prefixed(seq![b[0]], read_pairs(cs.skip(2))));
    } else {
        assert(b =~= Seq::<u8>::empty());
    }
}

/// Bytes written as hex read back as the same bytes.
pub proof fn hex_round_trips(bytes: Seq<u8>)
    ensures
        hex_reading(hex_text(bytes)) == HexReading::Bytes(bytes),
{
    let t = hex_text(bytes);
    lemma_hex_text_reads(bytes);
    crate::text::lemma_without_white_none(t);
    crate::text::lemma_ascii_utf8(t);
    assert(vstd::utf8::encode_utf8(t).len() == t.len());
    assert((2 * bytes.len()) % 2 == 0);
}


proof fn lemma_byte_small(y: u64)
    by (bit_vector)
    ensures
        y & 0xff < 256,
{
}

proof fn lemma_low_bytes(x: u64)
    by (bit_vector)
    ensures
        ((x >> 8u64) & 0xff) * 256 + ((x >> 0u64) & 0xff) == x & 0xffff,
        ((((x >> 24u64) & 0xff) * 256 + ((x >> 16u64) & 0xff)) * 256 + ((x >> 8u64) & 0xff)) * 256 + ((x >> 0u64) & 0xff) == x & 0xffff_ffff,
        (((((((((x >> 56u64) & 0xff) * 256 + ((x >> 48u64) & 0xff)) * 256 + ((x >> 40u64) & 0xff)) * 256
            + ((x >> 32u64) & 0xff)) * 256 + ((x >> 24u64) & 0xff)) * 256 + ((x >> 16u64) & 0xff)) * 256
            + ((x >> 8u64) & 0xff)) * 256 + ((x >> 0u64) & 0xff)) == x,
        (x >> 0u64) & 0xff == x & 0xff,
{
}

proof fn lemma_casts(v: i64)
    by (bit_vector)
    ensures
        -128 <= v < 0 ==> (v as u64) & 0xff == v + 256,
        -32768 <= v < 0 ==> (v as u64) & 0xffff == v + 65536,
        -2147483648 <= v < 0 ==> (v as u64) & 0xffff_ffff == v + 4294967296,
        0 <= v <= 255 ==> (v as u64) & 0xff == v,
        0 <= v <= 65535 ==> (v as u64) & 0xffff == v,
        0 <= v <= 4294967295 ==> (v as u64) & 0xffff_ffff == v,
        0 <= v ==> (v as u64) == v,
        ((v as u64) as i64) == v,
{
}

/// The number the lowest `width` bytes of `x` spell, read most significant
/// first after putting the least significant last.
proof fn lemma_le_value(x: u64, width: nat)
    requires
        valid_width(width as int),
    ensures
        width == 1 ==> be_value(le_bytes(x, width).reverse()) == x & 0xff,
        width == 2 ==> be_value(le_bytes(x, width).reverse()) == x & 0xffff,
        width == 4 ==> be_value(le_bytes(x, width).reverse()) == x & 0xffff_ffff,
        width == 8 ==> be_value(le_bytes(x, width).reverse()) == x,
{
    reveal_with_fuel(be_value, 9);
    lemma_low_bytes(x);
    let s = le_bytes(x, width).reverse();
    assert forall|k: nat| k < 8 implies (#[trigger] le_byte(x, k)) as nat == (x >> (8 * k) as u64) & 0xff by {
        lemma_byte_small(x >> (8 * k) as u64);
    }
    assert(le_byte(x, 0) as nat == (x >> 0u64) & 0xff);
    assert(le_byte(x, 1) as nat == (x >> 8u64) & 0xff);
    assert(le_byte(x, 2) as nat == (x >> 16u64) & 0xff);
    assert(le_byte(x, 3) as nat == (x >> 24u64) & 0xff);
    assert(le_byte(x, 4) as nat == (x >> 32u64) & 0xff);
    assert(le_byte(x, 5) as nat == (x >> 40u64) & 0xff);
    assert(le_byte(x, 6) as nat == (x >> 48u64) & 0xff);
    assert(le_byte(x, 7) as nat == (x >> 56u64) & 0xff);
    if width == 1 {
        assert(s =~= seq![le_byte(x, 0)]);
        assert(s.drop_last() =~= Seq::<u8>::empty());
    } else if width == 2 {
        assert(s =~= seq![le_byte(x, 1), le_byte(x, 0)]);
        assert(s.drop_last() =~= seq![le_byte(x, 1)]);
        assert(s.drop_last().drop_last() =~= Seq::<u8>::empty());
    } else if width == 4 {
        let s3 = seq![le_byte(x, 3)];
        let s2 = seq![le_byte(x, 3), le_byte(x, 2)];
        let s1 = seq![le_byte(x, 3), le_byte(x, 2), le_byte(x, 1)];
        assert(s =~= s1.push(le_byte(x, 0)));
        assert(s.drop_last() =~= s1);
        assert(s1.drop_last() =~= s2);
        assert(s2.drop_last() =~= s3);
        assert(s3.drop_last() =~= Seq::<u8>::empty());
    } else {
        let t1 = seq![le_byte(x, 7)];
        let t2 = t1.push(le_byte(x, 6));
        let t3 = t2.push(le_byte(x, 5));
        let t4 = t3.push(le_byte(x, 4));
        let t5 = t4.push(le_byte(x, 3));
        let t6 = t5.push(le_byte(x, 2));
        let t7 = t6.push(le_byte(x, 1));
        assert(s =~= t7.push(le_byte(x, 0)));
        assert(s.drop_last() =~= t7);
        assert(t7.drop_last() =~= t6);
        assert(t6.drop_last() =~= t5);
        assert(t5.drop_last() =~= t4);
        assert(t4.drop_last() =~= t3);
        assert(t3.drop_last() =~= t2);
        assert(t2.drop_last() =~= t1);
        assert(t1.drop_last() =~= Seq::<u8>::empty());
    }
}

/// Whether a value reads back from a signed read of `width` bytes: any value
/// for eight bytes, else one in the signed range.
pub open spec fn signed_fit(value: int, width: int) -> bool {
    width == 8 || (-half_range(width) <= value < half_range(width))
}

/// Reading back, at offset zero with the same width and byte order, what
/// packing wrote gives the value: a signed read for a value in the signed
/// range, an unsigned read for one that is not negative.
pub proof fn packed_int_reads_back(value: i64, byte_count: i64, big_endian: bool)
    requires
        valid_width(byte_count as int),
        fits_width(value as int, byte_count as int),
    ensures
        pack_int_result(value, byte_count, big_endian) is Ok,
        signed_fit(value as int, byte_count as int) ==>
            unpack_int_result(pack_int_result(value, byte_count, big_endian)->Ok_0, 0, byte_count, big_endian, true) == Ok::<i64, Seq<char>>(value),
        value >= 0 ==>
            unpack_int_result(pack_int_result(value, byte_count, big_endian)->Ok_0, 0, byte_count, big_endian, false) == Ok::<i64, Seq<char>>(value),
{
    let w = byte_count as nat;
    let x = value as u64;
    let le = le_bytes(x, w);
    let packed = in_order(le, big_endian);
    hex_round_trips(packed);
    assert(packed.subrange(0, byte_count as int) =~= packed);
    assert(in_order(packed, !big_endian) =~= le.reverse());
    lemma_le_value(x, w);
    lemma_casts(value);
}


/// The range a width packs: for one, two and four bytes every value from the
/// signed minimum to the unsigned maximum packs, and nothing outside it does;
/// eight bytes take every value. What was packed reads back: unsigned when it
/// is not negative, signed when it is.
pub proof fn every_value_of_a_width_packs(value: i64, byte_count: i64, big_endian: bool)
    requires
        byte_count == 1 || byte_count == 2 || byte_count == 4 || byte_count == 8,
    ensures
        ({
            let ok = if byte_count == 1 {
                -128 <= value < 256
            } else if byte_count == 2 {
                -32768 <= value < 65536
            } else if byte_count == 4 {
                -2147483648 <= value < 4294967296
            } else {
                true
            };
            &&& pack_int_result(value, byte_count, big_endian) is Ok <==> ok
            &&& ok && value >= 0 ==> unpack_int_result(
                pack_int_result(value, byte_count, big_endian)->Ok_0,
                0,
                byte_count,
                big_endian,
                false,
            ) == Ok::<i64, Seq<char>>(value)
            &&& ok && value < 0 ==> unpack_int_result(
                pack_int_result(value, byte_count, big_endian)->Ok_0,
                0,
                byte_count,
                big_endian,
                true,
            ) == Ok::<i64, Seq<char>>(value)
        }),
{
    if fits_width(value as int, byte_count as int) {
        packed_int_reads_back(value, byte_count, big_endian);
    }
}

} // verus!
