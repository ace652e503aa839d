//! Bit-level operations on whole numbers.
//!
//! Nail's integers are 64-bit and signed, and every function here works on
//! that pattern of 64 bits directly. Shifts and rotations count from bit 0 as
//! the lowest bit. Anything that would shift or index past bit 63 is an error
//! rather than a silently different answer.

use vstd::prelude::*;
use vstd::std_specs::bits::{u64_leading_zeros, u64_trailing_zeros};
use vstd::string::StringExecFns;
use crate::text::{int_text, int_to_text, push_char, usize_to_text};

verus! {

/// The message for a bit index outside 0..64, naming the function asked.
pub open spec fn index_message(function: Seq<char>, index: int) -> Seq<char> {
    function + ": bit "@ + int_text(index) + " is outside the 0 to 63 a whole number has"@
}

/// Whether `index` names one of the 64 bits.
pub open spec fn in_word(index: int) -> bool {
    0 <= index < 64
}

/// The text of an error result, or the empty sequence for a success.
pub open spec fn err_text<T>(r: Result<T, String>) -> Seq<char> {
    match r {
        Ok(_) => Seq::empty(),
        Err(e) => e@,
    }
}

/// Shared guard for the functions that name a single bit.
fn check_index(function: &str, index: i64) -> (r: Result<(), String>)
    ensures
        r is Ok <==> in_word(index as int),
        r is Err ==> err_text(r) == index_message(function@, index as int),
{
    if !(0 <= index && index < 64) {
        let mut message = String::from_str(function);
        message.append(": bit ");
        message.append(int_to_text(index).as_str());
        message.append(" is outside the 0 to 63 a whole number has");
        return Err(message);
    }
    Ok(())
}

/// The bits set in both.
pub fn and(left: i64, right: i64) -> (r: i64)
    ensures
        r == left & right,
{
    left & right
}

/// The bits set in either.
pub fn or(left: i64, right: i64) -> (r: i64)
    ensures
        r == left | right,
{
    left | right
}

/// The bits set in exactly one.
pub fn xor(left: i64, right: i64) -> (r: i64)
    ensures
        r == left ^ right,
{
    left ^ right
}

/// Every bit flipped.
pub fn not(value: i64) -> (r: i64)
    ensures
        r == !value,
{
    !value
}

/// Shift left, filling with zeros. Bits shifted past the top are discarded.
pub fn shift_left(value: i64, places: i64) -> (r: Result<i64, String>)
    ensures
        in_word(places as int) ==> r == Ok::<i64, String>(((value as u64) << (places as u64)) as i64),
        !in_word(places as int) ==> r is Err && err_text(r) == index_message("bits_shift_left"@, places as int),
{
    check_index("bits_shift_left", places)?;
    Ok(((value as u64) << (places as u64)) as i64)
}

/// Shift right, filling with zeros rather than copies of the sign bit.
pub fn shift_right(value: i64, places: i64) -> (r: Result<i64, String>)
    ensures
        in_word(places as int) ==> r == Ok::<i64, String>(((value as u64) >> (places as u64)) as i64),
        !in_word(places as int) ==> r is Err && err_text(r) == index_message("bits_shift_right"@, places as int),
{
    check_index("bits_shift_right", places)?;
    Ok(((value as u64) >> (places as u64)) as i64)
}

/// The 64-bit pattern `x` turned left by `places`: what leaves the top
/// comes back at the bottom.
pub open spec fn rotl(x: u64, places: u64) -> u64 {
    if places == 0 {
        x
    } else {
        (x << places) | (x >> ((64 - places) as u64))
    }
}

/// The 64-bit pattern `x` turned right by `places`.
pub open spec fn rotr(x: u64, places: u64) -> u64 {
    if places == 0 {
        x
    } else {
        (x >> places) | (x << ((64 - places) as u64))
    }
}

/// Rotate left: bits that fall off the top come back at the bottom.
pub fn rotate_left(value: i64, places: i64) -> (r: Result<i64, String>)
    ensures
        in_word(places as int) ==> r == Ok::<i64, String>(rotl(value as u64, places as u64) as i64),
        !in_word(places as int) ==> r is Err && err_text(r) == index_message("bits_rotate_left"@, places as int),
{
    check_index("bits_rotate_left", places)?;
    let x = value as u64;
    let p = places as u64;
    if p == 0 {
        Ok(x as i64)
    } else {
        Ok(((x << p) | (x >> (64 - p))) as i64)
    }
}

/// Rotate right: bits that fall off the bottom come back at the top.
pub fn rotate_right(value: i64, places: i64) -> (r: Result<i64, String>)
    ensures
        in_word(places as int) ==> r == Ok::<i64, String>(rotr(value as u64, places as u64) as i64),
        !in_word(places as int) ==> r is Err && err_text(r) == index_message("bits_rotate_right"@, places as int),
{
    check_index("bits_rotate_right", places)?;
    let x = value as u64;
    let p = places as u64;
    if p == 0 {
        Ok(x as i64)
    } else {
        Ok(((x >> p) | (x << (64 - p))) as i64)
    }
}

/// Whether bit `i` of `x` is set.
pub open spec fn bit_set(x: u64, i: nat) -> bool {
    (x >> (i as u64)) & 1 == 1
}

/// How many of the lowest `n` bits of `x` are set.
pub open spec fn ones_below(x: u64, n: nat) -> nat
    decreases n,
{
    if n == 0 {
        0
    } else {
        ones_below(x, (n - 1) as nat) + if bit_set(x, (n - 1) as nat) { 1nat } else { 0nat }
    }
}

/// How many of the 64 bits are set.
pub open spec fn popcount(x: u64) -> nat {
    ones_below(x, 64)
}

proof fn lemma_ones_below_bound(x: u64, n: nat)
    ensures
        ones_below(x, n) <= n,
    decreases n,
{
    if n > 0 {
        lemma_ones_below_bound(x, (n - 1) as nat);
    }
}

fn popcount_of(x: u64) -> (r: u32)
    ensures
        r == popcount(x),
        r <= 64,
{
    let mut count: u32 = 0;
    let mut i: u64 = 0;
    while i < 64
        invariant
            i <= 64,
            count == ones_below(x, i as nat),
            count <= i,
        decreases 64 - i,
    {
        if (x >> i) & 1 == 1 {
            count = count + 1;
        }
        i = i + 1;
    }
    count
}

/// How many bits are set: the population count.
pub fn count_ones(value: i64) -> (r: i64)
    ensures
        r == popcount(value as u64),
{
    popcount_of(value as u64) as i64
}

/// How many bits are clear.
pub fn count_zeros(value: i64) -> (r: i64)
    ensures
        r == 64 - popcount(value as u64),
{
    64 - popcount_of(value as u64) as i64
}

/// How many zero bits sit above the highest set bit. 64 for zero itself.
pub fn leading_zeros(value: i64) -> (r: i64)
    ensures
        r == u64_leading_zeros(value as u64),
{
    proof { vstd::std_specs::bits::axiom_u64_leading_zeros(value as u64); }
    (value as u64).leading_zeros() as i64
}

/// How many zero bits sit below the lowest set bit. 64 for zero itself.
pub fn trailing_zeros(value: i64) -> (r: i64)
    ensures
        r == u64_trailing_zeros(value as u64),
{
    proof { vstd::std_specs::bits::axiom_u64_trailing_zeros(value as u64); }
    (value as u64).trailing_zeros() as i64
}

/// Whether one particular bit is set, counting from 0 at the lowest.
pub fn get(value: i64, index: i64) -> (r: Result<bool, String>)
    ensures
        in_word(index as int) ==> r == Ok::<bool, String>(bit_set(value as u64, index as nat)),
        !in_word(index as int) ==> r is Err && err_text(r) == index_message("bits_get"@, index as int),
{
    check_index("bits_get", index)?;
    Ok((value as u64) >> (index as u64) & 1 == 1)
}

/// The number with one particular bit turned on or off.
pub fn set(value: i64, index: i64, on: bool) -> (r: Result<i64, String>)
    ensures
        in_word(index as int) && on ==> r == Ok::<i64, String>(((value as u64) | (1u64 << (index as u64))) as i64),
        in_word(index as int) && !on ==> r == Ok::<i64, String>(((value as u64) & !(1u64 << (index as u64))) as i64),
        !in_word(index as int) ==> r is Err && err_text(r) == index_message("bits_set"@, index as int),
{
    check_index("bits_set", index)?;
    let mask = 1u64 << (index as u64);
    if on {
        return Ok(((value as u64) | mask) as i64);
    }
    Ok(((value as u64) & !mask) as i64)
}

/// The digit character for a value below sixteen, lower case.
pub open spec fn radix_char(d: nat) -> char {
    if d < 10 {
        ((d + 48) as u8) as char
    } else {
        ((d + 87) as u8) as char
    }
}

/// A natural number written in base 2 to 16, most significant digit first,
/// with no leading zeros: zero is the single digit `0`.
pub open spec fn radix_digits(n: nat, base: nat) -> Seq<char>
    recommends
        2 <= base <= 16,
    decreases n,
{
    if n < base || base < 2 {
        seq![radix_char(n)]
    } else {
        proof {
            vstd::arithmetic::div_mod::lemma_div_decreases(n as int, base as int);
        }
        radix_digits(n / base, base).push(radix_char(n % base))
    }
}

fn radix_text(n: u64, base: u64) -> (r: String)
    requires
        2 <= base <= 16,
    ensures
        r@ == radix_digits(n as nat, base as nat),
    decreases n,
{
    if n < base {
        let mut s = String::new();
        push_char(&mut s, digit_of(n));
        s
    } else {
        proof {
            vstd::arithmetic::div_mod::lemma_div_decreases(n as int, base as int);
        }
        let mut s = radix_text(n / base, base);
        push_char(&mut s, digit_of(n % base));
        s
    }
}

fn digit_of(d: u64) -> (c: char)
    requires
        d < 16,
    ensures
        c == radix_char(d as nat),
{
    if d < 10 {
        ((d as u8) + 48) as char
    } else {
        ((d as u8) + 87) as char
    }
}

/// The bit pattern written out, most significant bit first, with no leading
/// zeros: 5 is "101" and 0 is "0".
pub fn to_binary(value: i64) -> (r: String)
    ensures
        r@ == radix_digits((value as u64) as nat, 2),
{
    radix_text(value as u64, 2)
}

/// The bit pattern in hex, most significant digit first, with no leading zeros.
pub fn to_hex(value: i64) -> (r: String)
    ensures
        r@ == radix_digits((value as u64) as nat, 16),
{
    radix_text(value as u64, 16)
}

/// The number a string of binary digits spells, most significant first.
pub open spec fn binary_value(s: Seq<char>) -> nat
    decreases s.len(),
{
    if s.len() == 0 {
        0
    } else {
        2 * binary_value(s.drop_last()) + if s.last() == '1' { 1nat } else { 0nat }
    }
}

/// Whether every character is `0` or `1`.
pub open spec fn all_binary(s: Seq<char>) -> bool {
    forall|i: int| 0 <= i < s.len() ==> (s[i] == '0' || s[i] == '1')
}

/// The index of the first character that is not a binary digit.
pub open spec fn first_non_binary(s: Seq<char>) -> int {
    choose|i: int| 0 <= i < s.len() && s[i] != '0' && s[i] != '1' && all_binary(s.take(i))
}

/// What `from_binary` answers for a text, in terms of the text with its
/// underscores removed.
pub open spec fn from_binary_result(text: Seq<char>) -> Result<i64, Seq<char>> {
    let digits = crate::text::without_char(text, '_');
    let byte_count = vstd::utf8::encode_utf8(digits).len();
    if digits.len() == 0 {
        Err("bits_from_binary: the text has no digits in it"@)
    } else if byte_count > 64 {
        Err("bits_from_binary: "@ + int_text(byte_count as int) + " digits is more than the 64 a whole number holds"@)
    } else if !all_binary(digits) {
        Err("bits_from_binary: '"@ + seq![digits[first_non_binary(digits)]] + "' is not a binary digit"@)
    } else {
        Ok((binary_value(digits) as u64) as i64)
    }
}

/// The view of a text result.
pub open spec fn text_result<T>(r: Result<T, String>) -> Result<T, Seq<char>> {
    match r {
        Ok(v) => Ok(v),
        Err(e) => Err(e@),
    }
}

proof fn lemma_binary_value_bound(s: Seq<char>)
    ensures
        binary_value(s) < vstd::arithmetic::power2::pow2(s.len()),
    decreases s.len(),
{
    if s.len() > 0 {
        lemma_binary_value_bound(s.drop_last());
        vstd::arithmetic::power2::lemma_pow2_unfold(s.len());
    } else {
        vstd::arithmetic::power2::lemma2_to64();
    }
}

/// Reads a string of ones and zeros back into a number. Underscores are
/// allowed as separators.
pub fn from_binary(text: String) -> (r: Result<i64, String>)
    ensures
        text_result(r) == from_binary_result(text@),
{
    let digits = crate::text::remove_char(text.as_str(), '_');
    let ghost d = digits@;
    let byte_count = digits.as_str().as_bytes().len();
    if digits.as_str().is_empty() {
        return Err(String::from_str("bits_from_binary: the text has no digits in it"));
    }
    if byte_count > 64 {
        let mut message = String::from_str("bits_from_binary: ");
        message.append(usize_to_text(byte_count).as_str());
        message.append(" digits is more than the 64 a whole number holds");
        return Err(message);
    }
    proof {
        crate::text::lemma_utf8_len_at_least_chars(d);
    }
    let mut value: u64 = 0;
    let ghost mut seen: Seq<char> = Seq::empty();
    for ch in it: digits.as_str().chars()
        invariant
            it.seq() == d,
            d == crate::text::without_char(text@, '_'),
            d.len() <= 64,
            d.len() > 0,
            vstd::utf8::encode_utf8(d).len() <= 64,
            seen == d.take(it.index() as int),
            all_binary(seen),
            value == binary_value(seen),
    {
        if ch != '0' && ch != '1' {
            let mut message = String::from_str("bits_from_binary: '");
            push_char(&mut message, ch);
            message.append("' is not a binary digit");
            proof {
                let i = it.index() as int;
                assert(0 <= i < d.len() && d[i] != '0' && d[i] != '1' && all_binary(d.take(i)));
                assert(!all_binary(d));
                let j = first_non_binary(d);
                if j < i {
                    assert(d.take(i)[j] == d[j]);
                } else if j > i {
                    assert(d.take(j)[i] == d[i]);
                }
                assert(j == i);
                assert(ch == d[i]);
                assert(message@ == "bits_from_binary: '"@ + seq![d[j]] + "' is not a binary digit"@);
                assert(from_binary_result(text@) == Err::<i64, Seq<char>>(message@));
            }
            return Err(message);
        }
        proof {
            let i = it.index() as int;
            assert(d.take(i + 1).drop_last() == d.take(i));
            lemma_binary_value_bound(seen);
            vstd::arithmetic::power2::lemma_pow2_unfold((i + 1) as nat);
            if i + 1 < 64 {
                vstd::arithmetic::power2::lemma_pow2_strictly_increases((i + 1) as nat, 64);
            }
            vstd::arithmetic::power2::lemma2_to64();
            assert(value * 2 + 1 < 0x1_0000_0000_0000_0000);
            seen = d.take(i + 1);
        }
        value = value * 2 + if ch == '1' { 1 } else { 0 };
    }
    proof { assert(d.take(d.len() as int) == d); }
    Ok(value as i64)
}

/// Shared guard for the two field functions: the offset names a real bit, the
/// width is 1 to 63, and the whole field stays inside the 64 bits.
pub open spec fn field_message(function: Seq<char>, offset: int, width: int) -> Option<Seq<char>> {
    if !in_word(offset) {
        Some(index_message(function, offset))
    } else if !(1 <= width <= 63) {
        Some(function + ": a field "@ + int_text(width) + " wide is outside the 1 to 63 a field can be"@)
    } else if offset + width > 64 {
        Some(function + ": a field "@ + int_text(width) + " wide at bit "@ + int_text(offset) + " runs past bit 63"@)
    } else {
        None
    }
}

fn check_field(function: &str, offset: i64, width: i64) -> (r: Result<(), String>)
    ensures
        r is Ok <==> field_message(function@, offset as int, width as int) is None,
        r is Err ==> err_text(r) == field_message(function@, offset as int, width as int)->0,
{
    check_index(function, offset)?;
    if !(1 <= width && width <= 63) {
        let mut message = String::from_str(function);
        message.append(": a field ");
        message.append(int_to_text(width).as_str());
        message.append(" wide is outside the 1 to 63 a field can be");
        return Err(message);
    }
    if offset + width > 64 {
        let mut message = String::from_str(function);
        message.append(": a field ");
        message.append(int_to_text(width).as_str());
        message.append(" wide at bit ");
        message.append(int_to_text(offset).as_str());
        message.append(" runs past bit 63");
        return Err(message);
    }
    Ok(())
}

/// The mask of the lowest `width` bits.
pub open spec fn low_mask(width: u64) -> u64 {
    ((1u64 << width) - 1) as u64
}

/// Reads a bit field out of the number: `width` bits starting at `offset`,
/// counting from bit 0 at the bottom.
pub fn extract(value: i64, offset: i64, width: i64) -> (r: Result<i64, String>)
    ensures
        field_message("bits_extract"@, offset as int, width as int) is None
            ==> r == Ok::<i64, String>((((value as u64) >> (offset as u64)) & low_mask(width as u64)) as i64),
        field_message("bits_extract"@, offset as int, width as int) is Some
            ==> r is Err && err_text(r) == field_message("bits_extract"@, offset as int, width as int)->0,
{
    check_field("bits_extract", offset, width)?;
    let w = width as u64;
    assert(1u64 << w >= 1) by (bit_vector)
        requires
            1 <= w <= 63,
    ;
    let mask = (1u64 << w) - 1;
    Ok((((value as u64) >> (offset as u64)) & mask) as i64)
}

/// Whether `field` fits in `width` bits.
pub open spec fn fits_width(field: i64, width: u64) -> bool {
    (field as u64) & !low_mask(width) == 0
}

/// Writes a bit field into the number: the `width` bits starting at `offset`
/// are cleared and `field` is put there.
pub fn insert(value: i64, offset: i64, width: i64, field: i64) -> (r: Result<i64, String>)
    ensures
        field_message("bits_insert"@, offset as int, width as int) is Some
            ==> r is Err && err_text(r) == field_message("bits_insert"@, offset as int, width as int)->0,
        field_message("bits_insert"@, offset as int, width as int) is None && !fits_width(field, width as u64)
            ==> r is Err && err_text(r) == "bits_insert: "@ + int_text(field as int) + " does not fit in a field "@ + int_text(width as int) + " wide"@,
        field_message("bits_insert"@, offset as int, width as int) is None && fits_width(field, width as u64)
            ==> r == Ok::<i64, String>((((value as u64) & !(low_mask(width as u64) << (offset as u64))) | ((field as u64) << (offset as u64))) as i64),
{
    check_field("bits_insert", offset, width)?;
    let w = width as u64;
    assert(1u64 << w >= 1) by (bit_vector)
        requires
            1 <= w <= 63,
    ;
    let mask = (1u64 << w) - 1;
    if (field as u64) & !mask != 0 {
        let mut message = String::from_str("bits_insert: ");
        message.append(int_to_text(field).as_str());
        message.append(" does not fit in a field ");
        message.append(int_to_text(width).as_str());
        message.append(" wide");
        return Err(message);
    }
    let cleared = (value as u64) & !(mask << (offset as u64));
    Ok((cleared | ((field as u64) << (offset as u64))) as i64)
}

/// Whether the count of one-bits is even or odd: 0 for even, 1 for odd.
pub fn parity(value: i64) -> (r: i64)
    ensures
        r == popcount(value as u64) % 2,
{
    (popcount_of(value as u64) % 2) as i64
}

/// Turning a pattern left and then right by the same number of places, or
/// right and then left, gives it back.
pub proof fn rotations_undo_each_other(value: i64, places: i64)
    requires
        in_word(places as int),
    ensures
        rotr(rotl(value as u64, places as u64), places as u64) == value as u64,
        rotl(rotr(value as u64, places as u64), places as u64) == value as u64,
{
    let x = value as u64;
    let p = places as u64;
    if p > 0 {
        assert((((x << p) | (x >> ((64 - p) as u64))) >> p) | (((x << p) | (x >> ((64 - p) as u64))) << ((64 - p) as u64)) == x)
            by (bit_vector)
            requires
                1 <= p <= 63,
        ;
        assert((((x >> p) | (x << ((64 - p) as u64))) << p) | (((x >> p) | (x << ((64 - p) as u64))) >> ((64 - p) as u64)) == x)
            by (bit_vector)
            requires
                1 <= p <= 63,
        ;
    }
}

/// A field written into a number reads back out as it was written, and every
/// bit outside the field keeps its value.
pub proof fn inserted_field_reads_back(value: i64, offset: i64, width: i64, field: i64)
    requires
        field_message("bits_insert"@, offset as int, width as int) is None,
        fits_width(field, width as u64),
    ensures
        ({
            let inserted = ((value as u64) & !(low_mask(width as u64) << (offset as u64))) | ((field as u64) << (offset as u64));
            &&& ((inserted >> (offset as u64)) & low_mask(width as u64)) == field as u64
            &&& forall|i: nat| i < 64 && !(offset <= i < offset + width) ==> #[trigger] bit_set(inserted, i) == bit_set(value as u64, i)
        }),
{
    let v = value as u64;
    let o = offset as u64;
    let w = width as u64;
    let f = field as u64;
    assert(0 <= offset <= 63 && 1 <= width <= 63 && offset + width <= 64);
    let inserted = (v & !(low_mask(w) << o)) | (f << o);
    assert(((((v & !((((1u64 << w) - 1) as u64) << o)) | (f << o)) >> o) & (((1u64 << w) - 1) as u64)) == f) by (bit_vector)
        requires
            1 <= w <= 63,
            o + w <= 64,
            f & !(((1u64 << w) - 1) as u64) == 0,
    ;
    assert forall|i: nat| i < 64 && !(offset <= i < offset + width) implies #[trigger] bit_set(inserted, i) == bit_set(v, i) by {
        let j = i as u64;
        assert((((((v & !((((1u64 << w) - 1) as u64) << o)) | (f << o)) >> j) & 1) == 1) == (((v >> j) & 1) == 1)) by (bit_vector)
            requires
                1 <= w <= 63,
                o + w <= 64,
                j < 64,
                j < o || j >= o + w,
                f & !(((1u64 << w) - 1) as u64) == 0,
        ;
    }
}

/// The binary digits of a number: at least one, all `0` or `1`, no more than
/// the number's bits, and spelling the number.
proof fn lemma_binary_digits(n: nat, k: nat)
    requires
        n < vstd::arithmetic::power2::pow2(k),
    ensures
        radix_digits(n, 2).len() >= 1,
        radix_digits(n, 2).len() <= if k == 0 { 1 } else { k },
        all_binary(radix_digits(n, 2)),
        binary_value(radix_digits(n, 2)) == n,
    decreases n,
{
    let s = radix_digits(n, 2);
    if n < 2 {
        assert(s == seq![radix_char(n)]);
        assert(s.drop_last() =~= Seq::<char>::empty());
        assert(radix_char(0) == '0' && radix_char(1) == '1') by {
            assert(((0 + 48) as u8) as char == '0');
            assert(((1 + 48) as u8) as char == '1');
        }
        assert(binary_value(s.drop_last()) == 0);
        assert(s.last() == radix_char(n));
    } else {
        vstd::arithmetic::power2::lemma2_to64();
        let half = n / 2;
        assert(k >= 1);
        vstd::arithmetic::power2::lemma_pow2_unfold(k);
        assert(half < vstd::arithmetic::power2::pow2((k - 1) as nat));
        lemma_binary_digits(half, (k - 1) as nat);
        let front = radix_digits(half, 2);
        let d = radix_char(n % 2);
        assert(s == front.push(d));
        assert(s.drop_last() =~= front);
        assert(d == '0' || d == '1') by {
            assert(((0 + 48) as u8) as char == '0');
            assert(((1 + 48) as u8) as char == '1');
        }
        assert(all_binary(s)) by {
            assert forall|i: int| 0 <= i < s.len() implies (s[i] == '0' || s[i] == '1') by {
                if i < front.len() {
                    assert(s[i] == front[i]);
                }
            }
        }
        assert(binary_value(s) == 2 * binary_value(front) + if d == '1' { 1nat } else { 0nat });
        if n % 2 == 1 {
            assert(((1 + 48) as u8) as char == '1');
        } else {
            assert(((0 + 48) as u8) as char != '1');
        }
        assert(binary_value(front) == half);
        assert(2 * half + n % 2 == n);
    }
}

/// Writing a number's bit pattern out in binary and reading it back gives
/// the number.
pub proof fn binary_text_round_trips(value: i64)
    ensures
        from_binary_result(radix_digits((value as u64) as nat, 2)) == Ok::<i64, Seq<char>>(value),
{
    let n = (value as u64) as nat;
    let s = radix_digits(n, 2);
    vstd::arithmetic::power2::lemma2_to64();
    lemma_binary_digits(n, 64);
    crate::text::lemma_without_absent(s, '_');
    crate::text::lemma_ascii_utf8(s);
    assert(vstd::utf8::encode_utf8(s).len() == s.len());
    assert(((value as u64) as i64) == value) by (bit_vector);
}


/// Underscores written anywhere into `to_binary`'s text are ignored: the
/// text itself has none, and any text that is it once its underscores are
/// taken out reads back to the value.
pub proof fn separated_binary_text_round_trips(value: i64, separated: Seq<char>)
    requires
        crate::text::without_char(separated, '_') == radix_digits((value as u64) as nat, 2),
    ensures
        forall|i: int| 0 <= i < radix_digits((value as u64) as nat, 2).len()
            ==> #[trigger] radix_digits((value as u64) as nat, 2)[i] != '_',
        from_binary_result(separated) == Ok::<i64, Seq<char>>(value),
{
    let n = (value as u64) as nat;
    let s = radix_digits(n, 2);
    vstd::arithmetic::power2::lemma2_to64();
    lemma_binary_digits(n, 64);
    assert forall|i: int| 0 <= i < s.len() implies #[trigger] s[i] != '_' by {
        assert(s[i] == '0' || s[i] == '1');
    }
    crate::text::lemma_without_absent(s, '_');
    binary_text_round_trips(value);
}

} // verus!
