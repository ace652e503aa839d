//! Colors as the hex strings the web writes them in. `#1a2b3c` goes in - with
//! or without the `#`, three digits or six, either case - and six lowercase
//! digits always come out.

use vstd::prelude::*;
use vstd::string::StringExecFns;
use crate::std_lib::binary::{bytes_to_hex, hex_digit_value, hex_text, hex_value, lemma_hex_digit};
use crate::std_lib::bits::radix_char;
use crate::std_lib::boolean::{lead_white, trail_white, trimmed};
use crate::text::{int_text, int_to_text, is_white, is_white_char, push_char, usize_to_text};

verus! {

/// The digits of a color: the trimmed text without one leading `#`.
pub open spec fn color_digits(t: Seq<char>) -> Seq<char> {
    if t.len() > 0 && t[0] == '#' {
        t.skip(1)
    } else {
        t
    }
}

/// Three-digit shorthand doubled out to six digits; six digits as they are.
pub open spec fn expanded(d: Seq<char>) -> Seq<char> {
    if d.len() == 3 {
        seq![d[0], d[0], d[1], d[1], d[2], d[2]]
    } else {
        d
    }
}

/// The byte a pair of hex digits spells, if both are hex digits.
pub open spec fn pair_channel(a: char, b: char) -> Option<u8> {
    match (hex_value(a), hex_value(b)) {
        (Some(x), Some(y)) => Some((16 * x + y) as u8),
        _ => None,
    }
}

/// The error for digits that are not a hex byte.
pub open spec fn bad_byte(fn_name: Seq<char>, t: Seq<char>, a: char, b: char) -> Seq<char> {
    fn_name + ": `"@ + t + "` is not a hex color - `"@ + seq![a, b] + "` is not a hex byte"@
}

/// What reading a color answers: its three channels, or the error naming
/// `fn_name`.
pub open spec fn parsed_color(color: Seq<char>, fn_name: Seq<char>) -> Result<(u8, u8, u8), Seq<char>> {
    let t = trimmed(color);
    let d = color_digits(t);
    if d.len() != 3 && d.len() != 6 {
        Err(fn_name + ": `"@ + t + "` is not a hex color - it has "@ + int_text(d.len() as int) + " digits and a color has 3 or 6"@)
    } else {
        let e = expanded(d);
        match (pair_channel(e[0], e[1]), pair_channel(e[2], e[3]), pair_channel(e[4], e[5])) {
            (None, _, _) => Err(bad_byte(fn_name, t, e[0], e[1])),
            (Some(_), None, _) => Err(bad_byte(fn_name, t, e[2], e[3])),
            (Some(_), Some(_), None) => Err(bad_byte(fn_name, t, e[4], e[5])),
            (Some(r), Some(g), Some(b)) => Ok((r, g, b)),
        }
    }
}

/// The one spelling every function here emits: `#` and six lower-case digits.
pub open spec fn color_text(red: u8, green: u8, blue: u8) -> Seq<char> {
    seq!['#'] + hex_text(seq![red, green, blue])
}

fn channel_of(a: char, b: char) -> (r: Option<u8>)
    ensures
        r == pair_channel(a, b),
{
    match (hex_digit_value(a), hex_digit_value(b)) {
        (Some(high), Some(low)) => Some(high * 16 + low),
        _ => None,
    }
}

fn bad_byte_message(fn_name: &str, t: &Vec<char>, a: char, b: char) -> (r: String)
    ensures
        r@ == bad_byte(fn_name@, t@, a, b),
{
    let mut message = String::from_str(fn_name);
    message.append(": `");
    append_chars(&mut message, t);
    message.append("` is not a hex color - `");
    push_char(&mut message, a);
    push_char(&mut message, b);
    message.append("` is not a hex byte");
    message
}

fn append_chars(s: &mut String, cs: &Vec<char>)
    ensures
        final(s)@ == old(s)@ + cs@,
{
    let mut i: usize = 0;
    while i < cs.len()
        invariant
            i <= cs@.len(),
            s@ == old(s)@ + cs@.take(i as int),
        decreases cs.len() - i,
    {
        push_char(s, cs[i]);
        i = i + 1;
        proof { assert(s@ == old(s)@ + cs@.take(i as int)); }
    }
    proof { assert(cs@.take(cs@.len() as int) == cs@); }
}

/// The trimmed characters of a text.
fn trim_chars(text: &str) -> (r: Vec<char>)
    ensures
        r@ == trimmed(text@),
{
    let chars = crate::text::chars_of(text);
    let ghost s = text@;
    let mut start: usize = 0;
    while start < chars.len() && is_white_char(chars[start])
        invariant
            start <= chars@.len(),
            chars@ == s,
            forall|j: int| 0 <= j < start ==> is_white(#[trigger] s[j]),
        decreases chars.len() - start,
    {
        start = start + 1;
    }
    proof {
        crate::std_lib::boolean::lemma_lead_white(s, start as int);
        assert(lead_white(s.skip(start as int)) == 0);
    }
    let ghost rest = s.skip(start as int);
    let mut end: usize = chars.len();
    while end > start && is_white_char(chars[end - 1])
        invariant
            start <= end <= chars@.len(),
            chars@ == s,
            rest == s.skip(start as int),
            forall|j: int| end <= j < s.len() ==> is_white(#[trigger] s[j]),
        decreases end,
    {
        end = end - 1;
    }
    proof {
        let k = s.len() - end;
        assert forall|j: int| rest.len() - k <= j < rest.len() implies is_white(#[trigger] rest[j]) by {
            assert(rest[j] == s[j + start]);
        }
        crate::std_lib::boolean::lemma_trail_white(rest, k);
        if rest.take(rest.len() - k).len() > 0 {
            assert(rest.take(rest.len() - k).last() == s[end - 1]);
        }
        assert(trail_white(rest.take(rest.len() - k)) == 0);
    }
    let mut out: Vec<char> = Vec::new();
    let mut i: usize = start;
    while i < end
        invariant
            start <= i <= end <= s.len(),
            chars@ == s,
            out@ == s.subrange(start as int, i as int),
        decreases end - i,
    {
        out.push(chars[i]);
        i = i + 1;
        proof { assert(out@ == s.subrange(start as int, i as int)); }
    }
    out
}

/// A hex string to its three channels. Forgives a missing `#`, 3-digit
/// shorthand and upper case; anything else is an error naming the caller.
pub fn parse(color: &str, fn_name: &str) -> (r: Result<(u8, u8, u8), String>)
    ensures
        match (r, parsed_color(color@, fn_name@)) {
            (Ok(c), Ok(t)) => c == t,
            (Err(e), Err(t)) => e@ == t,
            _ => false,
        },
{
    let t = trim_chars(color);
    let mut digits: Vec<char> = Vec::new();
    let skip: usize = if t.len() > 0 && t[0] == '#' { 1 } else { 0 };
    let mut i: usize = skip;
    while i < t.len()
        invariant
            skip <= i <= t@.len(),
            skip == 1 ==> t@.len() > 0 && t@[0] == '#',
            skip == 0 ==> !(t@.len() > 0 && t@[0] == '#'),
            digits@ == t@.subrange(skip as int, i as int),
        decreases t.len() - i,
    {
        digits.push(t[i]);
        i = i + 1;
        proof { assert(digits@ == t@.subrange(skip as int, i as int)); }
    }
    proof {
        assert(digits@ == color_digits(t@));
    }
    let n = digits.len();
    if n != 3 && n != 6 {
        let mut message = String::from_str(fn_name);
        message.append(": `");
        append_chars(&mut message, &t);
        message.append("` is not a hex color - it has ");
        message.append(usize_to_text(n).as_str());
        message.append(" digits and a color has 3 or 6");
        return Err(message);
    }
    let e: Vec<char> = if n == 3 {
        let mut v: Vec<char> = Vec::new();
        v.push(digits[0]);
        v.push(digits[0]);
        v.push(digits[1]);
        v.push(digits[1]);
        v.push(digits[2]);
        v.push(digits[2]);
        v
    } else {
        digits
    };
    proof { assert(e@ == expanded(color_digits(t@))); }
    let red = match channel_of(e[0], e[1]) {
        Some(v) => v,
        None => return Err(bad_byte_message(fn_name, &t, e[0], e[1])),
    };
    let green = match channel_of(e[2], e[3]) {
        Some(v) => v,
        None => return Err(bad_byte_message(fn_name, &t, e[2], e[3])),
    };
    let blue = match channel_of(e[4], e[5]) {
        Some(v) => v,
        None => return Err(bad_byte_message(fn_name, &t, e[4], e[5])),
    };
    Ok((red, green, blue))
}

/// Three channels back to the one spelling every function here emits.
pub fn format_hex(red: u8, green: u8, blue: u8) -> (r: String)
    ensures
        r@ == color_text(red, green, blue),
{
    let mut channels: Vec<u8> = Vec::new();
    channels.push(red);
    channels.push(green);
    channels.push(blue);
    let mut out = String::new();
    push_char(&mut out, '#');
    let digits = bytes_to_hex(channels.as_slice());
    out.append(digits.as_str());
    proof { assert(channels@ == seq![red, green, blue]); }
    out
}

/// The error for a channel outside 0 to 255.
pub open spec fn rgb_message(name: Seq<char>, value: int) -> Seq<char> {
    "color_rgb: "@ + name + " is "@ + int_text(value) + " and a channel runs 0 to 255"@
}

/// What `rgb` answers.
pub open spec fn rgb_result(red: i64, green: i64, blue: i64) -> Result<Seq<char>, Seq<char>> {
    if !(0 <= red <= 255) {
        Err(rgb_message("red"@, red as int))
    } else if !(0 <= green <= 255) {
        Err(rgb_message("green"@, green as int))
    } else if !(0 <= blue <= 255) {
        Err(rgb_message("blue"@, blue as int))
    } else {
        Ok(color_text(red as u8, green as u8, blue as u8))
    }
}

fn channel(value: i64, name: &str) -> (r: Result<u8, String>)
    ensures
        0 <= value <= 255 ==> r == Ok::<u8, String>(value as u8),
        !(0 <= value <= 255) ==> (r matches Err(e) && e@ == rgb_message(name@, value as int)),
{
    if !(0 <= value && value <= 255) {
        let mut message = String::from_str("color_rgb: ");
        message.append(name);
        message.append(" is ");
        message.append(int_to_text(value).as_str());
        message.append(" and a channel runs 0 to 255");
        return Err(message);
    }
    Ok(value as u8)
}

/// Build `#rrggbb` from red, green and blue, each 0 to 255. A component
/// outside that range is an error naming which one.
pub fn rgb(red: i64, green: i64, blue: i64) -> (r: Result<String, String>)
    ensures
        match (r, rgb_result(red, green, blue)) {
            (Ok(s), Ok(t)) => s@ == t,
            (Err(e), Err(t)) => e@ == t,
            _ => false,
        },
{
    let red = channel(red, "red")?;
    let green = channel(green, "green")?;
    let blue = channel(blue, "blue")?;
    Ok(format_hex(red, green, blue))
}

/// One channel of a color read out: 0 for red, 1 for green, 2 for blue.
pub open spec fn channel_result(color: Seq<char>, fn_name: Seq<char>, which: int) -> Result<i64, Seq<char>> {
    match parsed_color(color, fn_name) {
        Ok((r, g, b)) => Ok(if which == 0 { r as i64 } else if which == 1 { g as i64 } else { b as i64 }),
        Err(e) => Err(e),
    }
}

/// The text of a result.
pub open spec fn text_result<T>(r: Result<T, String>) -> Result<T, Seq<char>> {
    match r {
        Ok(v) => Ok(v),
        Err(e) => Err(e@),
    }
}

/// The red component of a color, 0 to 255.
pub fn red(color: String) -> (r: Result<i64, String>)
    ensures
        text_result(r) == channel_result(color@, "color_red"@, 0),
{
    let (red, _, _) = parse(color.as_str(), "color_red")?;
    Ok(red as i64)
}

/// The green component of a color, 0 to 255.
pub fn green(color: String) -> (r: Result<i64, String>)
    ensures
        text_result(r) == channel_result(color@, "color_green"@, 1),
{
    let (_, green, _) = parse(color.as_str(), "color_green")?;
    Ok(green as i64)
}

/// The blue component of a color, 0 to 255.
pub fn blue(color: String) -> (r: Result<i64, String>)
    ensures
        text_result(r) == channel_result(color@, "color_blue"@, 2),
{
    let (_, _, blue) = parse(color.as_str(), "color_blue")?;
    Ok(blue as i64)
}

/// Flip every channel to its opposite: 255 minus each component.
pub fn invert(color: String) -> (r: Result<String, String>)
    ensures
        match (r, parsed_color(color@, "color_invert"@)) {
            (Ok(s), Ok((red, green, blue))) => s@ == color_text((255 - red) as u8, (255 - green) as u8, (255 - blue) as u8),
            (Err(e), Err(t)) => e@ == t,
            _ => false,
        },
{
    let (red, green, blue) = parse(color.as_str(), "color_invert")?;
    Ok(format_hex(255 - red, 255 - green, 255 - blue))
}


/// A lower-case hex digit made upper case; other characters as they are.
pub open spec fn upper_digit(c: char) -> char {
    if 'a' <= c <= 'f' {
        ((c as u32) - 32) as char
    } else {
        c
    }
}

/// One way of writing a color: its six digits, in upper case or not, after
/// a `#` or not, with some spaces before and after.
pub open spec fn color_spelling(red: u8, green: u8, blue: u8, upper: bool, hash: bool, before: nat, after: nat) -> Seq<char> {
    let d = hex_text(seq![red, green, blue]);
    let digits = if upper { d.map_values(|c: char| upper_digit(c)) } else { d };
    Seq::new(before, |i: int| ' ') + (if hash { seq!['#'] } else { Seq::<char>::empty() }) + digits + Seq::new(
        after,
        |i: int| ' ',
    )
}

proof fn lemma_digit_pair(v: u8, upper: bool)
    ensures
        ({
            let a = radix_char((v / 16) as nat);
            let b = radix_char((v % 16) as nat);
            let a2 = if upper { upper_digit(a) } else { a };
            let b2 = if upper { upper_digit(b) } else { b };
            &&& pair_channel(a2, b2) == Some(v)
            &&& !is_white(a2) && !is_white(b2) && a2 != '#'
        }),
{
    lemma_hex_digit((v / 16) as nat);
    lemma_hex_digit((v % 16) as nat);
    let a = radix_char((v / 16) as nat);
    let b = radix_char((v % 16) as nat);
    if (v / 16) < 10 {
        assert(a as u32 == (v / 16) + 48);
    } else {
        assert(a as u32 == (v / 16) + 87);
    }
    if (v % 16) < 10 {
        assert(b as u32 == (v % 16) + 48);
    } else {
        assert(b as u32 == (v % 16) + 87);
    }
    assert(16 * (v / 16) + v % 16 == v);
}

proof fn lemma_three_bytes_hex(red: u8, green: u8, blue: u8)
    ensures
        hex_text(seq![red, green, blue]) == seq![
            radix_char((red / 16) as nat),
            radix_char((red % 16) as nat),
            radix_char((green / 16) as nat),
            radix_char((green % 16) as nat),
            radix_char((blue / 16) as nat),
            radix_char((blue % 16) as nat),
        ],
{
    reveal_with_fuel(hex_text, 4);
    assert(seq![red, green, blue].drop_last() =~= seq![red, green]);
    assert(seq![red, green].drop_last() =~= seq![red]);
    assert(seq![red].drop_last() =~= Seq::<u8>::empty());
    assert(hex_text(seq![red, green, blue]) =~= seq![
        radix_char((red / 16) as nat),
        radix_char((red % 16) as nat),
        radix_char((green / 16) as nat),
        radix_char((green % 16) as nat),
        radix_char((blue / 16) as nat),
        radix_char((blue % 16) as nat),
    ]);
}

/// Spaces around a text that starts and ends with something else are what
/// trimming takes off.
proof fn lemma_trim_spaces(core: Seq<char>, before: nat, after: nat)
    requires
        core.len() > 0,
        !is_white(core[0]),
        !is_white(core.last()),
    ensures
        trimmed(Seq::new(before, |i: int| ' ') + core + Seq::new(after, |i: int| ' ')) == core,
{
    let pre = Seq::new(before, |i: int| ' ');
    let post = Seq::new(after, |i: int| ' ');
    let t = pre + core + post;
    assert forall|j: int| 0 <= j < before implies is_white(#[trigger] t[j]) by {
        assert(t[j] == ' ');
    }
    crate::std_lib::boolean::lemma_lead_white(t, before as int);
    assert(t.skip(before as int)[0] == core[0]);
    assert(lead_white(t.skip(before as int)) == 0);
    let u = t.skip(before as int);
    assert(u =~= core + post);
    assert forall|j: int| u.len() - after <= j < u.len() implies is_white(#[trigger] u[j]) by {
        assert(u[j] == ' ');
    }
    crate::std_lib::boolean::lemma_trail_white(u, after as int);
    assert(u.take(u.len() - after) =~= core);
    assert(trail_white(core) == 0);
    assert(trimmed(t) =~= core);
}

/// Reading back a color written by `rgb` gives its channels, whatever the
/// case of its digits, with or without the `#`, and with spaces around it.
pub proof fn a_written_color_reads_back(
    red: u8,
    green: u8,
    blue: u8,
    upper: bool,
    hash: bool,
    before: nat,
    after: nat,
    fn_name: Seq<char>,
)
    ensures
        parsed_color(color_spelling(red, green, blue, upper, hash, before, after), fn_name) == Ok::<
            (u8, u8, u8),
            Seq<char>,
        >((red, green, blue)),
        color_spelling(red, green, blue, false, true, 0, 0) == color_text(red, green, blue),
{
    let d = hex_text(seq![red, green, blue]);
    lemma_three_bytes_hex(red, green, blue);
    lemma_digit_pair(red, upper);
    lemma_digit_pair(green, upper);
    lemma_digit_pair(blue, upper);
    let digits = if upper { d.map_values(|c: char| upper_digit(c)) } else { d };
    let head: Seq<char> = if hash { seq!['#'] } else { Seq::<char>::empty() };
    let core = head + digits;
    assert(digits.len() == 6);
    assert(!is_white(core[0]));
    assert(core.last() == digits[5]);
    lemma_trim_spaces(core, before, after);
    assert(color_spelling(red, green, blue, upper, hash, before, after) == Seq::new(before, |i: int| ' ') + core
        + Seq::new(after, |i: int| ' '));
    if hash {
        assert(color_digits(core) =~= digits);
    } else {
        assert(core =~= digits);
    }
    assert(expanded(digits) == digits);
    assert(seq!['#'] + d =~= Seq::new(0, |i: int| ' ') + seq!['#'] + d + Seq::new(0, |i: int| ' '));
}

/// Inverting a color twice gives it back in the one spelling every function
/// here emits: the second inversion reads what the first wrote, and turns each
/// channel back.
pub proof fn inverting_twice_normalises(color: Seq<char>, red: u8, green: u8, blue: u8, fn_name: Seq<char>)
    requires
        parsed_color(color, fn_name) == Ok::<(u8, u8, u8), Seq<char>>((red, green, blue)),
    ensures
        parsed_color(color_text((255 - red) as u8, (255 - green) as u8, (255 - blue) as u8), fn_name) == Ok::<
            (u8, u8, u8),
            Seq<char>,
        >(((255 - red) as u8, (255 - green) as u8, (255 - blue) as u8)),
        color_text(
            (255 - (255 - red) as u8) as u8,
            (255 - (255 - green) as u8) as u8,
            (255 - (255 - blue) as u8) as u8,
        ) == color_text(red, green, blue),
{
    a_written_color_reads_back((255 - red) as u8, (255 - green) as u8, (255 - blue) as u8, false, true, 0, 0, fn_name);
}


/// Whether a character is a hex digit.
pub open spec fn is_hex_digit(c: char) -> bool {
    hex_value(c) is Some
}

proof fn lemma_hex_digit_not_white(c: char)
    requires
        is_hex_digit(c),
    ensures
        !is_white(c),
        c != '#',
        hex_value(c)->0 < 16,
{
}

/// Three-digit shorthand doubles each digit: `#abc` is `#aabbcc`, each
/// channel seventeen times its digit, and reads the same as the six-digit
/// color written out.
pub proof fn shorthand_doubles_each_digit(a: char, b: char, c: char, fn_name: Seq<char>)
    requires
        is_hex_digit(a),
        is_hex_digit(b),
        is_hex_digit(c),
    ensures
        parsed_color(seq!['#', a, b, c], fn_name) == Ok::<(u8, u8, u8), Seq<char>>((
            (17 * hex_value(a)->0) as u8,
            (17 * hex_value(b)->0) as u8,
            (17 * hex_value(c)->0) as u8,
        )),
        parsed_color(seq!['#', a, b, c], fn_name) == parsed_color(seq!['#', a, a, b, b, c, c], fn_name),
{
    lemma_hex_digit_not_white(a);
    lemma_hex_digit_not_white(b);
    lemma_hex_digit_not_white(c);
    let short = seq!['#', a, b, c];
    let long = seq!['#', a, a, b, b, c, c];
    lemma_trim_spaces(short, 0, 0);
    lemma_trim_spaces(long, 0, 0);
    assert(Seq::new(0, |i: int| ' ') + short + Seq::new(0, |i: int| ' ') =~= short);
    assert(Seq::new(0, |i: int| ' ') + long + Seq::new(0, |i: int| ' ') =~= long);
    assert(color_digits(short) =~= seq![a, b, c]);
    assert(color_digits(long) =~= seq![a, a, b, b, c, c]);
    assert(expanded(seq![a, b, c]) =~= seq![a, a, b, b, c, c]);
}

} // verus!
