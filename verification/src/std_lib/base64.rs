//! Base64 text encoding.
//!
//! Two alphabets are exposed because the wire formats that use base64 disagree
//! about which one they mean. The standard alphabet (`+`, `/`, `=` padding) is
//! what Basic auth headers, data URIs and MIME bodies carry. The URL-safe
//! alphabet (`-`, `_`, no padding) is what JWTs, OAuth tokens and anything
//! travelling inside a URL or filename carry.
//!
//! Decoding accepts padding either way, so a JWT segment that arrived unpadded
//! and a MIME blob that arrived padded both work without the caller having to
//! patch up the string first.

use vstd::prelude::*;
use vstd::string::StringExecFns;
use ::base64::Engine;
use crate::text::utf8_text;

verus! {

/// The character for a six-bit value. The two alphabets differ only in the
/// last two: `+` and `/` in the standard one, `-` and `_` in the URL-safe one.
pub open spec fn b64_char(d: u64, url_safe: bool) -> char {
    if d < 26 {
        ((d + 65) as u8) as char
    } else if d < 52 {
        ((d + 71) as u8) as char
    } else if d < 62 {
        ((d - 4) as u8) as char
    } else if d == 62 {
        if url_safe { '-' } else { '+' }
    } else {
        if url_safe { '_' } else { '/' }
    }
}

/// Byte `k` of a group, zero past its end.
pub open spec fn group_byte(b: Seq<u8>, k: int) -> u64 {
    if 0 <= k < b.len() {
        b[k] as u64
    } else {
        0
    }
}

/// One group of up to three bytes: a character per six bits they fill, then
/// `=` up to four characters when padding is asked for.
pub open spec fn group_text(b: Seq<u8>, url_safe: bool, pad: bool) -> Seq<char> {
    let v = (group_byte(b, 0) << 16u64) | (group_byte(b, 1) << 8u64) | group_byte(b, 2);
    let n = if b.len() < 3 { b.len() } else { 3 };
    Seq::new(n + 1, |k: int| b64_char((v >> ((18 - 6 * k) as u64)) & 63, url_safe))
        + if pad { Seq::new((3 - n) as nat, |k: int| '=') } else { Seq::empty() }
}

/// Bytes in base64 as RFC 4648 writes them, three bytes to four characters.
pub open spec fn base64_text(b: Seq<u8>, url_safe: bool, pad: bool) -> Seq<char>
    decreases b.len(),
{
    if b.len() == 0 {
        Seq::empty()
    } else if b.len() <= 3 {
        group_text(b, url_safe, pad)
    } else {
        group_text(b.take(3), url_safe, pad) + base64_text(b.skip(3), url_safe, pad)
    }
}

/// What the `base64` crate's decoder, set to accept padding or its absence,
/// reads out of a text in one alphabet; `None` when it refuses the text.
pub uninterp spec fn base64_decoding(data: Seq<char>, url_safe: bool) -> Option<Seq<u8>>;

/// The bytes of a successful decode.
pub open spec fn ok_bytes(r: Result<Vec<u8>, String>) -> Option<Seq<u8>> {
    match r {
        Ok(x) => Some(x@),
        Err(_) => None,
    }
}

/// Whether a decode of `data` gave back the bytes of every encoding that
/// `data` is, padded or not.
pub open spec fn decodes_encodings(data: Seq<char>, url_safe: bool, got: Option<Seq<u8>>) -> bool {
    forall|b: Seq<u8>| #![trigger base64_text(b, url_safe, true)] #![trigger base64_text(b, url_safe, false)]
        (data == base64_text(b, url_safe, true) || data == base64_text(b, url_safe, false)) ==> got == Some(b)
}

/// Encodes bytes with the standard alphabet, padded.
///
/// Wraps `Engine::encode` on `base64`'s `STANDARD` engine, which the crate
/// documents as RFC 4648 base64 with the standard alphabet and padding; the
/// same engine's strict decoder reads what it writes back to the bytes.
#[verifier::external_body]
pub(crate) fn encode_standard(bytes: &[u8]) -> (r: String)
    ensures
        r@ == base64_text(bytes@, false, true),
        padded_base64_of(r@) == Some(bytes@),
{
    ::base64::engine::general_purpose::STANDARD.encode(bytes)
}

/// What strict standard base64 decoding of a text gives, or nothing when the
/// text is not canonical padded base64.
pub uninterp spec fn padded_base64_of(data: Seq<char>) -> Option<Seq<u8>>;

/// Decodes strict standard base64: the standard alphabet, padding required.
///
/// Wraps `Engine::decode` on `base64::engine::general_purpose::STANDARD`. The
/// outcome is named by `padded_base64_of`; the text of a refusal is the
/// crate's own and is left unstated.
#[verifier::external_body]
pub(crate) fn decode_padded(data: &str) -> (r: Result<Vec<u8>, String>)
    ensures
        r is Ok <==> padded_base64_of(data@) is Some,
        r matches Ok(b) ==> b@ == padded_base64_of(data@)->0,
{
    ::base64::engine::general_purpose::STANDARD.decode(data.as_bytes()).map_err(|e| e.to_string())
}

/// Encodes bytes with the URL-safe alphabet and no padding.
///
/// Wraps `Engine::encode` on a `GeneralPurpose` engine built from
/// `alphabet::URL_SAFE` and `NO_PAD`.
#[verifier::external_body]
fn encode_url_safe(bytes: &[u8]) -> (r: String)
    ensures
        r@ == base64_text(bytes@, true, false),
{
    ::base64::engine::GeneralPurpose::new(&::base64::alphabet::URL_SAFE, ::base64::engine::general_purpose::NO_PAD).encode(bytes)
}

/// Decodes standard-alphabet base64, padded or not.
///
/// Wraps `Engine::decode` on a `GeneralPurpose` engine built from
/// `alphabet::STANDARD` with `DecodePaddingMode::Indifferent`. The result is
/// named by `base64_decoding`; the crate's documentation also gives that the
/// encoder's output, with or without its padding, decodes to the bytes it
/// came from. The text of a refusal is the crate's own and is left unstated.
#[verifier::external_body]
fn decode_standard(data: &str) -> (r: Result<Vec<u8>, String>)
    ensures
        r is Ok <==> base64_decoding(data@, false) is Some,
        r matches Ok(b) ==> b@ == base64_decoding(data@, false)->0,
        decodes_encodings(data@, false, ok_bytes(r)),
{
    let config = ::base64::engine::GeneralPurposeConfig::new().with_decode_padding_mode(::base64::engine::DecodePaddingMode::Indifferent);
    ::base64::engine::GeneralPurpose::new(&::base64::alphabet::STANDARD, config).decode(data.as_bytes()).map_err(|e| e.to_string())
}

/// Decodes URL-safe base64, padded or not.
///
/// Wraps `Engine::decode` on a `GeneralPurpose` engine built from
/// `alphabet::URL_SAFE` with `DecodePaddingMode::Indifferent`, with the same
/// claims as `decode_standard` for the other alphabet.
#[verifier::external_body]
fn decode_url_safe(data: &str) -> (r: Result<Vec<u8>, String>)
    ensures
        r is Ok <==> base64_decoding(data@, true) is Some,
        r matches Ok(b) ==> b@ == base64_decoding(data@, true)->0,
        decodes_encodings(data@, true, ok_bytes(r)),
{
    let config = ::base64::engine::GeneralPurposeConfig::new().with_decode_padding_mode(::base64::engine::DecodePaddingMode::Indifferent);
    ::base64::engine::GeneralPurpose::new(&::base64::alphabet::URL_SAFE, config).decode(data.as_bytes()).map_err(|e| e.to_string())
}

/// Whether `prefix` opens `s`.
pub open spec fn starts_with(s: Seq<char>, prefix: Seq<char>) -> bool {
    prefix.len() <= s.len() && s.subrange(0, prefix.len() as int) == prefix
}

/// What turning decoded bytes into text answers: the text, or an error that
/// opens with the function's name and the reason.
pub open spec fn text_outcome(r: Result<String, String>, bytes: Seq<u8>, function: Seq<char>) -> bool {
    if vstd::utf8::valid_utf8(bytes) {
        r matches Ok(s) && s@ == vstd::utf8::decode_utf8(bytes)
    } else {
        r matches Err(e) && starts_with(e@, function + ": the decoded bytes are not valid UTF-8: "@)
    }
}

pub proof fn lemma_starts_with_append(a: Seq<char>, b: Seq<char>)
    ensures
        starts_with(a + b, a),
{
    assert((a + b).subrange(0, a.len() as int) == a);
}

/// The decoded bytes have to become a Nail string, so they have to be text.
/// The error names the function because the caller sees only the message.
fn to_text(bytes: Vec<u8>, function: &str) -> (r: Result<String, String>)
    ensures
        text_outcome(r, bytes@, function@),
{
    let ghost b = bytes@;
    match utf8_text(bytes) {
        Ok(s) => Ok(s),
        Err(detail) => {
            let mut message = String::from_str(function);
            message.append(": the decoded bytes are not valid UTF-8: ");
            let ghost head = message@;
            message.append(detail.as_str());
            proof { lemma_starts_with_append(head, detail@); }
            Err(message)
        },
    }
}

/// Encode text with the standard alphabet, padded.
pub fn encode(text: String) -> (r: String)
    ensures
        r@ == base64_text(vstd::utf8::encode_utf8(text@), false, true),
{
    encode_standard(text.as_str().as_bytes())
}

/// What a decode answers, given what the decoder read and the names the
/// errors carry.
pub open spec fn decode_outcome(r: Result<String, String>, reading: Option<Seq<u8>>, refusal: Seq<char>, function: Seq<char>) -> bool {
    match reading {
        None => r matches Err(e) && starts_with(e@, refusal),
        Some(bytes) => text_outcome(r, bytes, function),
    }
}

/// Decode standard-alphabet base64 back to text.
pub fn decode(data: String) -> (r: Result<String, String>)
    ensures
        decode_outcome(r, base64_decoding(data@, false), "base64_decode: the input is not valid base64: "@, "base64_decode"@),
        forall|t: Seq<char>| #![trigger vstd::utf8::encode_utf8(t)]
            data@ == base64_text(vstd::utf8::encode_utf8(t), false, true) || data@ == base64_text(vstd::utf8::encode_utf8(t), false, false)
            ==> (r matches Ok(s) && s@ == t),
{
    proof { broadcast use vstd::utf8::encode_utf8_valid_utf8, vstd::utf8::encode_utf8_decode_utf8; }
    match decode_standard(data.as_str()) {
        Ok(bytes) => to_text(bytes, "base64_decode"),
        Err(detail) => {
            let mut message = String::from_str("base64_decode: the input is not valid base64: ");
            let ghost head = message@;
            message.append(detail.as_str());
            proof { lemma_starts_with_append(head, detail@); }
            Err(message)
        },
    }
}

/// Encode text with the URL-safe alphabet and no padding, which is what JWT
/// segments and OAuth parameters use.
pub fn encode_url(text: String) -> (r: String)
    ensures
        r@ == base64_text(vstd::utf8::encode_utf8(text@), true, false),
{
    encode_url_safe(text.as_str().as_bytes())
}

/// Encode raw bytes with the URL-safe alphabet and no padding.
pub fn encode_url_bytes(bytes: &[u8]) -> (r: String)
    ensures
        r@ == base64_text(bytes@, true, false),
{
    encode_url_safe(bytes)
}

/// Decode URL-safe base64 back to raw bytes, padded or not.
pub fn decode_url_bytes(data: &str) -> (r: Result<Vec<u8>, String>)
    ensures
        match base64_decoding(data@, true) {
            None => r matches Err(e) && starts_with(e@, "base64_decode_url: the input is not valid URL-safe base64: "@),
            Some(b) => r matches Ok(x) && x@ == b,
        },
        forall|b: Seq<u8>| data@ == base64_text(b, true, false) || data@ == base64_text(b, true, true)
            ==> (r matches Ok(x) && x@ == b),
{
    match decode_url_safe(data) {
        Ok(bytes) => Ok(bytes),
        Err(detail) => {
            let mut message = String::from_str("base64_decode_url: the input is not valid URL-safe base64: ");
            let ghost head = message@;
            message.append(detail.as_str());
            proof { lemma_starts_with_append(head, detail@); }
            Err(message)
        },
    }
}

/// Decode URL-safe base64 back to text, padded or not.
pub fn decode_url(data: String) -> (r: Result<String, String>)
    ensures
        decode_outcome(r, base64_decoding(data@, true), "base64_decode_url: the input is not valid URL-safe base64: "@, "base64_decode_url"@),
        forall|t: Seq<char>| #![trigger vstd::utf8::encode_utf8(t)]
            data@ == base64_text(vstd::utf8::encode_utf8(t), true, false) || data@ == base64_text(vstd::utf8::encode_utf8(t), true, true)
            ==> (r matches Ok(s) && s@ == t),
{
    proof { broadcast use vstd::utf8::encode_utf8_valid_utf8, vstd::utf8::encode_utf8_decode_utf8; }
    match decode_url_safe(data.as_str()) {
        Ok(bytes) => to_text(bytes, "base64_decode_url"),
        Err(detail) => {
            let mut message = String::from_str("base64_decode_url: the input is not valid URL-safe base64: ");
            let ghost head = message@;
            message.append(detail.as_str());
            proof { lemma_starts_with_append(head, detail@); }
            Err(message)
        },
    }
}


/// A run of `=` signs.
pub open spec fn padding(n: nat) -> Seq<char> {
    Seq::new(n, |i: int| '=')
}

/// A text without the `=` signs at its end.
pub open spec fn without_padding(s: Seq<char>) -> Seq<char>
    decreases s.len(),
{
    if s.len() > 0 && s.last() == '=' {
        without_padding(s.drop_last())
    } else {
        s
    }
}

/// A text with `=` signs added up to a multiple of four characters.
pub open spec fn repadded(s: Seq<char>) -> Seq<char> {
    s + padding(((4 - s.len() % 4) % 4) as nat)
}

/// A text with `+` written as `-` and `/` as `_`.
pub open spec fn url_alphabet(s: Seq<char>) -> Seq<char> {
    s.map_values(|c: char| if c == '+' { '-' } else if c == '/' { '_' } else { c })
}

proof fn lemma_b64_char(d: u64)
    ensures
        b64_char(d, false) != '=',
        b64_char(d, true) != '=',
        (if b64_char(d, false) == '+' { '-' } else if b64_char(d, false) == '/' { '_' } else { b64_char(d, false) })
            == b64_char(d, true),
{
    if d < 26 {
        assert(((d + 65) as u8) as u32 == d + 65);
    } else if d < 52 {
        assert(((d + 71) as u8) as u32 == d + 71);
    } else if d < 62 {
        assert(((d - 4) as u8) as u32 == d - 4);
    }
}

proof fn lemma_trailing_padding(s: Seq<char>, n: nat)
    requires
        s.len() == 0 || s.last() != '=',
    ensures
        without_padding(s + padding(n)) == s,
    decreases n,
{
    if n == 0 {
        assert(s + padding(0) =~= s);
    } else {
        assert((s + padding(n)).drop_last() =~= s + padding((n - 1) as nat));
        lemma_trailing_padding(s, (n - 1) as nat);
    }
}

proof fn lemma_padded_text(b: Seq<u8>, url_safe: bool)
    ensures
        base64_text(b, url_safe, true) == repadded(base64_text(b, url_safe, false)),
        b.len() > 0 ==> base64_text(b, url_safe, false).len() > 0 && base64_text(b, url_safe, false).last() != '=',
        base64_text(b, true, false) == url_alphabet(base64_text(b, false, false)),
    decreases b.len(),
{
    let n = if b.len() < 3 { b.len() } else { 3 };
    if b.len() > 0 {
        let g = if b.len() <= 3 { b } else { b.take(3) };
        let v = (group_byte(g, 0) << 16u64) | (group_byte(g, 1) << 8u64) | group_byte(g, 2);
        let f = |k: int| b64_char((v >> ((18 - 6 * k) as u64)) & 63, url_safe);
        assert(group_text(g, url_safe, false) =~= Seq::new(n + 1, f));
        assert(group_text(g, url_safe, true) =~= Seq::new(n + 1, f) + padding((3 - n) as nat));
        lemma_b64_char((v >> ((18 - 6 * n) as u64)) & 63);
        assert forall|k: int| 0 <= k < n + 1 implies #[trigger] group_text(g, true, false)[k]
            == url_alphabet(group_text(g, false, false))[k] by {
            lemma_b64_char((v >> ((18 - 6 * k) as u64)) & 63);
        }
        assert(group_text(g, true, false) =~= url_alphabet(group_text(g, false, false)));
        if b.len() > 3 {
            lemma_padded_text(b.skip(3), url_safe);
            let rest = base64_text(b.skip(3), url_safe, false);
            assert(padding(0) =~= Seq::<char>::empty());
            assert(base64_text(b, url_safe, false) == group_text(g, url_safe, false) + rest);
            assert((group_text(g, url_safe, false) + rest).len() == 4 + rest.len());
            assert(base64_text(b, url_safe, true) =~= repadded(base64_text(b, url_safe, false)));
            assert(url_alphabet(base64_text(b, false, false)) =~= url_alphabet(group_text(g, false, false))
                + url_alphabet(base64_text(b.skip(3), false, false)));
        } else {
            assert(base64_text(b, url_safe, true) =~= repadded(base64_text(b, url_safe, false)));
        }
    } else {
        assert(repadded(Seq::<char>::empty()) =~= Seq::<char>::empty());
        assert(url_alphabet(Seq::<char>::empty()) =~= Seq::<char>::empty());
    }
}

/// Padding is optional in what the encoders write: taking the `=` signs off
/// the end of a padded encoding leaves the unpadded one, and adding `=` up to
/// a multiple of four characters to an unpadded encoding gives the padded
/// one. So the decoders, which read both, read either form back to the bytes.
pub proof fn padding_is_optional(b: Seq<u8>, url_safe: bool)
    ensures
        without_padding(base64_text(b, url_safe, true)) == base64_text(b, url_safe, false),
        repadded(base64_text(b, url_safe, false)) == base64_text(b, url_safe, true),
{
    lemma_padded_text(b, url_safe);
    let t = base64_text(b, url_safe, false);
    lemma_trailing_padding(t, ((4 - t.len() % 4) % 4) as nat);
}

/// The URL-safe encoding is the standard one with `+` written as `-`, `/`
/// written as `_`, and the padding taken off.
pub proof fn url_safe_is_standard_relettered(b: Seq<u8>)
    ensures
        base64_text(b, true, false) == without_padding(url_alphabet(base64_text(b, false, true))),
{
    lemma_padded_text(b, false);
    lemma_padded_text(b, true);
    let t = base64_text(b, false, false);
    let p = ((4 - t.len() % 4) % 4) as nat;
    assert(url_alphabet(t + padding(p)) =~= url_alphabet(t) + padding(p));
    assert(url_alphabet(t).len() == 0 || url_alphabet(t).last() == base64_text(b, true, false).last());
    lemma_trailing_padding(url_alphabet(t), p);
}

} // verus!
