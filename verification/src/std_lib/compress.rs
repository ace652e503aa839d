//! Compressing text: gzip, zstd and brotli, each handed out as standard
//! base64 so the compressed bytes travel as a string.
//!
//! The compressors are the outside crates' own; what is proved here is how
//! the text goes in, how their results come out, which error a failure of
//! each step is reported with, and that decompressing what compression
//! handed out gives the text back.

use vstd::prelude::*;
use vstd::string::StringExecFns;
use std::io::Write;
use crate::std_lib::base64::{base64_text, encode_standard, decode_padded, padded_base64_of, starts_with, lemma_starts_with_append};
use crate::text::utf8_text;

verus! {

/// The bytes gzip makes of some bytes at the default level.
pub uninterp spec fn gzip_of(data: Seq<u8>) -> Seq<u8>;

/// What gunzipping some bytes gives, or nothing when they are not a gzip
/// stream.
pub uninterp spec fn gunzip_of(data: Seq<u8>) -> Option<Seq<u8>>;

/// The bytes zstd makes of some bytes at level 3.
pub uninterp spec fn zstd_of(data: Seq<u8>) -> Seq<u8>;

/// What zstd decompression of some bytes gives, or nothing when it fails.
pub uninterp spec fn unzstd_of(data: Seq<u8>) -> Option<Seq<u8>>;

/// The bytes brotli makes of some bytes at quality 5.
pub uninterp spec fn brotli_of(data: Seq<u8>) -> Seq<u8>;

/// What brotli decompression of some bytes gives, or nothing when it fails.
pub uninterp spec fn unbrotli_of(data: Seq<u8>) -> Option<Seq<u8>>;

/// A failed step of a coder, with the crate's description of the failure:
/// the coding of the data itself, or the finishing of the stream after it.
pub enum StreamFailure {
    Coding(String),
    Finishing(String),
}

/// Gzip-compresses bytes at the default level.
///
/// Wraps `flate2::write::GzEncoder`: `write_all` of the bytes into an encoder
/// over a `Vec`, then `finish`. Writing into a `Vec` cannot fail, so neither
/// step does. What comes out is named by `gzip_of`; the crate being a
/// lossless compressor, gunzipping it gives the bytes back.
#[verifier::external_body]
fn gzip_bytes(data: &[u8]) -> (r: Result<Vec<u8>, StreamFailure>)
    ensures
        r is Ok,
        r matches Ok(v) ==> v@ == gzip_of(data@) && gunzip_of(v@) == Some(data@),
{
    let mut encoder = flate2::write::GzEncoder::new(Vec::new(), flate2::Compression::default());
    match encoder.write_all(data) {
        Ok(()) => {},
        Err(e) => return Err(StreamFailure::Coding(e.to_string())),
    }
    encoder.finish().map_err(|e| StreamFailure::Finishing(e.to_string()))
}

/// Gunzips bytes.
///
/// Wraps `flate2::write::GzDecoder`: `write_all` of the bytes into a decoder
/// over a `Vec`, then `finish`. The outcome is named by `gunzip_of`; which
/// step fails, and the text of its failure, are left unstated.
#[verifier::external_body]
fn gunzip_bytes(data: &[u8]) -> (r: Result<Vec<u8>, StreamFailure>)
    ensures
        r is Ok <==> gunzip_of(data@) is Some,
        r matches Ok(v) ==> v@ == gunzip_of(data@)->0,
{
    let mut decoder = flate2::write::GzDecoder::new(Vec::new());
    match decoder.write_all(data) {
        Ok(()) => {},
        Err(e) => return Err(StreamFailure::Coding(e.to_string())),
    }
    decoder.finish().map_err(|e| StreamFailure::Finishing(e.to_string()))
}

/// Zstd-compresses bytes at level 3.
///
/// Wraps `zstd::stream::encode_all` over a slice into a `Vec`, which does
/// not fail. What comes out is named by `zstd_of`, and decompresses to the
/// bytes it came from.
#[verifier::external_body]
fn zstd_bytes(data: &[u8]) -> (r: Result<Vec<u8>, StreamFailure>)
    ensures
        r is Ok,
        r matches Ok(v) ==> v@ == zstd_of(data@) && unzstd_of(v@) == Some(data@),
{
    zstd::stream::encode_all(data, 3).map_err(|e| StreamFailure::Coding(e.to_string()))
}

/// Decompresses zstd bytes.
///
/// Wraps `zstd::stream::decode_all`. The outcome is named by `unzstd_of`; the
/// text of a failure is left unstated.
#[verifier::external_body]
fn unzstd_bytes(data: &[u8]) -> (r: Result<Vec<u8>, StreamFailure>)
    ensures
        r is Ok <==> unzstd_of(data@) is Some,
        r matches Ok(v) ==> v@ == unzstd_of(data@)->0,
        r matches Err(f) ==> f is Coding,
{
    zstd::stream::decode_all(data).map_err(|e| StreamFailure::Coding(e.to_string()))
}

/// Brotli-compresses bytes at quality 5, the crate's other settings left at
/// their defaults.
///
/// Wraps `brotli::BrotliCompress` from the bytes into a `Vec`, which does not
/// fail. What comes out is named by `brotli_of`, and decompresses to the
/// bytes it came from.
#[verifier::external_body]
fn brotli_bytes(data: &[u8]) -> (r: Result<Vec<u8>, StreamFailure>)
    ensures
        r is Ok,
        r matches Ok(v) ==> v@ == brotli_of(data@) && unbrotli_of(v@) == Some(data@),
{
    let params = brotli::enc::BrotliEncoderParams { quality: 5, ..Default::default() };
    let mut compressed = Vec::new();
    let mut input = data;
    brotli::BrotliCompress(&mut input, &mut compressed, &params).map(|_| compressed).map_err(|e| StreamFailure::Coding(e.to_string()))
}

/// Decompresses brotli bytes.
///
/// Wraps `brotli::BrotliDecompress` from the bytes into a `Vec`. The outcome
/// is named by `unbrotli_of`; the text of a failure is left unstated.
#[verifier::external_body]
fn unbrotli_bytes(data: &[u8]) -> (r: Result<Vec<u8>, StreamFailure>)
    ensures
        r is Ok <==> unbrotli_of(data@) is Some,
        r matches Ok(v) ==> v@ == unbrotli_of(data@)->0,
        r matches Err(f) ==> f is Coding,
{
    let mut decompressed = Vec::new();
    let mut input = data;
    brotli::BrotliDecompress(&mut input, &mut decompressed).map(|_| decompressed).map_err(|e| StreamFailure::Coding(e.to_string()))
}

/// The message for a failed step: the function's name, what could not be
/// done, then the crate's description of the failure.
pub open spec fn failure_text(name: Seq<char>, verb: Seq<char>, failure: StreamFailure) -> Seq<char> {
    match failure {
        StreamFailure::Coding(d) => name + ": could not "@ + verb + " the data: "@ + d@,
        StreamFailure::Finishing(d) => name + ": could not finish "@ + verb + "ion: "@ + d@,
    }
}

/// Builds the message for a failed step.
fn failure_message(name: &str, verb: &str, failure: StreamFailure) -> (r: String)
    ensures
        r@ == failure_text(name@, verb@, failure),
{
    let mut message = String::from_str(name);
    match failure {
        StreamFailure::Coding(d) => {
            message.append(": could not ");
            message.append(verb);
            message.append(" the data: ");
            message.append(d.as_str());
        },
        StreamFailure::Finishing(d) => {
            message.append(": could not finish ");
            message.append(verb);
            message.append("ion: ");
            message.append(d.as_str());
        },
    }
    message
}

/// Hands out what a compressor made: its bytes as standard base64, which the
/// strict decoder reads back to them, or the message for the step that
/// failed.
pub fn packed_text(name: &str, packed: Result<Vec<u8>, StreamFailure>) -> (r: Result<String, String>)
    ensures
        match packed {
            Ok(bytes) => r matches Ok(s) && s@ == base64_text(bytes@, false, true)
                && padded_base64_of(s@) == Some(bytes@),
            Err(f) => r matches Err(e) && e@ == failure_text(name@, "compress"@, f),
        },
{
    match packed {
        Ok(bytes) => Ok(encode_standard(bytes.as_slice())),
        Err(f) => Err(failure_message(name, "compress", f)),
    }
}

/// What a decompressor's bytes come out as: their text when they are UTF-8.
pub open spec fn unpacked(bytes: Option<Seq<u8>>) -> Option<Seq<char>> {
    match bytes {
        Some(b) => if vstd::utf8::valid_utf8(b) { Some(vstd::utf8::decode_utf8(b)) } else { None },
        None => None,
    }
}

/// What decompression answers, given what the decompressor made of the bytes:
/// their text, or the message for what went wrong.
pub open spec fn unpacked_outcome(r: Result<String, String>, name: Seq<char>, unpacked_bytes: Option<Seq<u8>>) -> bool {
    match unpacked_bytes {
        None => r matches Err(e) && exists|f: StreamFailure| e@ == #[trigger] failure_text(name, "decompress"@, f),
        Some(out) => if vstd::utf8::valid_utf8(out) {
            r matches Ok(s) && s@ == vstd::utf8::decode_utf8(out)
        } else {
            r matches Err(e) && starts_with(e@, name + ": the decompressed data is not valid UTF-8: "@)
        },
    }
}

/// Turns what a decompressor made into text, or into the message for the step
/// that failed.
pub fn unpacked_text(name: &str, unpacking: Result<Vec<u8>, StreamFailure>) -> (r: Result<String, String>)
    ensures
        match unpacking {
            Ok(bytes) => if vstd::utf8::valid_utf8(bytes@) {
                r matches Ok(s) && s@ == vstd::utf8::decode_utf8(bytes@)
            } else {
                r matches Err(e) && starts_with(e@, name@ + ": the decompressed data is not valid UTF-8: "@)
            },
            Err(f) => r matches Err(e) && e@ == failure_text(name@, "decompress"@, f),
        },
{
    match unpacking {
        Ok(bytes) => match utf8_text(bytes) {
            Ok(s) => Ok(s),
            Err(detail) => {
                let mut message = String::from_str(name);
                message.append(": the decompressed data is not valid UTF-8: ");
                let ghost head = message@;
                message.append(detail.as_str());
                proof { lemma_starts_with_append(head, detail@); }
                Err(message)
            },
        },
        Err(f) => Err(failure_message(name, "decompress", f)),
    }
}

/// What decompressing a text answers: the strict base64 it must be, then the
/// decompressor's outcome on the bytes it stands for.
pub open spec fn decompress_outcome(r: Result<String, String>, data: Seq<char>, name: Seq<char>, unpacked_bytes: Option<Seq<u8>>) -> bool {
    match padded_base64_of(data) {
        None => r matches Err(e) && starts_with(e@, name + ": the input is not valid base64: "@),
        Some(_) => unpacked_outcome(r, name, unpacked_bytes),
    }
}

/// Reads the base64 a compressed text is written in.
fn packed_bytes(name: &str, data: &str) -> (r: Result<Vec<u8>, String>)
    ensures
        match padded_base64_of(data@) {
            None => r matches Err(e) && starts_with(e@, name@ + ": the input is not valid base64: "@),
            Some(b) => r matches Ok(v) && v@ == b,
        },
{
    match decode_padded(data) {
        Ok(bytes) => Ok(bytes),
        Err(detail) => {
            let mut message = String::from_str(name);
            message.append(": the input is not valid base64: ");
            let ghost head = message@;
            message.append(detail.as_str());
            proof { lemma_starts_with_append(head, detail@); }
            Err(message)
        },
    }
}

/// The text a gzip-compressed base64 text stands for, where there is one.
pub open spec fn gunzipped(data: Seq<char>) -> Option<Seq<char>> {
    match padded_base64_of(data) {
        Some(b) => unpacked(gunzip_of(b)),
        None => None,
    }
}

/// The text a zstd-compressed base64 text stands for, where there is one.
pub open spec fn unzstded(data: Seq<char>) -> Option<Seq<char>> {
    match padded_base64_of(data) {
        Some(b) => unpacked(unzstd_of(b)),
        None => None,
    }
}

/// The text a brotli-compressed base64 text stands for, where there is one.
pub open spec fn unbrotlied(data: Seq<char>) -> Option<Seq<char>> {
    match padded_base64_of(data) {
        Some(b) => unpacked(unbrotli_of(b)),
        None => None,
    }
}

/// The bytes a compressed base64 text stands for, as the strict decoder reads
/// it; empty where it reads nothing.
pub open spec fn packed_of(data: Seq<char>) -> Seq<u8> {
    match padded_base64_of(data) {
        Some(b) => b,
        None => Seq::empty(),
    }
}

/// Compress a string using gzip, handing the result out as standard base64.
/// Gunzipping what it hands out gives the string back.
pub fn gzip_compress(data: String) -> (r: Result<String, String>)
    ensures
        r matches Ok(s) ==> s@ == base64_text(gzip_of(vstd::utf8::encode_utf8(data@)), false, true),
        r matches Ok(s) ==> gunzipped(s@) == Some(data@),
        r is Ok,
{
    proof { broadcast use vstd::utf8::encode_utf8_valid_utf8, vstd::utf8::encode_utf8_decode_utf8; }
    let packed = gzip_bytes(data.as_str().as_bytes());
    packed_text("compress_gzip", packed)
}

/// Decompress a gzipped string written as standard base64.
pub fn gzip_decompress(data: String) -> (r: Result<String, String>)
    ensures
        decompress_outcome(r, data@, "compress_gunzip"@, gunzip_of(packed_of(data@))),
        gunzipped(data@) matches Some(t) ==> r matches Ok(s) && s@ == t,
        r matches Ok(s) ==> gunzipped(data@) == Some(s@),
{
    match packed_bytes("compress_gunzip", data.as_str()) {
        Ok(bytes) => {
            let unpacking = gunzip_bytes(bytes.as_slice());
            let ghost outcome = unpacking;
            let r = unpacked_text("compress_gunzip", unpacking);
            proof {
                if let Err(f) = outcome {
                    assert(r->Err_0@ == failure_text("compress_gunzip"@, "decompress"@, f));
                }
            }
            r
        },
        Err(e) => Err(e),
    }
}

/// Zstd-compress a string at level 3, zstd's own default, and return it as
/// standard base64. Decompressing what it hands out gives the string back.
pub fn zstd_compress(data: String) -> (r: Result<String, String>)
    ensures
        r matches Ok(s) ==> s@ == base64_text(zstd_of(vstd::utf8::encode_utf8(data@)), false, true),
        r matches Ok(s) ==> unzstded(s@) == Some(data@),
        r is Ok,
{
    proof { broadcast use vstd::utf8::encode_utf8_valid_utf8, vstd::utf8::encode_utf8_decode_utf8; }
    let packed = zstd_bytes(data.as_str().as_bytes());
    packed_text("compress_zstd", packed)
}

/// Decompress a base64-encoded zstd string back to the text it came from.
pub fn zstd_decompress(data: String) -> (r: Result<String, String>)
    ensures
        decompress_outcome(r, data@, "compress_unzstd"@, unzstd_of(packed_of(data@))),
        unzstded(data@) matches Some(t) ==> r matches Ok(s) && s@ == t,
        r matches Ok(s) ==> unzstded(data@) == Some(s@),
{
    match packed_bytes("compress_unzstd", data.as_str()) {
        Ok(bytes) => {
            let unpacking = unzstd_bytes(bytes.as_slice());
            let ghost outcome = unpacking;
            let r = unpacked_text("compress_unzstd", unpacking);
            proof {
                if let Err(f) = outcome {
                    assert(r->Err_0@ == failure_text("compress_unzstd"@, "decompress"@, f));
                }
            }
            r
        },
        Err(e) => Err(e),
    }
}

/// Brotli-compress a string at quality 5, the balanced setting web servers
/// use for on-the-fly compression, and return it as standard base64.
/// Decompressing what it hands out gives the string back.
pub fn brotli_compress(data: String) -> (r: Result<String, String>)
    ensures
        r matches Ok(s) ==> s@ == base64_text(brotli_of(vstd::utf8::encode_utf8(data@)), false, true),
        r matches Ok(s) ==> unbrotlied(s@) == Some(data@),
        r is Ok,
{
    proof { broadcast use vstd::utf8::encode_utf8_valid_utf8, vstd::utf8::encode_utf8_decode_utf8; }
    let packed = brotli_bytes(data.as_str().as_bytes());
    packed_text("compress_brotli", packed)
}

/// Decompress a base64-encoded brotli string back to the text it came from.
pub fn brotli_decompress(data: String) -> (r: Result<String, String>)
    ensures
        decompress_outcome(r, data@, "compress_unbrotli"@, unbrotli_of(packed_of(data@))),
        unbrotlied(data@) matches Some(t) ==> r matches Ok(s) && s@ == t,
        r matches Ok(s) ==> unbrotlied(data@) == Some(s@),
{
    match packed_bytes("compress_unbrotli", data.as_str()) {
        Ok(bytes) => {
            let unpacking = unbrotli_bytes(bytes.as_slice());
            let ghost outcome = unpacking;
            let r = unpacked_text("compress_unbrotli", unpacking);
            proof {
                if let Err(f) = outcome {
                    assert(r->Err_0@ == failure_text("compress_unbrotli"@, "decompress"@, f));
                }
            }
            r
        },
        Err(e) => Err(e),
    }
}

} // verus!
