use ::base64::Engine;
use std::io::Write;
use nail::std_lib::compress::{brotli_compress, brotli_decompress, gzip_compress, gzip_decompress, zstd_compress, zstd_decompress};

#[test]
fn zstd_round_trips() {
    let text = "the same phrase over and over ".repeat(50);
    let packed = zstd_compress(text.clone()).unwrap();
    assert!(packed.len() < text.len());
    assert_eq!(zstd_decompress(packed).unwrap(), text);
    assert!(zstd_decompress("AAAA".to_string()).unwrap_err().contains("could not decompress"));
}

#[test]
fn brotli_round_trips() {
    let text = "the same phrase over and over ".repeat(50);
    let packed = brotli_compress(text.clone()).unwrap();
    assert!(packed.len() < text.len());
    assert_eq!(brotli_decompress(packed).unwrap(), text);
    assert!(brotli_decompress("not base64!".to_string()).unwrap_err().contains("not valid base64"));
}

#[test]
fn gzip_round_trips() {
    let text = "a line of text, a line of text, a line of text".to_string();
    let packed = gzip_compress(text.clone()).unwrap();
    assert_ne!(packed, text);
    assert_eq!(gzip_decompress(packed).unwrap(), text);
    assert_eq!(gzip_decompress(gzip_compress(String::new()).unwrap()).unwrap(), "");
}

#[test]
fn gzip_output_is_standard_base64_of_a_gzip_stream() {
    let packed = gzip_compress("hello".to_string()).unwrap();
    // A gzip stream opens with the bytes 1f 8b 08, which standard base64 writes as "H4sI".
    assert!(packed.starts_with("H4sI"));
    assert_eq!(packed.len() % 4, 0);
}

#[test]
fn gunzip_refuses_text_that_is_not_base64() {
    let message = gzip_decompress("not base64!".to_string()).unwrap_err();
    assert!(message.starts_with("compress_gunzip: the input is not valid base64: "));
}

#[test]
fn gunzip_refuses_bytes_that_are_not_gzip() {
    let message = gzip_decompress("AAAA".to_string()).unwrap_err();
    assert!(message.starts_with("compress_gunzip: could not "));
    assert!(message.contains("decompress"));
}

#[test]
fn decompressed_bytes_must_be_text() {
    let mut encoder = flate2::write::GzEncoder::new(Vec::new(), flate2::Compression::default());
    encoder.write_all(&[0xff, 0xfe]).unwrap();
    let packed = ::base64::engine::general_purpose::STANDARD.encode(encoder.finish().unwrap());
    let message = gzip_decompress(packed).unwrap_err();
    assert!(message.starts_with("compress_gunzip: the decompressed data is not valid UTF-8: "));
}

#[test]
fn unpadded_base64_is_refused() {
    let message = zstd_decompress("AAA".to_string()).unwrap_err();
    assert!(message.starts_with("compress_unzstd: the input is not valid base64: "));
}
