use ::base64::Engine;
use nail::std_lib::{base32, base58, base64, binary};

#[test]
fn the_rfc_test_vectors_hold() {
    assert_eq!(base32::encode("".to_string()), "");
    assert_eq!(base32::encode("f".to_string()), "MY======");
    assert_eq!(base32::encode("fo".to_string()), "MZXQ====");
    assert_eq!(base32::encode("foo".to_string()), "MZXW6===");
    assert_eq!(base32::encode("foob".to_string()), "MZXW6YQ=");
    assert_eq!(base32::encode("fooba".to_string()), "MZXW6YTB");
    assert_eq!(base32::encode("foobar".to_string()), "MZXW6YTBOI======");
}

#[test]
fn decoding_forgives_case_and_padding_but_not_noise() {
    assert_eq!(base32::decode("mzxw6ytboi".to_string()).unwrap(), "foobar");
    assert_eq!(base32::decode("MZXW6YTBOI======".to_string()).unwrap(), "foobar");
    assert!(base32::decode("MZ1W6===".to_string()).unwrap_err().contains("not a base32 character"));
}

#[test]
fn hex_secrets_round_trip() {
    let encoded = base32::encode_hex("48656c6c6f21deadbeef".to_string()).unwrap();
    assert_eq!(base32::decode_hex(encoded).unwrap(), "48656c6c6f21deadbeef");
}

#[test]
fn the_bitcoin_anchors_hold() {
    assert_eq!(base58::encode("Hello World!".to_string()), "2NEpo7TZRRrLZSi2U");
    assert_eq!(base58::decode("2NEpo7TZRRrLZSi2U".to_string()).unwrap(), "Hello World!");
    assert_eq!(base58::encode_hex("0000287fb4cd".to_string()).unwrap(), "11233QC4");
    assert_eq!(base58::decode_hex("11233QC4".to_string()).unwrap(), "0000287fb4cd");
}

#[test]
fn empty_text_and_whitespace_are_forgiven() {
    assert_eq!(base58::encode("".to_string()), "");
    assert_eq!(base58::decode("".to_string()).unwrap(), "");
    assert_eq!(base58::decode("2NEpo7TZ RRrLZSi2U".to_string()).unwrap(), "Hello World!");
}

#[test]
fn the_lookalike_absentees_are_rejected_by_name() {
    assert!(base58::decode("0abc".to_string()).unwrap_err().contains("`0` is not a base58 character"));
    assert!(base58::decode("hello".to_string()).unwrap_err().contains("`l` is not a base58 character"));
    assert!(base58::decode_hex("OI".to_string()).unwrap_err().contains("`O` is not a base58 character"));
}

#[test]
fn bytes_that_are_not_text_are_refused() {
    let encoded = base58::encode_hex("ff".to_string()).unwrap();
    assert_eq!(encoded, "5Q");
    assert!(base58::decode(encoded).unwrap_err().contains("not text"));
}

#[test]
fn hex_ids_round_trip() {
    assert_eq!(base58::decode_hex(base58::encode_hex("00deadbeef00".to_string()).unwrap()).unwrap(), "00deadbeef00");
}

#[test]
fn bad_hex_is_named() {
    assert!(base58::encode_hex("abc".to_string()).unwrap_err().contains("even number"));
    assert!(base58::encode_hex("zz".to_string()).unwrap_err().contains("`z` is not a hex digit"));
}

#[test]
fn text_round_trips_through_the_standard_alphabet() {
    assert_eq!(base64::encode("hello".to_string()), "aGVsbG8=");
    assert_eq!(base64::decode("aGVsbG8=".to_string()).expect("valid base64"), "hello");
    assert_eq!(base64::decode(base64::encode("The quick brown fox.".to_string())).expect("its own output"), "The quick brown fox.");
}

#[test]
fn text_round_trips_through_the_url_safe_alphabet() {
    assert_eq!(base64::encode_url("hello".to_string()), "aGVsbG8");
    assert_eq!(base64::decode_url("aGVsbG8".to_string()).expect("valid base64"), "hello");
    assert_eq!(base64::decode_url(base64::encode_url("a JWT payload".to_string())).expect("its own output"), "a JWT payload");
}

#[test]
fn the_alphabets_differ_where_they_are_supposed_to() {
    assert_eq!(base64::encode(">>>".to_string()), "Pj4+");
    assert_eq!(base64::encode_url(">>>".to_string()), "Pj4-");
    assert_eq!(base64::encode("???".to_string()), "Pz8/");
    assert_eq!(base64::encode_url("???".to_string()), "Pz8_");
    assert_eq!(base64::decode_url("Pj4-".to_string()).expect("valid URL-safe base64"), ">>>");
    assert_eq!(base64::decode_url("Pz8_".to_string()).expect("valid URL-safe base64"), "???");
}

#[test]
fn raw_bytes_round_trip_through_the_url_safe_alphabet() {
    assert_eq!(base64::encode_url_bytes(&[0xfb]), "-w");
    assert_eq!(::base64::engine::general_purpose::STANDARD.encode([0xfb]), "+w==");
    assert_eq!(base64::decode_url_bytes("-w").expect("valid URL-safe base64"), vec![0xfb]);
}

#[test]
fn decoders_forgive_padding_either_way() {
    assert_eq!(base64::decode("aGVsbG8".to_string()).expect("unpadded standard base64"), "hello");
    assert_eq!(base64::decode_url("aGVsbG8=".to_string()).expect("padded URL-safe base64"), "hello");
    assert_eq!(base64::decode_url_bytes("-w==").expect("padded URL-safe base64"), vec![0xfb]);
}

#[test]
fn each_decoder_rejects_the_other_alphabet_and_names_itself() {
    assert!(base64::decode_url("Pj4+".to_string()).unwrap_err().contains("base64_decode_url"));
    assert!(base64::decode("Pj4-".to_string()).unwrap_err().contains("base64_decode"));
    assert!(base64::decode("not base64!".to_string()).unwrap_err().contains("not valid base64"));
}

#[test]
fn integers_go_in_and_come_back_out() {
    let packed = binary::pack_int(4660, 2, true).unwrap();
    assert_eq!(packed, "1234");
    assert_eq!(binary::unpack_int(packed, 0, 2, true, false).unwrap(), 4660);
    assert_eq!(binary::pack_int(4660, 2, false).unwrap(), "3412");
    assert_eq!(binary::unpack_int("3412".to_string(), 0, 2, false, false).unwrap(), 4660);
}

#[test]
fn signed_reads_sign_extend() {
    let packed = binary::pack_int(-2, 2, true).unwrap();
    assert_eq!(packed, "fffe");
    assert_eq!(binary::unpack_int(packed.clone(), 0, 2, true, true).unwrap(), -2);
    assert_eq!(binary::unpack_int(packed, 0, 2, true, false).unwrap(), 65534);
}

#[test]
fn a_value_too_wide_for_its_bytes_is_refused() {
    assert!(binary::pack_int(70000, 2, true).unwrap_err().contains("does not fit"));
}

#[test]
fn slicing_and_joining_work_in_bytes() {
    assert_eq!(binary::slice("00112233".to_string(), 1, 2).unwrap(), "1122");
    assert_eq!(binary::concat(vec!["dead".to_string(), "beef".to_string()]).unwrap(), "deadbeef");
    assert_eq!(binary::byte_length("deadbeef".to_string()).unwrap(), 4);
}

#[test]
fn joining_names_a_piece_that_is_not_hex_text() {
    let e = binary::concat(vec!["00".to_string(), "a\u{e9}b".to_string(), "zz".to_string()]).unwrap_err();
    assert_eq!(e, "binary_concat: `a\u{e9}b` is not hex text");
    let e = binary::concat(vec!["00".to_string(), "zz".to_string()]).unwrap_err();
    assert_eq!(e, "binary_concat: `zz` is not a hex byte");
    assert_eq!(binary::concat(vec![]).unwrap(), "");
}

#[test]
fn a_png_header_reads_like_the_spec_says() {
    // Width lives at offset 16 of a PNG file, four bytes, big-endian.
    let header = "89504e470d0a1a0a0000000d49484452000001000000008008060000007f1f66df";
    assert_eq!(binary::unpack_int(header.to_string(), 16, 4, true, false).unwrap(), 256);
}

#[test]
fn the_url_safe_encoding_is_the_standard_one_relettered_and_unpadded() {
    for t in ["", "f", "fo", "foo", "subjects?_d>>~", "\u{ff}\u{fe}\u{fd}"] {
        let standard = base64::encode(t.to_string());
        let relettered = standard.replace('+', "-").replace('/', "_");
        assert_eq!(base64::encode_url(t.to_string()), relettered.trim_end_matches('='));
        let unpadded = standard.trim_end_matches('=').to_string();
        assert_eq!(base64::decode(unpadded).unwrap(), t);
    }
}

#[test]
fn white_space_anywhere_in_base58_is_forgiven() {
    let encoded = base58::encode("hello world".to_string());
    let spaced: String = encoded.chars().flat_map(|c| [c, ' ', '\n']).collect();
    assert_eq!(base58::decode(spaced).unwrap(), "hello world");
}

#[test]
fn hex_secrets_come_back_in_lower_case() {
    let encoded = base32::encode_hex("DEADbeef00".to_string()).unwrap();
    assert_eq!(base32::decode_hex(encoded.to_lowercase().replace('=', "")).unwrap(), "deadbeef00");
}
