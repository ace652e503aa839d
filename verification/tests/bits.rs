use nail::std_lib::bits;
use nail::std_lib::bits::{
    and, count_ones, count_zeros, extract, from_binary, get, insert, leading_zeros, not, or, parity, rotate_left, rotate_right,
    shift_left, shift_right, to_binary, to_hex, trailing_zeros, xor,
};

#[test]
fn the_boolean_operations_combine_patterns() {
    assert_eq!(and(0b1100, 0b1010), 0b1000);
    assert_eq!(or(0b1100, 0b1010), 0b1110);
    assert_eq!(xor(0b1100, 0b1010), 0b0110);
    assert_eq!(not(0), -1);
}

#[test]
fn shifts_move_the_pattern() {
    assert_eq!(shift_left(1, 4).expect("in range"), 16);
    assert_eq!(shift_right(16, 4).expect("in range"), 1);
}

#[test]
fn shifting_right_fills_with_zeros_even_for_negatives() {
    // -1 is all ones; shifting right by 63 leaves exactly one bit.
    assert_eq!(shift_right(-1, 63).expect("in range"), 1);
}

#[test]
fn rotations_bring_bits_back_round() {
    assert_eq!(rotate_left(1, 64 - 1).expect("in range"), i64::MIN);
    assert_eq!(rotate_right(1, 1).expect("in range"), i64::MIN);
    assert_eq!(rotate_left(0b1011, 0).expect("in range"), 0b1011);
}

#[test]
fn shifting_past_the_top_is_an_error() {
    assert!(shift_left(1, 64).unwrap_err().contains("outside the 0 to 63"));
    assert!(shift_right(1, -1).unwrap_err().contains("outside the 0 to 63"));
    assert!(rotate_left(1, 100).unwrap_err().contains("outside the 0 to 63"));
}

#[test]
fn counting_bits() {
    assert_eq!(count_ones(0b1011), 3);
    assert_eq!(count_zeros(0), 64);
    assert_eq!(leading_zeros(0), 64);
    assert_eq!(leading_zeros(1), 63);
    assert_eq!(trailing_zeros(0), 64);
    assert_eq!(trailing_zeros(0b1000), 3);
    assert_eq!(count_ones(-1), 64);
}

#[test]
fn single_bits_can_be_read_and_written() {
    assert!(get(0b0100, 2).expect("in range"));
    assert!(!get(0b0100, 1).expect("in range"));
    assert_eq!(bits::set(0, 3, true).expect("in range"), 8);
    assert_eq!(bits::set(0b1111, 0, false).expect("in range"), 0b1110);
    assert_eq!(bits::set(0, 63, true).expect("in range"), i64::MIN);
}

#[test]
fn a_bit_outside_the_word_is_an_error() {
    assert!(get(0, 64).unwrap_err().contains("outside the 0 to 63"));
    assert!(bits::set(0, -1, true).unwrap_err().contains("outside the 0 to 63"));
}

#[test]
fn binary_text_round_trips() {
    assert_eq!(to_binary(5), "101");
    assert_eq!(to_binary(0), "0");
    assert_eq!(from_binary("101".to_string()).expect("binary digits"), 5);
    assert_eq!(from_binary("1010_1010".to_string()).expect("binary digits"), 170);
    assert_eq!(from_binary(to_binary(-1)).expect("binary digits"), -1);
}

#[test]
fn binary_text_rejects_what_is_not_binary() {
    assert!(from_binary("".to_string()).unwrap_err().contains("no digits"));
    assert!(from_binary("102".to_string()).unwrap_err().contains("not a binary digit"));
    assert!(from_binary("1".repeat(65)).unwrap_err().contains("more than the 64"));
}

#[test]
fn hex_writes_the_same_pattern() {
    assert_eq!(to_hex(255), "ff");
    assert_eq!(to_hex(-1), "ffffffffffffffff");
}

#[test]
fn a_field_can_be_read_out_of_the_middle() {
    assert_eq!(extract(0xab, 4, 4).expect("in range"), 0xa);
    assert_eq!(extract(0xab, 0, 4).expect("in range"), 0xb);
    assert_eq!(extract(0b1100, 2, 1).expect("in range"), 1);
    assert_eq!(extract(-1, 0, 63).expect("in range"), i64::MAX);
    assert_eq!(extract(-1, 63, 1).expect("in range"), 1);
}

#[test]
fn a_field_can_be_written_into_the_middle() {
    assert_eq!(insert(0, 4, 4, 0xa).expect("fits"), 0xa0);
    assert_eq!(insert(0xff, 4, 4, 0).expect("fits"), 0x0f);
    assert_eq!(insert(0xab, 4, 4, 0xc).expect("fits"), 0xcb);
    assert_eq!(extract(insert(0, 10, 6, 33).expect("fits"), 10, 6).expect("in range"), 33);
}

#[test]
fn a_field_that_does_not_fit_the_word_is_an_error() {
    assert!(extract(0, 0, 0).unwrap_err().contains("1 to 63"));
    assert!(extract(0, 0, 64).unwrap_err().contains("1 to 63"));
    assert!(extract(0, 64, 1).unwrap_err().contains("outside the 0 to 63"));
    assert!(extract(0, 8, 60).unwrap_err().contains("past bit 63"));
    assert!(insert(0, 60, 8, 1).unwrap_err().contains("past bit 63"));
}

#[test]
fn a_field_too_big_for_its_width_is_an_error() {
    assert!(insert(0, 0, 4, 16).unwrap_err().contains("does not fit"));
    assert!(insert(0, 0, 4, -1).unwrap_err().contains("does not fit"));
    assert_eq!(insert(0, 0, 4, 15).expect("fits"), 15);
}

#[test]
fn parity_says_whether_the_ones_count_is_odd() {
    assert_eq!(parity(0), 0);
    assert_eq!(parity(1), 1);
    assert_eq!(parity(0b1011), 1);
    assert_eq!(parity(0b1001), 0);
    assert_eq!(parity(-1), 0);
}

#[test]
fn a_rotation_is_undone_by_the_opposite_rotation() {
    for value in [0i64, 1, -1, 0x1234_5678_9abc_def0, i64::MIN, 0b1011] {
        for places in 0..64 {
            let turned = rotate_left(value, places).unwrap();
            assert_eq!(rotate_right(turned, places).unwrap(), value);
        }
    }
}

#[test]
fn an_inserted_field_leaves_the_other_bits_alone() {
    let written = insert(-1, 8, 8, 0x5a).unwrap();
    assert_eq!(extract(written, 8, 8).unwrap(), 0x5a);
    assert_eq!(extract(written, 0, 8).unwrap(), 0xff);
    assert_eq!(extract(written, 16, 47).unwrap(), extract(-1, 16, 47).unwrap());
}

#[test]
fn underscores_anywhere_in_binary_text_are_ignored() {
    for value in [0i64, 1, 5, -1, i64::MIN, 1234567] {
        let text = bits::to_binary(value);
        assert!(!text.contains('_'));
        let separated: String = text.chars().flat_map(|c| ['_', c]).chain(['_']).collect();
        assert_eq!(bits::from_binary(separated).unwrap(), value);
    }
}
