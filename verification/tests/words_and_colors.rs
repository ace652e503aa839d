use nail::std_lib::boolean::from;
use nail::std_lib::color::{blue, green, invert, red, rgb};

#[test]
fn the_written_words_for_yes_and_no_are_read_either_case() {
    for yes in ["true", "TRUE", "True", "yes", "Y", "on", "1", " true "] {
        assert!(from(yes).unwrap_or_else(|_| panic!("'{}' means yes", yes)));
    }
    for no in ["false", "FALSE", "no", "N", "off", "0", " false "] {
        assert!(!from(no).unwrap_or_else(|_| panic!("'{}' means no", no)));
    }
}

#[test]
fn a_bool_and_a_number_come_through_as_themselves() {
    assert!(from(true).expect("a bool"));
    assert!(!from(false).expect("a bool"));
    assert!(from(1i64).expect("one"));
    assert!(!from(0i64).expect("zero"));
}

#[test]
fn anything_that_is_not_a_yes_or_a_no_is_an_error() {
    assert!(from("maybe").unwrap_err().contains("neither true nor false"));
    assert!(from("").unwrap_err().contains("neither true nor false"));
    assert!(from(2i64).unwrap_err().contains("neither true nor false"), "a number other than 1 or 0 is not a yes or a no");
    assert!(from(-1i64).unwrap_err().contains("neither true nor false"));
}

#[test]
fn components_go_in_and_come_back_out() {
    assert_eq!(rgb(26, 43, 60).unwrap(), "#1a2b3c");
    assert_eq!(red("#ff0000".to_string()).unwrap(), 255);
    assert_eq!(green("#1a2b3c".to_string()).unwrap(), 43);
    assert_eq!(blue("#1a2b3c".to_string()).unwrap(), 60);
}

#[test]
fn a_short_or_unmarked_color_is_read_in_full() {
    assert_eq!(red("#abc".to_string()).unwrap(), 0xaa);
    assert_eq!(red("1A2B3C".to_string()).unwrap(), 26);
}

#[test]
fn inverting_keeps_its_anchors() {
    assert_eq!(invert("#1a2b3c".to_string()).unwrap(), "#e5d4c3");
    assert_eq!(invert("#ffffff".to_string()).unwrap(), "#000000");
}

#[test]
fn junk_channels_name_the_problem() {
    assert!(red("#12".to_string()).unwrap_err().contains("3 or 6"));
    assert!(red("#zzzzzz".to_string()).unwrap_err().contains("not a hex byte"));
    assert!(rgb(300, 0, 0).unwrap_err().contains("0 to 255"));
    assert!(rgb(0, -1, 0).unwrap_err().contains("green"));
}
