use nail::spans::{enclosing_bracket_span, line_span, wider_span, word_span};

fn chars(text: &str) -> Vec<char> {
    return text.chars().collect();
}

#[test]
fn a_word_grows_out_of_a_bare_cursor() {
    let text = chars("print(greeting);");
    assert_eq!(word_span(&text, 8), Some((6, 14)));
    assert_eq!(word_span(&text, 5), Some((0, 5)));
    assert_eq!(word_span(&chars("a  b"), 2), None);
}

#[test]
fn expanding_walks_from_word_to_brackets_to_line_to_file() {
    let text = chars("print(greeting);\nnext();");
    let word = wider_span(&text, 8, 8).expect("a cursor in a word has a word to grow into");
    assert_eq!(word, (6, 14));
    let call = wider_span(&text, word.0, word.1).expect("the word is inside a call");
    assert_eq!(call, (5, 15));
    let line = wider_span(&text, call.0, call.1).expect("then the whole line");
    assert_eq!(line, (0, 16));
    let file = wider_span(&text, line.0, line.1).expect("then the whole file");
    assert_eq!(file, (0, text.len()));
    assert_eq!(wider_span(&text, 0, text.len()), None);
}

#[test]
fn brackets_are_matched_by_depth_rather_than_by_the_nearest_one() {
    let text = chars("outer(inner(x), y)");
    assert_eq!(enclosing_bracket_span(&text, 12, 13), Some((11, 13)));
    assert_eq!(enclosing_bracket_span(&text, 6, 14), Some((5, 17)));
}

#[test]
fn a_word_at_the_end_of_the_text_is_found_from_past_it() {
    let text = chars("let value");
    assert_eq!(word_span(&text, 40), Some((4, 9)));
    assert_eq!(word_span(&chars(""), 0), None);
}

#[test]
fn a_line_span_stops_at_newlines() {
    let text = chars("one\ntwo three\nfour");
    assert_eq!(line_span(&text, 6, 8), (4, 13));
    assert_eq!(line_span(&text, 0, 0), (0, 3));
    assert_eq!(line_span(&text, 14, 18), (14, 18));
}

#[test]
fn an_unclosed_bracket_encloses_nothing() {
    assert_eq!(enclosing_bracket_span(&chars("f(a, b"), 3, 3), None);
    assert_eq!(enclosing_bracket_span(&chars("a) (b"), 1, 1), None);
    assert_eq!(enclosing_bracket_span(&chars("[x]"), 0, 0), None);
}
