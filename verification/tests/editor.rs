use nail::editor::{calculate_auto_indent, get_auto_closing_char, joins_group, minimap_lines_per_row, EditOperation, Tab};

fn tab_with(lines: &[&str]) -> Tab {
    let mut tab = Tab::new();
    tab.content = lines.iter().map(|l| l.chars().collect()).collect();
    tab
}

fn lines_of(tab: &Tab) -> Vec<String> {
    tab.content.iter().map(|l| l.iter().collect()).collect()
}

#[test]
fn a_new_tab_has_one_empty_line() {
    let tab = Tab::new();
    assert_eq!(lines_of(&tab), vec![String::new()]);
    assert_eq!((tab.cursor_x, tab.cursor_y), (0, 0));
    assert!(tab.undo_stack.is_empty() && tab.redo_stack.is_empty());
}

#[test]
fn typed_text_splits_lines_at_newlines_and_undo_takes_it_back() {
    let mut tab = tab_with(&["before after", "next"]);
    let op = EditOperation::InsertText { position: (7, 0), text: "one\ntwo\nthree".to_string() };
    tab.apply_operation(&op, false);
    assert_eq!(lines_of(&tab), vec!["before one", "two", "threeafter", "next"]);
    assert_eq!((tab.cursor_x, tab.cursor_y), (5, 2));
    tab.apply_operation(&op, true);
    assert_eq!(lines_of(&tab), vec!["before after", "next"]);
    assert_eq!((tab.cursor_x, tab.cursor_y), (7, 0));
}

#[test]
fn typing_past_the_end_of_a_line_fills_the_gap_with_spaces() {
    let mut tab = tab_with(&["ab"]);
    tab.cursor_x = 4;
    tab.insert_text_at_cursor("x");
    assert_eq!(lines_of(&tab), vec!["ab  x"]);
    assert_eq!(tab.cursor_x, 5);
}

#[test]
fn typing_just_below_the_last_line_starts_a_new_one() {
    let mut tab = tab_with(&["short"]);
    tab.cursor_y = 1;
    tab.cursor_x = 0;
    tab.insert_text_at_cursor("here");
    assert_eq!(lines_of(&tab), vec!["short", "here"]);
}

#[test]
fn deleting_text_pulls_the_next_line_up_at_a_line_end() {
    let mut tab = tab_with(&["ab", "cd", "ef"]);
    tab.cursor_x = 1;
    tab.delete_text_at_position("xxx");
    assert_eq!(lines_of(&tab), vec!["ad", "ef"]);
    assert_eq!((tab.cursor_x, tab.cursor_y), (1, 0));
}

#[test]
fn deleting_stops_at_the_end_of_the_last_line() {
    let mut tab = tab_with(&["ab"]);
    tab.cursor_x = 1;
    tab.delete_text_at_position("many characters");
    assert_eq!(lines_of(&tab), vec!["a"]);
}

#[test]
fn a_character_edit_is_undone_and_redone() {
    let mut tab = tab_with(&["abc"]);
    let typed = EditOperation::InsertChar { position: (1, 0), char: 'x' };
    tab.apply_operation(&typed, false);
    assert_eq!(lines_of(&tab), vec!["axbc"]);
    assert_eq!(tab.cursor_x, 2);
    tab.apply_operation(&typed, true);
    assert_eq!(lines_of(&tab), vec!["abc"]);

    let deleted = EditOperation::DeleteChar { position: (2, 0), char: 'c' };
    tab.apply_operation(&deleted, false);
    assert_eq!(lines_of(&tab), vec!["ab"]);
    tab.apply_operation(&deleted, true);
    assert_eq!(lines_of(&tab), vec!["abc"]);
}

#[test]
fn a_joined_line_is_split_back_by_undo() {
    let mut tab = tab_with(&["first", "second"]);
    let op = EditOperation::DeleteNewline { position: (5, 0), merged_content: "second".to_string() };
    tab.apply_operation(&op, false);
    assert_eq!(lines_of(&tab), vec!["firstsecond"]);
    tab.apply_operation(&op, true);
    assert_eq!(lines_of(&tab), vec!["first", "second"]);
    assert_eq!((tab.cursor_x, tab.cursor_y), (0, 1));
}

#[test]
fn a_replacement_is_undone_and_redone() {
    let mut tab = tab_with(&["print(one)"]);
    let op = EditOperation::ReplaceText {
        position: (0, 0),
        old_text: "print".to_string(),
        new_text: "log".to_string(),
    };
    tab.apply_operation(&op, false);
    assert_eq!(lines_of(&tab), vec!["log(one)"]);
    tab.apply_operation(&op, true);
    assert_eq!(lines_of(&tab), vec!["print(one)"]);
}

#[test]
fn a_batch_is_undone_last_edit_first() {
    let mut tab = tab_with(&["ab"]);
    let batch = EditOperation::BatchOperation {
        operations: vec![
            EditOperation::InsertChar { position: (2, 0), char: 'c' },
            EditOperation::InsertChar { position: (3, 0), char: 'd' },
            EditOperation::InsertText { position: (0, 0), text: "> ".to_string() },
        ],
    };
    tab.apply_operation(&batch, false);
    assert_eq!(lines_of(&tab), vec!["> abcd"]);
    tab.apply_operation(&batch, true);
    assert_eq!(lines_of(&tab), vec!["ab"]);
}

#[test]
fn typed_characters_are_grouped_into_one_undo() {
    let mut tab = tab_with(&[""]);
    for (i, c) in "hey".chars().enumerate() {
        let op = EditOperation::InsertChar { position: (i, 0), char: c };
        tab.apply_operation(&op, false);
        tab.record_operation(op, i > 0);
    }
    assert_eq!(lines_of(&tab), vec!["hey"]);
    assert_eq!(tab.char_insert_group.len(), 3);
    assert!(tab.undo(1000));
    assert_eq!(lines_of(&tab), vec![""]);
    assert!(tab.modified);
    assert_eq!(tab.redo_stack.len(), 1);
    assert!(!tab.undo(1000));
    assert!(tab.redo());
    assert_eq!(lines_of(&tab), vec!["hey"]);
    assert!(!tab.redo());
}

#[test]
fn a_new_edit_clears_what_could_be_redone() {
    let mut tab = tab_with(&["ab"]);
    let op = EditOperation::InsertText { position: (2, 0), text: "c".to_string() };
    tab.apply_operation(&op, false);
    tab.record_operation(op, false);
    assert!(tab.undo(1000));
    assert_eq!(tab.redo_stack.len(), 1);
    let other = EditOperation::InsertText { position: (0, 0), text: "z".to_string() };
    tab.apply_operation(&other, false);
    tab.record_operation(other, false);
    assert!(tab.redo_stack.is_empty());
    assert_eq!(tab.undo_stack.len(), 1);
    assert_eq!(lines_of(&tab), vec!["zab"]);
}

#[test]
fn the_redo_history_is_capped() {
    let mut tab = tab_with(&["abc"]);
    for i in 0..3 {
        let op = EditOperation::InsertText { position: (i, 0), text: "x".to_string() };
        tab.apply_operation(&op, false);
        tab.record_operation(op, false);
    }
    assert!(tab.undo(2));
    assert!(tab.undo(2));
    assert!(tab.undo(2));
    assert_eq!(tab.redo_stack.len(), 2);
    assert_eq!(lines_of(&tab), vec!["abc"]);
}

#[test]
fn settling_puts_the_cursor_back_inside_the_file() {
    let mut tab = tab_with(&["a", "b"]);
    tab.cursor_y = 7;
    tab.settle_cursor();
    assert_eq!(tab.cursor_y, 1);
    let mut empty = tab_with(&[]);
    empty.cursor_y = 3;
    empty.settle_cursor();
    assert_eq!(lines_of(&empty), vec![String::new()]);
    assert_eq!(empty.cursor_y, 0);
}

const MAX_UNDO_HISTORY: usize = 1000;

fn select(tab: &mut Tab, start: (usize, usize), end: (usize, usize)) {
    tab.selection_start = Some(start);
    tab.selection_end = Some(end);
    tab.selection_mode = true;
}

#[test]
fn a_selection_over_accented_text_is_taken_whole() {
    let mut tab = tab_with(&["caf\u{e9} au lait"]);
    select(&mut tab, (0, 0), (8, 0));
    assert_eq!(tab.get_selected_text(), "caf\u{e9} au ");
    tab.delete_selected_text();
    assert_eq!(lines_of(&tab), vec!["lait"]);
    assert!(tab.undo(MAX_UNDO_HISTORY));
    assert_eq!(lines_of(&tab), vec!["caf\u{e9} au lait"]);
}

#[test]
fn a_selection_ending_inside_a_multibyte_character_does_not_panic() {
    let mut tab = tab_with(&["\u{e9}\u{e9}\u{e9}"]);
    select(&mut tab, (0, 0), (3, 0));
    assert_eq!(tab.get_selected_text(), "\u{e9}\u{e9}\u{e9}");
    tab.delete_selected_text();
    assert_eq!(lines_of(&tab), vec![""]);

    let mut tab = tab_with(&["\u{e9}\u{e9}\u{e9}", "second"]);
    select(&mut tab, (1, 0), (3, 1));
    tab.delete_selected_text();
    assert_eq!(lines_of(&tab), vec!["\u{e9}ond"]);
    assert!(tab.undo(MAX_UNDO_HISTORY));
    assert_eq!(lines_of(&tab), vec!["\u{e9}\u{e9}\u{e9}", "second"]);
}

#[test]
fn a_backward_selection_over_three_lines_is_deleted_and_put_back() {
    let mut tab = tab_with(&["alpha", "beta", "gamma"]);
    select(&mut tab, (2, 2), (1, 0));
    assert!(tab.has_selection());
    assert_eq!(tab.get_normalized_selection(), ((1, 0), (2, 2)));
    assert_eq!(tab.get_selected_text(), "lpha\nbeta\nga");
    tab.delete_selected_text();
    assert_eq!(lines_of(&tab), vec!["amma"]);
    assert_eq!((tab.cursor_x, tab.cursor_y), (1, 0));
    assert!(tab.selection_start.is_none() && tab.selection_end.is_none() && !tab.selection_mode);
    assert!(tab.undo(MAX_UNDO_HISTORY));
    assert_eq!(lines_of(&tab), vec!["alpha", "beta", "gamma"]);
    assert!(tab.redo());
    assert_eq!(lines_of(&tab), vec!["amma"]);
}

#[test]
fn an_empty_selection_deletes_nothing() {
    let mut tab = tab_with(&["abc"]);
    select(&mut tab, (1, 0), (1, 0));
    assert!(!tab.has_selection());
    assert_eq!(tab.get_selected_text(), "");
    tab.delete_selected_text();
    assert_eq!(lines_of(&tab), vec!["abc"]);
    assert!(tab.undo_stack.is_empty());
}

#[test]
fn a_selection_past_the_last_line_takes_what_there_is() {
    let tab = {
        let mut tab = tab_with(&["ab", "cd"]);
        select(&mut tab, (1, 0), (1, 5));
        tab
    };
    assert_eq!(tab.get_selected_text(), "b\ncd\n");
    let mut tab = tab;
    tab.delete_selected_text();
    assert_eq!(lines_of(&tab), vec!["ab", "cd"]);
    assert_eq!(tab.undo_stack.len(), 1);
}

#[test]
fn a_minimap_row_covers_an_even_share_of_the_file() {
    assert_eq!(minimap_lines_per_row(100, 5), 20);
    assert_eq!(minimap_lines_per_row(10, 5), 4);
    assert_eq!(minimap_lines_per_row(0, 0), 4);
    assert_eq!(minimap_lines_per_row(41, 10), 8);
}

#[test]
fn an_opening_bracket_or_quote_is_closed_unless_its_closer_is_next() {
    assert_eq!(get_auto_closing_char('(', "f()", 2), None);
    assert_eq!(get_auto_closing_char('(', "f", 1), Some(')'));
    assert_eq!(get_auto_closing_char('{', "x", 0), Some('}'));
    assert_eq!(get_auto_closing_char('[', "]", 0), None);
    assert_eq!(get_auto_closing_char('"', "", 0), Some('"'));
    assert_eq!(get_auto_closing_char('\'', "'", 0), None);
    assert_eq!(get_auto_closing_char('a', "", 0), None);
}

#[test]
fn a_new_line_keeps_the_indentation_and_goes_deeper_after_an_opener() {
    assert_eq!(calculate_auto_indent("    x = 1;", 10), "    ");
    assert_eq!(calculate_auto_indent("\tif (a) {  ", 11), "\t    ");
    assert_eq!(calculate_auto_indent("  call(", 7), "      ");
    assert_eq!(calculate_auto_indent("  call(", 2), "  ");
    assert_eq!(calculate_auto_indent("", 0), "");
}

#[test]
fn a_bracket_is_matched_by_depth_in_both_directions() {
    let mut tab = tab_with(&["f(a, (b))"]);
    tab.cursor_x = 1;
    assert_eq!(tab.find_matching_bracket(), Some((8, 0)));
    tab.cursor_x = 8;
    assert_eq!(tab.find_matching_bracket(), Some((1, 0)));
    tab.cursor_x = 5;
    assert_eq!(tab.find_matching_bracket(), Some((7, 0)));
    tab.cursor_x = 2;
    assert_eq!(tab.find_matching_bracket(), None);
}

#[test]
fn a_bracket_is_matched_across_lines() {
    let mut tab = tab_with(&["{", "  [x]", "}"]);
    assert_eq!(tab.find_matching_bracket(), Some((0, 2)));
    tab.cursor_y = 2;
    assert_eq!(tab.find_matching_bracket(), Some((0, 0)));
    tab.cursor_y = 1;
    tab.cursor_x = 4;
    assert_eq!(tab.find_matching_bracket(), Some((2, 1)));
}

#[test]
fn the_forward_search_stops_at_the_end_of_a_line_with_a_wide_character() {
    let mut tab = tab_with(&["{ caf\u{e9}", "}"]);
    assert_eq!(tab.find_matching_bracket(), None);
    tab.cursor_y = 1;
    assert_eq!(tab.find_matching_bracket(), Some((0, 0)));
    let mut unmatched = tab_with(&["(()"]);
    unmatched.cursor_x = 0;
    assert_eq!(unmatched.find_matching_bracket(), None);
}

#[test]
fn a_word_step_forward_skips_the_word_and_the_gap_after_it() {
    let mut tab = tab_with(&["let value = 1;", "next"]);
    assert_eq!(tab.find_next_word_boundary(), (4, 0));
    tab.cursor_x = 4;
    assert_eq!(tab.find_next_word_boundary(), (12, 0));
    tab.cursor_x = 13;
    assert_eq!(tab.find_next_word_boundary(), (0, 1));
    tab.cursor_x = 14;
    assert_eq!(tab.find_next_word_boundary(), (0, 1));
    tab.cursor_y = 1;
    tab.cursor_x = 4;
    assert_eq!(tab.find_next_word_boundary(), (4, 1));
}

#[test]
fn a_word_step_back_lands_at_the_start_of_the_run_behind_the_cursor() {
    let mut tab = tab_with(&["let value = 1;", "next"]);
    tab.cursor_x = 9;
    assert_eq!(tab.find_prev_word_boundary(), (4, 0));
    tab.cursor_x = 4;
    assert_eq!(tab.find_prev_word_boundary(), (3, 0));
    tab.cursor_y = 1;
    tab.cursor_x = 0;
    assert_eq!(tab.find_prev_word_boundary(), (14, 0));
    tab.cursor_y = 0;
    assert_eq!(tab.find_prev_word_boundary(), (0, 0));
}

#[test]
fn a_word_step_counts_an_accented_line_in_bytes() {
    let mut tab = tab_with(&["caf\u{e9}"]);
    tab.cursor_x = 4;
    assert_eq!(tab.find_next_word_boundary(), (5, 0));
}

#[test]
fn the_delete_key_over_a_selection_is_one_undo_away_from_it() {
    let mut tab = tab_with(&["alpha", "beta", "gamma"]);
    select(&mut tab, (1, 0), (2, 1));
    tab.delete_forward();
    assert_eq!(lines_of(&tab), vec!["ata", "gamma"]);
    assert!(tab.undo(MAX_UNDO_HISTORY));
    assert_eq!(lines_of(&tab), vec!["alpha", "beta", "gamma"]);
}

#[test]
fn backspace_takes_the_character_behind_the_cursor_and_undo_puts_it_back() {
    let mut tab = tab_with(&["abc", "de"]);
    tab.cursor_x = 2;
    tab.delete_char();
    assert_eq!(lines_of(&tab), vec!["ac", "de"]);
    assert_eq!((tab.cursor_x, tab.cursor_y), (1, 0));
    assert!(tab.undo(MAX_UNDO_HISTORY));
    assert_eq!(lines_of(&tab), vec!["abc", "de"]);
    assert!(tab.redo());
    assert_eq!(lines_of(&tab), vec!["ac", "de"]);
}

#[test]
fn backspace_at_the_start_of_a_line_joins_it_to_the_line_above() {
    let mut tab = tab_with(&["abc", "de"]);
    tab.cursor_y = 1;
    tab.delete_char();
    assert_eq!(lines_of(&tab), vec!["abcde"]);
    assert_eq!((tab.cursor_x, tab.cursor_y), (3, 0));
    assert!(tab.undo(MAX_UNDO_HISTORY));
    assert_eq!(lines_of(&tab), vec!["abc", "de"]);
    let mut top = tab_with(&["abc"]);
    top.delete_char();
    assert_eq!(lines_of(&top), vec!["abc"]);
    assert!(top.undo_stack.is_empty());
}

#[test]
fn delete_takes_the_character_under_the_cursor_or_pulls_the_next_line_up() {
    let mut tab = tab_with(&["abc", "de"]);
    tab.cursor_x = 1;
    tab.delete_forward();
    assert_eq!(lines_of(&tab), vec!["ac", "de"]);
    tab.cursor_x = 7;
    tab.delete_forward();
    assert_eq!(lines_of(&tab), vec!["acde"]);
    assert_eq!(tab.cursor_x, 7);
    assert!(tab.undo(MAX_UNDO_HISTORY));
    assert_eq!(lines_of(&tab), vec!["ac", "de"]);
    assert!(tab.undo(MAX_UNDO_HISTORY));
    assert_eq!(lines_of(&tab), vec!["abc", "de"]);
}

#[test]
fn a_cursor_below_the_file_is_settled_before_deleting() {
    let mut tab = tab_with(&["ab", "cd"]);
    tab.cursor_y = 9;
    tab.cursor_x = 1;
    tab.delete_forward();
    assert_eq!(lines_of(&tab), vec!["ab", "c"]);
    assert_eq!(tab.cursor_y, 1);
}

#[test]
fn enter_over_a_selection_is_one_undo_away_from_the_text_it_replaced() {
    let mut tab = tab_with(&["alpha beta", "gamma"]);
    select(&mut tab, (5, 0), (5, 1));
    tab.insert_newline();
    assert_eq!(lines_of(&tab), vec!["alpha", ""]);
    assert!(tab.undo(MAX_UNDO_HISTORY));
    assert_eq!(lines_of(&tab), vec!["alpha beta", "gamma"]);
}

#[test]
fn enter_carries_the_indentation_and_one_undo_takes_it_all_back() {
    let mut tab = tab_with(&["    if (x) {", "    }"]);
    tab.cursor_x = 12;
    tab.insert_newline();
    assert_eq!(lines_of(&tab), vec!["    if (x) {", "        ", "    }"]);
    assert_eq!((tab.cursor_x, tab.cursor_y), (8, 1));
    assert!(tab.undo(MAX_UNDO_HISTORY));
    assert_eq!(lines_of(&tab), vec!["    if (x) {", "    }"]);
    assert!(tab.redo());
    assert_eq!(lines_of(&tab), vec!["    if (x) {", "        ", "    }"]);
}

#[test]
fn enter_in_the_middle_of_a_line_moves_the_rest_down() {
    let mut tab = tab_with(&["  ab cd"]);
    tab.cursor_x = 4;
    tab.insert_newline();
    assert_eq!(lines_of(&tab), vec!["  ab", "   cd"]);
    assert_eq!((tab.cursor_x, tab.cursor_y), (2, 1));
}

#[test]
fn an_inserted_example_arrives_whole_and_keeps_the_rest_of_the_line() {
    let mut tab = tab_with(&["before after", "next"]);
    tab.cursor_x = 7;
    tab.insert_lines_at_cursor("one\ntwo\nthree");
    assert_eq!(lines_of(&tab), vec!["before one", "two", "threeafter", "next"]);
    assert_eq!(tab.cursor_y, 2);
    assert_eq!(tab.cursor_x, 5);

    let mut tab = tab_with(&["ab"]);
    tab.cursor_x = 1;
    tab.insert_lines_at_cursor("XY");
    assert_eq!(lines_of(&tab), vec!["aXYb"]);
    assert_eq!(tab.cursor_x, 3);
}

#[test]
fn an_insert_survives_a_cursor_past_the_end_of_the_file() {
    let mut tab = tab_with(&["short"]);
    tab.cursor_y = 5;
    tab.cursor_x = 99;
    tab.insert_lines_at_cursor("here");
    assert_eq!(lines_of(&tab).last().map(|line| line.as_str()), Some("here"));
}

#[test]
fn a_bracket_typed_over_a_selection_wraps_it() {
    let mut tab = tab_with(&["print(greeting);"]);
    select(&mut tab, (6, 0), (14, 0));
    tab.insert_char('`', false);
    assert_eq!(lines_of(&tab), vec!["print(`greeting`);"]);
    assert!(tab.undo(MAX_UNDO_HISTORY));
    assert_eq!(lines_of(&tab), vec!["print(greeting);"]);
}

#[test]
fn a_brace_on_a_shallow_line_dedents_what_there_is_of_it() {
    let mut tab = tab_with(&["  "]);
    tab.cursor_x = 2;
    tab.insert_char('}', false);
    assert_eq!(lines_of(&tab), vec!["  }"]);
    assert_eq!(tab.cursor_x, 3);

    let mut tab = tab_with(&["        "]);
    tab.cursor_x = 8;
    tab.insert_char('}', false);
    assert_eq!(lines_of(&tab), vec!["    }"]);
    assert_eq!(tab.cursor_x, 5);
}

#[test]
fn typing_over_a_selection_is_one_undo_away_from_the_text_it_replaced() {
    let mut tab = tab_with(&["print(greeting);", "second line"]);
    select(&mut tab, (0, 0), (16, 0));
    tab.insert_char('x', false);
    assert_eq!(lines_of(&tab), vec!["x", "second line"]);
    assert!(tab.undo(MAX_UNDO_HISTORY));
    assert_eq!(lines_of(&tab), vec!["print(greeting);", "second line"]);
    assert!(tab.redo());
    assert_eq!(lines_of(&tab), vec!["x", "second line"]);
}

#[test]
fn a_brace_typed_over_a_selection_still_leaves_a_way_back() {
    let mut tab = tab_with(&["    ", "        keep"]);
    select(&mut tab, (0, 1), (12, 1));
    tab.cursor_y = 1;
    tab.cursor_x = 12;
    tab.insert_char('}', false);
    while tab.undo(MAX_UNDO_HISTORY) {}
    assert_eq!(lines_of(&tab), vec!["    ", "        keep"]);
}

#[test]
fn an_opening_bracket_brings_its_closer_and_the_gap_is_padded() {
    let mut tab = tab_with(&["f"]);
    tab.cursor_x = 1;
    tab.insert_char('(', false);
    assert_eq!(lines_of(&tab), vec!["f()"]);
    assert_eq!(tab.cursor_x, 2);
    tab.insert_char(')', true);
    assert_eq!(lines_of(&tab), vec!["f())"]);
    let mut far = tab_with(&["ab"]);
    far.cursor_x = 4;
    far.insert_char('z', false);
    assert_eq!(lines_of(&far), vec!["ab  z"]);
    assert_eq!(far.char_insert_group.len(), 1);
    assert!(far.undo(MAX_UNDO_HISTORY));
    assert_eq!(lines_of(&far), vec!["ab  "]);
}

#[test]
fn selected_lines_are_commented_and_uncommented_together() {
    let mut tab = tab_with(&["a", "  b", "c"]);
    tab.selection_start = Some((0, 0));
    tab.selection_end = Some((1, 1));
    tab.cursor_x = 1;
    tab.cursor_y = 1;
    tab.toggle_selection_comment();
    assert_eq!(lines_of(&tab), vec!["// a", "  // b", "c"]);
    assert_eq!((tab.cursor_x, tab.cursor_y), (4, 1));
    assert_eq!((tab.selection_start, tab.selection_end), (Some((3, 0)), Some((4, 1))));
    assert!(tab.modified);
    assert_eq!(tab.undo_stack.len(), 1);
    match &tab.undo_stack[0] {
        EditOperation::BatchOperation { operations } => assert_eq!(operations.len(), 2),
        _ => panic!("the toggle is recorded as one batch"),
    }
    tab.toggle_selection_comment();
    assert_eq!(lines_of(&tab), vec!["a", "  b", "c"]);
    assert_eq!((tab.cursor_x, tab.cursor_y), (1, 1));
    assert_eq!((tab.selection_start, tab.selection_end), (Some((0, 0)), Some((1, 1))));
}

#[test]
fn a_mixed_selection_gets_comment_markers_on_every_line() {
    let mut tab = tab_with(&["// x", "y", "//z"]);
    tab.selection_start = Some((1, 2));
    tab.selection_end = Some((0, 0));
    tab.cursor_y = 5;
    tab.toggle_selection_comment();
    assert_eq!(lines_of(&tab), vec!["// // x", "// y", "// //z"]);
    assert_eq!(tab.cursor_x, 0);
    assert!(tab.undo(1000));
    assert_eq!(lines_of(&tab), vec!["// x", "y", "//z"]);
}

#[test]
fn uncommenting_keeps_the_indentation_as_spaces() {
    let mut tab = tab_with(&["\t//a", "//  b"]);
    tab.selection_start = Some((0, 0));
    tab.selection_end = Some((0, 1));
    tab.cursor_y = 9;
    tab.toggle_selection_comment();
    assert_eq!(lines_of(&tab), vec![" a", " b"]);
    assert!(tab.undo(1000));
    assert_eq!(lines_of(&tab), vec!["\t//a", "//  b"]);
}

#[test]
fn typing_joins_the_group_only_within_the_window() {
    assert!(!joins_group(None, 10));
    assert!(joins_group(Some(1000), 1499));
    assert!(!joins_group(Some(1000), 1500));
    assert!(joins_group(Some(1000), 900));
}

#[test]
fn a_line_comment_toggles_on_and_off_and_undoes() {
    let mut tab = tab_with(&["f main():v {", "    print(`one`);", "}"]);
    tab.cursor_y = 1;
    tab.cursor_x = 2;
    tab.toggle_line_comment();
    assert_eq!(lines_of(&tab), vec!["f main():v {", "    // print(`one`);", "}"]);
    assert_eq!(tab.cursor_x, 5);
    tab.toggle_line_comment();
    assert_eq!(lines_of(&tab), vec!["f main():v {", "    print(`one`);", "}"]);
    assert_eq!(tab.cursor_x, 2);
    assert!(tab.undo(1000));
    assert!(tab.undo(1000));
    assert_eq!(lines_of(&tab), vec!["f main():v {", "    print(`one`);", "}"]);
    assert_eq!(tab.undo_stack.len(), 0);
    tab.cursor_y = 7;
    tab.toggle_line_comment();
    assert_eq!(tab.undo_stack.len(), 0);
}

#[test]
fn a_duplicated_line_lands_under_itself_and_undoes() {
    let mut tab = tab_with(&["f main():v {", "    print(`one`);", "}"]);
    tab.cursor_y = 1;
    tab.cursor_x = 3;
    tab.duplicate_current_line();
    assert_eq!(lines_of(&tab), vec!["f main():v {", "    print(`one`);", "    print(`one`);", "}"]);
    assert_eq!((tab.cursor_x, tab.cursor_y), (3, 2));
    assert!(tab.modified);
    assert!(tab.undo(1000));
    assert_eq!(lines_of(&tab), vec!["f main():v {", "    print(`one`);", "}"]);
    assert!(tab.redo());
    assert_eq!(lines_of(&tab), vec!["f main():v {", "    print(`one`);", "    print(`one`);", "}"]);
}

#[test]
fn a_changed_line_keeps_its_indentation() {
    let mut tab = tab_with(&["f main():v {", "    print(`one`);", "  "]);
    tab.cursor_y = 1;
    tab.cursor_x = 9;
    tab.change_line();
    assert_eq!(lines_of(&tab), vec!["f main():v {", "    ", "  "]);
    assert_eq!((tab.cursor_x, tab.cursor_y), (4, 1));
    assert!(tab.undo(1000));
    assert_eq!(lines_of(&tab), vec!["f main():v {", "    print(`one`);", "  "]);
    tab.cursor_y = 8;
    tab.change_line();
    assert_eq!((tab.cursor_x, tab.cursor_y), (2, 2));
    assert_eq!(lines_of(&tab), vec!["f main():v {", "    print(`one`);", "  "]);
    assert_eq!(tab.undo_stack.len(), 0);
}

#[test]
fn a_deleted_line_comes_back_on_undo() {
    let mut tab = tab_with(&["f main():v {", "    print(`one`);", "    print(`two`);", "}"]);
    tab.cursor_y = 1;
    tab.cursor_x = 6;
    tab.delete_current_line();
    assert_eq!(lines_of(&tab), vec!["f main():v {", "    print(`two`);", "}"]);
    assert_eq!((tab.cursor_x, tab.cursor_y), (0, 1));
    assert!(tab.undo(1000));
    assert_eq!(lines_of(&tab), vec!["f main():v {", "    print(`one`);", "    print(`two`);", "}"]);

    let mut last = tab_with(&["a", "b"]);
    last.cursor_y = 1;
    last.delete_current_line();
    assert_eq!(lines_of(&last), vec!["a"]);
    assert_eq!(last.cursor_y, 0);

    let mut only = tab_with(&["alone"]);
    only.cursor_x = 3;
    only.delete_current_line();
    assert_eq!(lines_of(&only), vec![""]);
    assert_eq!(only.cursor_x, 0);
    assert!(only.undo(1000));
    assert_eq!(lines_of(&only), vec!["alone"]);
}

#[test]
fn moved_lines_trade_places_and_undo_puts_them_back() {
    let start = vec!["f main():v {", "    print(`one`);", "    print(`two`);", "}"];
    let mut tab = tab_with(&start);
    tab.cursor_y = 2;
    tab.cursor_x = 1;
    tab.move_current_line_up();
    assert_eq!(lines_of(&tab), vec!["f main():v {", "    print(`two`);", "    print(`one`);", "}"]);
    assert_eq!((tab.cursor_x, tab.cursor_y), (1, 1));
    assert!(tab.undo(1000));
    assert_eq!(lines_of(&tab), start);
    tab.cursor_y = 1;
    tab.move_current_line_down();
    assert_eq!(lines_of(&tab), vec!["f main():v {", "    print(`two`);", "    print(`one`);", "}"]);
    assert_eq!(tab.cursor_y, 2);
    assert!(tab.undo(1000));
    assert_eq!(lines_of(&tab), start);
    tab.cursor_y = 0;
    tab.move_current_line_up();
    tab.cursor_y = 3;
    tab.move_current_line_down();
    assert_eq!(lines_of(&tab), start);
    assert_eq!(tab.undo_stack.len(), 0);
}

#[test]
fn joined_lines_meet_at_one_space_and_undo_apart() {
    let start = vec!["f main():v {", "    print(`one`);", "    print(`two`);", "}"];
    let mut tab = tab_with(&start);
    tab.cursor_y = 1;
    tab.cursor_x = 2;
    tab.join_lines();
    assert_eq!(lines_of(&tab), vec!["f main():v {", "    print(`one`); print(`two`);", "}"]);
    assert_eq!((tab.cursor_x, tab.cursor_y), (17, 1));
    assert!(tab.undo(1000));
    assert_eq!(lines_of(&tab), start);

    let mut selected = tab_with(&start);
    selected.selection_start = Some((0, 0));
    selected.selection_end = Some((0, 2));
    selected.join_lines();
    assert_eq!(lines_of(&selected), vec!["f main():v { print(`one`);", "    print(`two`);", "}"]);
    assert_eq!((selected.selection_start, selected.selection_end), (None, None));

    let mut blank = tab_with(&["a  ", "   ", " b "]);
    blank.join_lines();
    assert_eq!(lines_of(&blank), vec!["a", " b "]);
    assert_eq!(blank.cursor_x, 1);

    let mut last = tab_with(&["only"]);
    last.join_lines();
    assert_eq!(lines_of(&last), vec!["only"]);
    assert_eq!(last.undo_stack.len(), 0);
}

#[test]
fn a_line_opened_below_is_indented_like_a_break_at_its_end() {
    let mut tab = tab_with(&["f main():v {", "}"]);
    tab.cursor_x = 2;
    tab.open_line_below();
    assert_eq!(lines_of(&tab), vec!["f main():v {", "    ", "}"]);
    assert_eq!((tab.cursor_x, tab.cursor_y), (4, 1));
    assert!(tab.undo(1000));
    assert_eq!(lines_of(&tab), vec!["f main():v {", "}"]);
}

#[test]
fn deleting_at_the_cursor_stops_at_the_end_of_the_line() {
    let mut tab = tab_with(&["ab", "cd"]);
    tab.cursor_x = 1;
    tab.delete_char_at_cursor();
    assert_eq!(lines_of(&tab), vec!["a", "cd"]);
    tab.delete_char_at_cursor();
    assert_eq!(lines_of(&tab), vec!["a", "cd"]);
    assert_eq!(tab.undo_stack.len(), 1);
    assert!(tab.undo(1000));
    assert_eq!(lines_of(&tab), vec!["ab", "cd"]);
}

#[test]
fn moving_to_the_end_of_a_line_drops_the_selection() {
    let mut tab = tab_with(&["abc", "de"]);
    tab.cursor_y = 4;
    tab.selection_start = Some((0, 0));
    tab.selection_end = Some((1, 0));
    tab.move_to_line_end();
    assert_eq!((tab.cursor_x, tab.cursor_y), (2, 1));
    assert_eq!((tab.selection_start, tab.selection_end), (None, None));
}

#[test]
fn a_line_opened_above_follows_the_line_before_it() {
    let start = vec!["f main():v {", "    print(`one`);", "}"];
    let mut tab = tab_with(&start);
    tab.cursor_y = 1;
    tab.cursor_x = 7;
    tab.open_line_above();
    assert_eq!(lines_of(&tab), vec!["f main():v {", "    ", "    print(`one`);", "}"]);
    assert_eq!((tab.cursor_x, tab.cursor_y), (4, 1));
    assert!(tab.undo(1000));
    assert_eq!(lines_of(&tab), start);

    let mut top = tab_with(&["a"]);
    top.cursor_x = 1;
    top.open_line_above();
    assert_eq!(lines_of(&top), vec!["", "a"]);
    assert_eq!((top.cursor_x, top.cursor_y), (0, 0));
    assert!(top.undo(1000));
    assert_eq!(lines_of(&top), vec!["a"]);
}

#[test]
fn toggling_a_selection_twice_gives_its_lines_back() {
    let start = vec!["f main():v {", "    print(`one`);", "    // print(`two`);", "}"];
    let mut tab = tab_with(&start);
    tab.selection_start = Some((4, 1));
    tab.selection_end = Some((5, 2));
    tab.cursor_y = 2;
    tab.cursor_x = 5;
    tab.toggle_selection_comment();
    assert_eq!(lines_of(&tab), vec!["f main():v {", "    // print(`one`);", "    // // print(`two`);", "}"]);
    tab.toggle_selection_comment();
    assert_eq!(lines_of(&tab), start);
    assert_eq!((tab.selection_start, tab.selection_end), (Some((4, 1)), Some((5, 2))));
}

#[test]
fn undoing_until_nothing_is_left_restores_the_file() {
    let start = vec!["f main():v {", "    print(`one`);", "    print(`two`);", "}"];
    let mut tab = tab_with(&start);
    tab.cursor_y = 1;
    tab.duplicate_current_line();
    tab.move_current_line_down();
    tab.toggle_line_comment();
    tab.join_lines();
    tab.change_line();
    assert_ne!(lines_of(&tab), start);
    let mut undone = 0;
    while tab.undo(1000) {
        undone += 1;
    }
    assert_eq!(undone, 5);
    assert_eq!(lines_of(&tab), start);
}

#[test]
fn words_are_deleted_left_and_right_of_the_cursor() {
    let mut tab = tab_with(&["let total = base + extra"]);
    tab.cursor_x = 9;
    tab.delete_word_left();
    assert_eq!(lines_of(&tab), vec!["let  = base + extra"]);
    assert_eq!(tab.cursor_x, 4);
    assert!(tab.undo(1000));
    assert_eq!(lines_of(&tab), vec!["let total = base + extra"]);
    tab.cursor_x = 12;
    tab.cursor_y = 0;
    tab.delete_word_right();
    assert_eq!(lines_of(&tab), vec!["let total = extra"]);
    assert!(tab.undo(1000));
    assert_eq!(lines_of(&tab), vec!["let total = base + extra"]);
}

#[test]
fn killing_to_the_line_end_takes_the_rest_then_the_newline() {
    let mut tab = tab_with(&["abcdef", "gh"]);
    tab.cursor_x = 2;
    tab.kill_to_line_end();
    assert_eq!(lines_of(&tab), vec!["ab", "gh"]);
    assert_eq!(tab.cursor_x, 2);
    tab.kill_to_line_end();
    assert_eq!(lines_of(&tab), vec!["abgh"]);
    assert!(tab.undo(1000));
    assert!(tab.undo(1000));
    assert_eq!(lines_of(&tab), vec!["abcdef", "gh"]);
    tab.cursor_x = 4;
    tab.cursor_y = 0;
    tab.kill_to_line_start();
    assert_eq!(lines_of(&tab), vec!["ef", "gh"]);
    assert_eq!(tab.cursor_x, 0);
    tab.kill_to_line_start();
    assert_eq!(lines_of(&tab), vec!["ef", "gh"]);
}

#[test]
fn a_dedented_selection_loses_one_level_per_line() {
    let start = vec!["f main():v {", "        print(`one`);", "\tprint(`two`);", "x"];
    let mut tab = tab_with(&start);
    tab.selection_start = Some((6, 1));
    tab.selection_end = Some((2, 3));
    tab.cursor_x = 2;
    tab.cursor_y = 3;
    tab.dedent_selection();
    assert_eq!(lines_of(&tab), vec!["f main():v {", "    print(`one`);", "print(`two`);", "x"]);
    assert_eq!((tab.selection_start, tab.selection_end), (Some((2, 1)), Some((0, 3))));
    assert_eq!(tab.cursor_x, 0);
    assert!(tab.undo(1000));
    assert_eq!(lines_of(&tab), start);

    let mut one = tab_with(&["    a", "b"]);
    one.cursor_x = 6;
    one.dedent_selection();
    assert_eq!(lines_of(&one), vec!["a", "b"]);
    assert_eq!(one.cursor_x, 2);
    one.cursor_y = 1;
    one.dedent_line();
    assert_eq!(one.undo_stack.len(), 1);
}

#[test]
fn a_selection_snaps_out_to_whole_lines_whichever_way_it_faces() {
    let mut tab = tab_with(&["abc", "defg", "hi"]);
    tab.selection_start = Some((1, 0));
    tab.selection_end = Some((2, 1));
    tab.snap_selection_to_lines();
    assert_eq!((tab.selection_start, tab.selection_end), (Some((0, 0)), Some((4, 1))));
    tab.selection_start = Some((1, 2));
    tab.selection_end = Some((2, 0));
    tab.snap_selection_to_lines();
    assert_eq!((tab.selection_start, tab.selection_end), (Some((2, 2)), Some((0, 0))));
    let mut none = tab_with(&["abc"]);
    none.snap_selection_to_lines();
    assert_eq!((none.selection_start, none.selection_end), (None, None));
}

#[test]
fn a_paste_types_tabs_as_spaces_and_leaves_control_codes_out() {
    let mut tab = tab_with(&["ab", "cd"]);
    tab.cursor_x = 1;
    tab.paste_text("x\ty\nz\u{1}");
    assert_eq!(lines_of(&tab), vec!["ax    y", "zb", "cd"]);
    assert_eq!((tab.cursor_x, tab.cursor_y), (1, 1));
    assert!(tab.undo(1000));
    assert_eq!(lines_of(&tab), vec!["ab", "cd"]);

    let mut over = tab_with(&["hello world"]);
    over.selection_start = Some((0, 0));
    over.selection_end = Some((5, 0));
    over.paste_text("bye");
    assert_eq!(lines_of(&over), vec!["bye world"]);
    assert!(over.undo(1000));
    assert_eq!(lines_of(&over), vec!["hello world"]);

    let mut nothing = tab_with(&["abc"]);
    nothing.selection_start = Some((0, 0));
    nothing.selection_end = Some((1, 0));
    nothing.paste_text("");
    assert_eq!(lines_of(&nothing), vec!["bc"]);
    assert_eq!(nothing.undo_stack.len(), 1);
}
