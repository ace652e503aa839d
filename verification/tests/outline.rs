use nail::outline::{declaration_label, imported_path};

#[test]
fn a_declaration_is_recognized_by_its_keyword() {
    assert_eq!(declaration_label("f handle_request(request:HTTP_Request):s {"), Some("f handle_request".to_string()));
    assert_eq!(declaration_label("struct Player {"), Some("struct Player".to_string()));
    assert_eq!(declaration_label("enum Suit {"), Some("enum Suit".to_string()));
}

#[test]
fn only_a_binding_at_the_margin_counts_as_a_symbol() {
    assert_eq!(declaration_label("greeting:s = `Hello`;"), Some("greeting".to_string()));
    assert_eq!(declaration_label("    greeting:s = `Hello`;"), None);
    assert_eq!(declaration_label("print(greeting);"), None);
    assert_eq!(declaration_label(""), None);
    assert_eq!(declaration_label("// a comment about f things"), None);
}

#[test]
fn an_import_line_says_which_file_it_brings_in() {
    assert_eq!(imported_path("import(`website/safe/text_helpers.nail`)"), Some("website/safe/text_helpers.nail".to_string()));
    assert_eq!(imported_path("  import_dangerous(`helper.nail`)"), Some("helper.nail".to_string()));
    assert_eq!(imported_path("import (  `spaced.nail` )"), Some("spaced.nail".to_string()));
}

#[test]
fn a_line_that_imports_nothing_names_no_file() {
    assert_eq!(imported_path("print(`import(`)"), None);
    assert_eq!(imported_path("// import(`commented_out.nail`)"), None);
    assert_eq!(imported_path("imported:s = `not_an_import.nail`;"), None);
    assert_eq!(imported_path("import()"), None);
    assert_eq!(imported_path("import(``)"), None);
    assert_eq!(imported_path(""), None);
}

#[test]
fn an_indented_keyword_still_declares_and_the_name_is_trimmed() {
    assert_eq!(declaration_label("    f spaced(x:i):v {"), Some("f spaced".to_string()));
    assert_eq!(declaration_label("struct"), None);
    assert_eq!(declaration_label("count :i = 1;"), None);
    assert_eq!(declaration_label("total_2:i = 1;"), Some("total_2".to_string()));
    assert_eq!(declaration_label("x:i;"), None);
}

#[test]
fn an_unclosed_import_names_no_file() {
    assert_eq!(imported_path("import(`never closed"), None);
    assert_eq!(imported_path("import `no bracket`"), None);
}
