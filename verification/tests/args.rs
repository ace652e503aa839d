use nail::std_lib::args::{count, flag, get, help_text, is_flag, parse_words, value, value_int, value_or, wants_help, ARGS_Option, ARGS_Parsed};
use nail::std_lib::array_functional::{range, range_exclusive};

fn option(name: &str, short: &str, takes_value: bool, required: bool) -> ARGS_Option {
    ARGS_Option { name: name.to_string(), short: short.to_string(), description: format!("the {}", name), takes_value, required }
}

fn example_options() -> Vec<ARGS_Option> {
    vec![option("output", "o", true, false), option("verbose", "v", false, false), option("retries", "", true, false)]
}

fn words(line: &str) -> Vec<String> {
    line.split_whitespace().map(|word| word.to_string()).collect()
}

fn parsed(line: &str) -> ARGS_Parsed {
    parse_words(&words(line), &example_options()).expect("a valid command line")
}

fn failure(line: &str) -> String {
    match parse_words(&words(line), &example_options()) {
        Ok(_) => panic!("expected an error for: {}", line),
        Err(e) => e,
    }
}

#[test]
fn a_flag_is_told_apart_from_a_value() {
    assert!(is_flag("--output"));
    assert!(is_flag("-v"));
    assert!(!is_flag("deploy"));
    assert!(!is_flag("-"));
    assert!(!is_flag("-42"), "a negative number is a value, not a flag");
}

#[test]
fn the_subcommand_is_found_past_a_flag_that_swallowed_its_value() {
    let result = parsed("--output report.txt deploy");
    assert_eq!(result.command, "deploy");
    assert_eq!(result.positional, vec!["deploy".to_string()]);
    assert_eq!(result.values.get("output").expect("the value").value().clone(), "report.txt");
}

#[test]
fn a_flag_that_takes_no_value_does_not_swallow_the_next_word() {
    let result = parsed("--verbose deploy");
    assert_eq!(result.command, "deploy");
    assert_eq!(result.flags, vec!["verbose".to_string()]);
}

#[test]
fn every_way_of_writing_a_value_arrives_under_the_long_name() {
    for line in ["--output report.txt", "--output=report.txt", "-o report.txt", "-o=report.txt"] {
        let result = parsed(line);
        assert_eq!(result.values.get("output").expect("the value").value().clone(), "report.txt", "failed for: {}", line);
    }
}

#[test]
fn the_command_is_the_first_positional_and_the_rest_follow_it() {
    let result = parsed("deploy one two --verbose");
    assert_eq!(result.command, "deploy");
    assert_eq!(result.positional, vec!["deploy".to_string(), "one".to_string(), "two".to_string()]);
}

#[test]
fn a_negative_number_is_read_as_a_value_not_a_flag() {
    let result = parsed("--retries -5");
    assert_eq!(result.values.get("retries").expect("the value").value().clone(), "-5");
}

#[test]
fn an_empty_command_line_parses_to_nothing() {
    let result = parsed("");
    assert_eq!(result.command, "");
    assert!(result.positional.is_empty());
    assert!(result.flags.is_empty());
    assert_eq!(result.values.len(), 0);
}

#[test]
fn asking_for_help_is_accepted_without_being_declared() {
    let result = parsed("--help");
    assert!(result.flags.is_empty(), "help is not one of the program's own flags");
    assert_eq!(result.command, "");
}

#[test]
fn a_flag_the_program_does_not_accept_is_an_error() {
    assert!(failure("--nonsense").contains("--nonsense is not an option this program accepts"));
}

#[test]
fn an_option_that_takes_a_value_must_be_given_one() {
    assert!(failure("--output").contains("--output needs a value"));
    assert!(failure("--output --verbose").contains("--output needs a value"));
    assert!(failure("--output=").contains("--output needs a value"));
}

#[test]
fn an_option_that_takes_no_value_must_not_be_given_one() {
    assert!(failure("--verbose=yes").contains("--verbose does not take a value"));
}

#[test]
fn a_required_option_that_is_missing_is_an_error() {
    let required = vec![option("output", "o", true, true)];
    assert!(parse_words(&words(""), &required).err().unwrap().contains("--output is required"));
    assert!(parse_words(&words("--output report.txt"), &required).is_ok());
    // A required flag that takes no value is satisfied by being present.
    let required_flag = vec![option("force", "f", false, true)];
    assert!(parse_words(&words(""), &required_flag).err().unwrap().contains("--force is required"));
    assert!(parse_words(&words("--force"), &required_flag).is_ok());
}

#[test]
fn the_same_flag_twice_is_recorded_once() {
    let result = parsed("--verbose --verbose");
    assert_eq!(result.flags, vec!["verbose".to_string()]);
}

#[test]
fn a_repeated_value_takes_the_last_one_given() {
    let result = parsed("--output first.txt --output second.txt");
    assert_eq!(result.values.get("output").expect("the value").value().clone(), "second.txt");
}

#[test]
fn the_help_page_lists_every_option_and_help_itself() {
    let page = help_text("mytool".to_string(), "Does a thing.".to_string(), &example_options());
    assert!(page.contains("Does a thing."));
    assert!(page.contains("Usage: mytool [options]"));
    assert!(page.contains("-o, --output <value>"), "got:\n{}", page);
    assert!(page.contains("-v, --verbose"), "got:\n{}", page);
    assert!(page.contains("    --retries <value>"), "an option with no short form is still aligned:\n{}", page);
    assert!(page.contains("-h, --help"), "got:\n{}", page);
}

#[test]
fn the_help_page_marks_what_is_required() {
    let page = help_text("mytool".to_string(), String::new(), &vec![option("output", "o", true, true)]);
    assert!(page.contains("(required)"), "got:\n{}", page);
}

#[test]
fn the_help_page_columns_line_up() {
    let page = help_text("mytool".to_string(), String::new(), &example_options());
    let description_columns: Vec<usize> = page
        .lines()
        .filter(|line| line.starts_with("  ") && line.contains("--"))
        .map(|line| line.find("  the ").or_else(|| line.find("  Show")).unwrap_or(0))
        .collect();
    assert_eq!(description_columns.len(), 4, "expected a line per option and one for help, got:\n{}", page);
    assert!(description_columns.windows(2).all(|pair| pair[0] == pair[1]), "descriptions must start in the same column:\n{}", page);
}

#[test]
fn every_option_the_program_accepts_appears_in_its_help_page() {
    let options = example_options();
    let page = help_text("mytool".to_string(), String::new(), &options);
    for option in options.iter() {
        assert!(page.contains(&format!("--{}", option.name)), "--{} is accepted but missing from the help page:\n{}", option.name, page);
        let page_says_it_takes_a_value = page.lines().any(|line| line.contains(&format!("--{} <value>", option.name)));
        assert_eq!(page_says_it_takes_a_value, option.takes_value, "the help page and the description disagree about --{}", option.name);
        let alone = parse_words(&words(&format!("--{}", option.name)), &options);
        assert_eq!(alone.is_err(), option.takes_value, "the parser and the help page disagree about whether --{} needs a value", option.name);
        let given_a_value = parse_words(&words(&format!("--{}=x", option.name)), &options);
        assert_eq!(given_a_value.is_ok(), option.takes_value, "the parser and the help page disagree about whether --{} accepts a value", option.name);
    }
}

#[test]
fn the_exact_help_page() {
    let page = help_text("mytool".to_string(), "Does a thing.".to_string(), &vec![option("output", "o", true, true), option("all", "", false, false)]);
    let expected = "Does a thing.\n\nUsage: mytool [options]\n\nRequired options are marked.\n\nOptions:\n  -o, --output <value>  the output (required)\n      --all             the all\n  -h, --help            Show this help and exit\n";
    assert_eq!(page, expected);
}

fn command_line(line: &str) -> Vec<String> {
    let mut all = vec!["mytool".to_string()];
    all.extend(words(line));
    all
}

#[test]
fn a_value_is_read_either_way_it_is_written() {
    assert_eq!(value(&command_line("--output=a.txt"), "output".to_string()).unwrap(), "a.txt");
    assert_eq!(value(&command_line("--output a.txt"), "output".to_string()).unwrap(), "a.txt");
    assert_eq!(value(&command_line("--output=a.txt"), "output".to_string()).unwrap(), "a.txt");
    assert_eq!(value(&command_line("--output="), "output".to_string()).unwrap_err(), "args_value: argument --output has an empty value");
    assert_eq!(value(&command_line("--output -x"), "output".to_string()).unwrap_err(), "args_value: no value provided for argument --output");
    assert_eq!(value(&command_line("--other"), "output".to_string()).unwrap_err(), "args_value: argument --output was not passed to the program");
    assert_eq!(value_or(&command_line(""), "output".to_string(), "fallback".to_string()), "fallback");
}

#[test]
fn a_whole_number_value_is_checked() {
    assert_eq!(value_int(&command_line("--retries 42"), "retries".to_string()).unwrap(), 42);
    assert_eq!(value_int(&command_line("--retries=+7"), "retries".to_string()).unwrap(), 7);
    assert_eq!(value_int(&command_line("--retries=-9223372036854775808"), "retries".to_string()).unwrap(), i64::MIN);
    assert_eq!(
        value_int(&command_line("--retries=9223372036854775808"), "retries".to_string()).unwrap_err(),
        "args_value_int: --retries was given '9223372036854775808', which is not a whole number"
    );
    assert_eq!(
        value_int(&command_line("--retries many"), "retries".to_string()).unwrap_err(),
        "args_value_int: --retries was given 'many', which is not a whole number"
    );
    assert!(value_int(&command_line(""), "retries".to_string()).unwrap_err().contains("was not passed"));
}

#[test]
fn flags_words_and_help_are_read_from_the_command_line() {
    let line = command_line("-v --force deploy");
    assert!(flag(&line, "v".to_string()));
    assert!(flag(&line, "force".to_string()));
    assert!(!flag(&line, "f".to_string()));
    assert!(!flag(&command_line("-f"), "force".to_string()));
    assert_eq!(get(&line, 3).unwrap(), "deploy");
    assert_eq!(get(&line, -1).unwrap_err(), "args_get: argument index cannot be negative, got -1");
    assert_eq!(get(&line, 4).unwrap_err(), "args_get: index 4 is out of bounds, the program received 4 argument(s)");
    assert_eq!(count(&line), 4);
    assert!(!wants_help(&line));
    assert!(wants_help(&command_line("deploy -h")));
    assert!(!wants_help(&vec!["--help".to_string()]), "the program's own name is not a request for help");
}

#[test]
fn ranges_count_up_and_stop_where_asked() {
    assert_eq!(range(1, 5), vec![1, 2, 3, 4, 5]);
    assert_eq!(range(3, 3), vec![3]);
    assert!(range(5, 1).is_empty());
    assert_eq!(range_exclusive(0, 4), vec![0, 1, 2, 3]);
    assert!(range_exclusive(2, 2).is_empty());
    assert_eq!(range(i64::MAX - 1, i64::MAX), vec![i64::MAX - 1, i64::MAX]);
    assert!(range_exclusive(0, i64::MIN).is_empty());
}
