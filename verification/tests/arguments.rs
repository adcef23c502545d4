use word_counter::args::parse_args;
use word_counter::Options;

fn parse(items: &[&str]) -> Result<Options, String> {
    parse_args(items.iter().map(|a| a.to_string()).collect())
}

#[test]
fn no_arguments_give_the_defaults() {
    let options = parse(&[]).unwrap();
    assert_eq!(options.top_n, 3);
    assert_eq!(options.min_length, 1);
    assert!(!options.json);
    assert_eq!(options.file_path, None);
}

#[test]
fn every_flag_sets_its_field() {
    let options = parse(&["--top", "7", "--min-length", "4", "--file", "in.txt", "--json"]).unwrap();
    assert_eq!(options.top_n, 7);
    assert_eq!(options.min_length, 4);
    assert!(options.json);
    assert_eq!(options.file_path, Some("in.txt".to_string()));
}

#[test]
fn a_later_flag_overrides_an_earlier_one() {
    let options = parse(&["--top", "7", "--top", "0"]).unwrap();
    assert_eq!(options.top_n, 0);
}

#[test]
fn numbers_may_carry_a_plus_sign_and_leading_zeros() {
    assert_eq!(parse(&["--top", "+12"]).unwrap().top_n, 12);
    assert_eq!(parse(&["--min-length", "007"]).unwrap().min_length, 7);
}

#[test]
fn a_value_is_taken_as_it_stands() {
    let options = parse(&["--file", "--json"]).unwrap();
    assert_eq!(options.file_path, Some("--json".to_string()));
    assert!(!options.json);
}

#[test]
fn missing_values_are_reported() {
    assert_eq!(parse(&["--top"]).unwrap_err(), "Expected a value after --top");
    assert_eq!(
        parse(&["--json", "--min-length"]).unwrap_err(),
        "Expected a value after --min-length"
    );
    assert_eq!(parse(&["--file"]).unwrap_err(), "Expected a value after --file");
}

#[test]
fn values_that_are_no_numbers_are_reported() {
    for bad in ["abc", "-1", "", "+", "1.5", " 3", "3 ", "1_000", "99999999999999999999999999"] {
        assert_eq!(
            parse(&["--top", bad]).unwrap_err(),
            "The value after --top must be a positive integer"
        );
        assert_eq!(
            parse(&["--min-length", bad]).unwrap_err(),
            "The value after --min-length must be a positive integer"
        );
    }
}

#[test]
fn help_is_an_error_with_the_usage() {
    assert_eq!(
        parse(&["--json", "--help", "--top"]).unwrap_err(),
        "Usage: word_counter --top N --min-length M"
    );
}

#[test]
fn unknown_arguments_are_named() {
    assert_eq!(parse(&["--verbose"]).unwrap_err(), "Unknown argument: --verbose");
    assert_eq!(parse(&["--top", "2", "input.txt"]).unwrap_err(), "Unknown argument: input.txt");
    assert_eq!(parse(&[""]).unwrap_err(), "Unknown argument: ");
}

#[test]
fn the_first_error_wins() {
    assert_eq!(parse(&["--bogus", "--top"]).unwrap_err(), "Unknown argument: --bogus");
    assert_eq!(
        parse(&["--top", "x", "--bogus"]).unwrap_err(),
        "The value after --top must be a positive integer"
    );
}
