use formatjson5::failure::decimal_text;
use formatjson5::{parse, Failure, Position};

fn parse_failure(text: &str, name: Option<&str>) -> Failure {
    match parse(String::from(text), name.map(String::from)) {
        Ok(_) => panic!("the text was accepted"),
        Err(failure) => failure,
    }
}

#[test]
fn decimal_of_small_numbers() {
    assert_eq!(decimal_text(0), "0");
    assert_eq!(decimal_text(7), "7");
    assert_eq!(decimal_text(9), "9");
}

#[test]
fn decimal_of_numbers_with_several_digits() {
    assert_eq!(decimal_text(10), "10");
    assert_eq!(decimal_text(1024), "1024");
    assert_eq!(decimal_text(90817), "90817");
}

#[test]
fn decimal_of_the_largest_number() {
    assert_eq!(decimal_text(usize::MAX), usize::MAX.to_string());
}

#[test]
fn position_with_a_name() {
    let place = Position { file: Some(String::from("a.json5")), line: 12, col: 3 };
    assert_eq!(place.to_text(), "a.json5:12:3");
}

#[test]
fn position_without_a_name() {
    let place = Position { file: None, line: 1, col: 100 };
    assert_eq!(place.to_text(), "1:100");
}

#[test]
fn description_of_no_files() {
    assert_eq!(Failure::NoFiles.describe(), "No files to format");
}

#[test]
fn description_of_refused_options() {
    let failure = Failure::InvalidOptions { message: String::from("too wide") };
    assert_eq!(failure.describe(), "Configuration error: too wide");
}

#[test]
fn description_of_a_parse_error_with_a_location() {
    let failure = Failure::Parse {
        location: Some(Position { file: Some(String::from("x")), line: 2, col: 5 }),
        message: String::from("Unexpected token"),
    };
    assert_eq!(failure.describe(), "Parse error: x:2:5: Unexpected token");
}

#[test]
fn description_of_a_parse_error_without_a_location() {
    let failure = Failure::Parse { location: None, message: String::from("Unexpected token") };
    assert_eq!(failure.describe(), "Parse error: Unexpected token");
}

#[test]
fn description_of_an_internal_error() {
    let failure = Failure::Internal {
        location: Some(Position { file: None, line: 3, col: 1 }),
        message: String::from("odd"),
    };
    assert_eq!(failure.describe(), "Internal error: 3:1: odd");
}

#[test]
fn description_of_a_test_failure() {
    let failure = Failure::TestFailure { location: None, message: String::from("differs") };
    assert_eq!(failure.describe(), "Test failure: differs");
}

#[test]
fn a_configuration_error_is_taken_over() {
    let own = Failure::from(json5format::Error::Configuration(String::from("bad path")));
    assert_eq!(own, Failure::InvalidOptions { message: String::from("bad path") });
    assert_eq!(
        own.describe(),
        json5format::Error::Configuration(String::from("bad path")).to_string()
    );
}

#[test]
fn a_parse_error_is_taken_over_with_its_location() {
    let own = Failure::from(json5format::Error::Parse(
        Some(json5format::Location::new(Some(String::from("f")), 4, 9)),
        String::from("m"),
    ));
    assert_eq!(
        own,
        Failure::Parse {
            location: Some(Position { file: Some(String::from("f")), line: 4, col: 9 }),
            message: String::from("m"),
        }
    );
    let theirs = json5format::Error::Parse(
        Some(json5format::Location::new(Some(String::from("f")), 4, 9)),
        String::from("m"),
    );
    assert_eq!(own.describe(), theirs.to_string());
}

#[test]
fn an_internal_error_is_taken_over() {
    let own = Failure::from(json5format::Error::Internal(None, String::from("m")));
    assert_eq!(own, Failure::Internal { location: None, message: String::from("m") });
    assert_eq!(own.describe(), json5format::Error::Internal(None, String::from("m")).to_string());
}

#[test]
fn a_test_failure_is_taken_over() {
    let own = Failure::from(json5format::Error::TestFailure(
        Some(json5format::Location::new(None, 1, 2)),
        String::from("m"),
    ));
    assert_eq!(
        own,
        Failure::TestFailure {
            location: Some(Position { file: None, line: 1, col: 2 }),
            message: String::from("m"),
        }
    );
    assert_eq!(own.describe(), "Test failure: 1:2: m");
}

#[test]
fn a_missing_value_is_reported_at_the_closing_brace() {
    let failure = parse_failure("{ \"a\": }", Some("doc.json5"));
    match &failure {
        Failure::Parse { location, message } => {
            assert_eq!(
                location,
                &Some(Position { file: Some(String::from("doc.json5")), line: 1, col: 8 })
            );
            assert!(message.starts_with("Property 'a' must have a value before closing an object"));
        }
        other => panic!("not a parse error: {:?}", other),
    }
}

#[test]
fn a_missing_value_on_a_later_line_is_reported_there() {
    let failure = parse_failure("{\n  \"a\":\n}", None);
    match failure {
        Failure::Parse { location, .. } => {
            assert_eq!(location, Some(Position { file: None, line: 3, col: 1 }));
        }
        other => panic!("not a parse error: {:?}", other),
    }
}

#[test]
fn a_parse_error_reads_as_the_parser_words_it() {
    let text = "{ \"a\": }";
    let failure = parse_failure(text, Some("doc.json5"));
    let theirs =
        match json5format::ParsedDocument::from_str(text, Some(String::from("doc.json5"))) {
            Ok(_) => panic!("the text was accepted"),
            Err(error) => error.to_string(),
        };
    assert_eq!(failure.describe(), theirs);
    assert!(failure.describe().starts_with("Parse error: doc.json5:1:8: "));
}

#[test]
fn an_unclosed_string_is_refused() {
    let failure = parse_failure("{ a: \"open }", None);
    assert!(matches!(failure, Failure::Parse { .. }));
}

#[test]
fn an_unclosed_block_comment_is_refused() {
    let failure = parse_failure("{ /* open }", None);
    assert!(matches!(failure, Failure::Parse { .. }));
}

#[test]
fn an_unclosed_object_is_refused() {
    let failure = parse_failure("{ a: 1", None);
    assert!(matches!(failure, Failure::Parse { .. }));
}

#[test]
fn items_without_a_comma_are_refused() {
    let failure = parse_failure("[1 2]", None);
    assert!(matches!(failure, Failure::Parse { .. }));
}
