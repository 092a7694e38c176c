use formatjson5::{Failure, FormatOptions, Formatter, MAX_INDENT};

#[test]
fn defaults_are_the_documented_ones() {
    let options = FormatOptions::default();
    assert_eq!(options.indent_by, 4);
    assert!(options.trailing_commas);
    assert!(!options.collapse_containers_of_one);
    assert!(!options.sort_array_items);
}

#[test]
fn flags_that_switch_a_default_off_enter_negated() {
    let options = FormatOptions::from_flags(2, true, true, true);
    assert_eq!(
        options,
        FormatOptions {
            indent_by: 2,
            trailing_commas: false,
            collapse_containers_of_one: true,
            sort_array_items: true,
        }
    );
}

#[test]
fn no_flag_gives_the_defaults() {
    assert_eq!(FormatOptions::from_flags(4, false, false, false), FormatOptions::default());
}

#[test]
fn the_widest_indent_is_accepted() {
    let options = FormatOptions::from_flags(MAX_INDENT, false, false, false);
    assert_eq!(options.validate(), Ok(()));
    assert!(Formatter::with_options(options).is_ok());
}

#[test]
fn an_indent_of_zero_is_accepted() {
    let options = FormatOptions::from_flags(0, false, false, false);
    assert_eq!(options.validate(), Ok(()));
}

#[test]
fn an_indent_beyond_the_bound_is_refused() {
    let options = FormatOptions::from_flags(MAX_INDENT + 1, false, false, false);
    let expected =
        Failure::InvalidOptions { message: String::from("indent_by must not be greater than 1024") };
    assert_eq!(options.validate(), Err(expected.clone()));
    match Formatter::with_options(options) {
        Ok(_) => panic!("a formatter was made with an indent beyond the bound"),
        Err(failure) => assert_eq!(failure, expected),
    }
}

#[test]
fn the_largest_indent_is_refused() {
    let options = FormatOptions::from_flags(usize::MAX, false, false, false);
    assert!(options.validate().is_err());
}
