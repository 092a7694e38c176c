use formatjson5::order::{compare_literals, compare_values, lex_bytes, rank_of, read_decimal};
use formatjson5::sort::sorting_swaps;

fn bytes(text: &str) -> Vec<u8> {
    text.as_bytes().to_vec()
}

fn compared(a: &str, b: &str) -> i8 {
    compare_literals(&bytes(a), &bytes(b))
}

fn by_value(a: &str, b: &str) -> i8 {
    match (read_decimal(&bytes(a)), read_decimal(&bytes(b))) {
        (Some(left), Some(right)) => compare_values(&left, &right),
        _ => panic!("not a decimal"),
    }
}

fn put_in_order(literals: &[&str]) -> Vec<String> {
    let keys: Vec<Vec<u8>> = literals.iter().map(|literal| bytes(literal)).collect();
    let mut now: Vec<String> = literals.iter().map(|literal| literal.to_string()).collect();
    for (first, second) in sorting_swaps(&keys) {
        assert!(first < second && second < now.len());
        now.swap(first, second);
    }
    now
}

#[test]
fn bytes_are_compared_from_the_front() {
    assert_eq!(lex_bytes(&bytes("abc"), &bytes("abd")), -1);
    assert_eq!(lex_bytes(&bytes("b"), &bytes("abc")), 1);
    assert_eq!(lex_bytes(&bytes("ab"), &bytes("abc")), -1);
    assert_eq!(lex_bytes(&bytes("abc"), &bytes("ab")), 1);
    assert_eq!(lex_bytes(&bytes("abc"), &bytes("abc")), 0);
    assert_eq!(lex_bytes(&bytes(""), &bytes("")), 0);
}

#[test]
fn literals_have_their_rank() {
    assert_eq!(rank_of(&bytes("null")), 0);
    assert_eq!(rank_of(&bytes("false")), 1);
    assert_eq!(rank_of(&bytes("true")), 2);
    assert_eq!(rank_of(&bytes("12")), 3);
    assert_eq!(rank_of(&bytes("NaN")), 3);
    assert_eq!(rank_of(&bytes("\"null\"")), 4);
    assert_eq!(rank_of(&bytes("'x'")), 4);
}

#[test]
fn decimals_are_read() {
    let read = read_decimal(&bytes("-12.050")).expect("a number");
    assert!(read.negative && !read.infinite);
    assert_eq!(read.digits, bytes("12050"));
    assert_eq!(read.base, 2);
    assert_eq!(read.exponent, bytes(""));
    let read = read_decimal(&bytes("+.05")).expect("a number");
    assert!(!read.negative);
    assert_eq!(read.digits, bytes("5"));
    assert_eq!(read.base, -1);
    let read = read_decimal(&bytes("7.")).expect("a number");
    assert_eq!(read.digits, bytes("7"));
    assert_eq!(read.base, 1);
    let read = read_decimal(&bytes("0.00")).expect("a number");
    assert_eq!(read.digits, bytes(""));
}

#[test]
fn exponents_are_read() {
    let read = read_decimal(&bytes("1.5e3")).expect("a number");
    assert_eq!(read.digits, bytes("15"));
    assert_eq!(read.base, 1);
    assert!(!read.exponent_negative);
    assert_eq!(read.exponent, bytes("3"));
    let read = read_decimal(&bytes("25E-4")).expect("a number");
    assert_eq!(read.base, 2);
    assert!(read.exponent_negative);
    assert_eq!(read.exponent, bytes("4"));
    let read = read_decimal(&bytes("-.5e+0010")).expect("a number");
    assert!(read.negative && !read.exponent_negative);
    assert_eq!(read.exponent, bytes("0010"));
    let read = read_decimal(&bytes("1e123456789012345678901234567890123456789")).expect("a number");
    assert_eq!(read.exponent, bytes("123456789012345678901234567890123456789"));
}

#[test]
fn numbers_in_hexadecimal_are_read() {
    let read = read_decimal(&bytes("0x1F")).expect("a number");
    assert_eq!(read.digits, bytes("31"));
    assert_eq!(read.base, 2);
    let read = read_decimal(&bytes("-0Xff")).expect("a number");
    assert!(read.negative);
    assert_eq!(read.digits, bytes("255"));
    let read = read_decimal(&bytes("0x0")).expect("a number");
    assert_eq!(read.digits, bytes(""));
    let read = read_decimal(&bytes("0x000a")).expect("a number");
    assert_eq!(read.digits, bytes("10"));
    let read = read_decimal(&bytes("0x1000000000000000")).expect("a number");
    assert_eq!(read.digits, bytes("1152921504606846976"));
    let read = read_decimal(&bytes("0xffffffffffffffffffffffffffffffff")).expect("a number");
    assert_eq!(read.digits, bytes("340282366920938463463374607431768211455"));
    assert_eq!(read.base, 39);
    let read = read_decimal(&bytes("0x10000000000000000000000000000000000000000")).expect("a number");
    assert_eq!(read.digits, bytes("1461501637330902918203684832716283019655932542976"));
}

#[test]
fn infinity_is_read() {
    let read = read_decimal(&bytes("Infinity")).expect("a number");
    assert!(read.infinite && !read.negative);
    let read = read_decimal(&bytes("-Infinity")).expect("a number");
    assert!(read.infinite && read.negative);
}

#[test]
fn what_writes_no_value_is_not_read() {
    for literal in [
        "", "-", "+", ".", "-.", "e5", "1e", "1e+", "1e5x", "1.2.3", "12a", "0x", "0xg", "NaN",
        "-NaN", "infinity",
    ] {
        assert!(read_decimal(&bytes(literal)).is_none(), "{}", literal);
    }
}

#[test]
fn numbers_are_compared_by_value() {
    assert_eq!(by_value("9.0", "10"), -1);
    assert_eq!(by_value("100", "10"), 1);
    assert_eq!(by_value("10", "10.000"), 0);
    assert_eq!(by_value("0.5", ".50"), 0);
    assert_eq!(by_value("0.25", "0.3"), -1);
    assert_eq!(by_value("1.01", "1.001"), 1);
    assert_eq!(by_value("007", "7"), 0);
    assert_eq!(by_value("-1", "1"), -1);
    assert_eq!(by_value("-1", "-2"), 1);
    assert_eq!(by_value("-0.5", "-0.25"), -1);
    assert_eq!(by_value("-0", "0.0"), 0);
    assert_eq!(by_value("+3", "3"), 0);
    assert_eq!(by_value("0", "-0.001"), 1);
    assert_eq!(by_value("123456789012345678901234567890", "123456789012345678901234567891"), -1);
    assert_eq!(by_value("1e2", "100"), 0);
    assert_eq!(by_value("1.5e1", "15"), 0);
    assert_eq!(by_value("0.001e3", "1"), 0);
    assert_eq!(by_value("1e-2", "0.01"), 0);
    assert_eq!(by_value("1e2", "20"), 1);
    assert_eq!(by_value("9e-1", "1"), -1);
    assert_eq!(by_value("1e400", "2e399"), 1);
    assert_eq!(by_value("0e5", "0"), 0);
    assert_eq!(by_value("0x10", "16"), 0);
    assert_eq!(by_value("0xff", "254.5"), 1);
    assert_eq!(by_value("-0x10", "-15"), -1);
    assert_eq!(by_value("Infinity", "1e999999"), 1);
    assert_eq!(by_value("-Infinity", "-1e999999"), -1);
    assert_eq!(by_value("Infinity", "+Infinity"), 0);
    assert_eq!(by_value("-Infinity", "Infinity"), -1);
    assert_eq!(by_value("0x1000000000000000", "1152921504606846976"), 0);
    assert_eq!(by_value("0x1000000000000000", "1152921504606846977"), -1);
    assert_eq!(by_value("0xffffffffffffffffffffffffffffffff", "3.4e38"), 1);
    assert_eq!(by_value("1e99999999999999999999", "1e99999999999999999998"), 1);
    assert_eq!(by_value("1e99999999999999999999", "10e99999999999999999998"), 0);
    assert_eq!(by_value("1e-99999999999999999999", "0"), 1);
    assert_eq!(by_value("-1e99999999999999999999", "-Infinity"), 1);
    assert_eq!(by_value("1e100000000000000000000000000000000000", "9e99999999999999999999999999999999999"), 1);
    assert_eq!(by_value("0.1e100000000000000000000000000000000000", "9e99999999999999999999999999999999999"), -1);
    assert_eq!(by_value("1e-5", "1e5"), -1);
    assert_eq!(by_value("2e0005", "200000"), 0);
}

#[test]
fn literals_are_compared_by_kind_first() {
    assert_eq!(compared("null", "false"), -1);
    assert_eq!(compared("false", "true"), -1);
    assert_eq!(compared("true", "-5"), -1);
    assert_eq!(compared("99", "\"0\""), -1);
    assert_eq!(compared("\"a\"", "null"), 1);
    assert_eq!(compared("true", "true"), 0);
}

#[test]
fn a_literal_without_a_value_stands_behind_the_numbers() {
    assert_eq!(compared("NaN", "Infinity"), 1);
    assert_eq!(compared("1e999", "NaN"), -1);
    assert_eq!(compared("-NaN", "-Infinity"), 1);
    assert_eq!(compared("NaN", "NaN"), 0);
    assert_eq!(compared("+NaN", "NaN"), -1);
    assert_eq!(compared("NaN", "\"a\""), -1);
    assert_eq!(compared("NaN", "true"), 1);
}

#[test]
fn equal_values_are_compared_by_their_literals() {
    assert_eq!(compared("1", "1.0"), -1);
    assert_eq!(compared("1.0", "1"), 1);
    assert_eq!(compared("1.0", "1.0"), 0);
    assert_eq!(compared("\"a\"", "'a'"), -1);
}

#[test]
fn strings_are_compared_between_their_quotes() {
    assert_eq!(compared("\"B\"", "\"a\""), -1);
    assert_eq!(compared("'b'", "\"a\""), 1);
    assert_eq!(compared("\"\"", "\"a\""), -1);
    assert_eq!(compared("\"ab\"", "\"a\""), 1);
}

#[test]
fn comparing_the_other_way_round_gives_the_opposite() {
    let literals = [
        "null", "true", "false", "0", "-0", "1.5", "-1.5", "10", "9.0", "\"a\"", "'a'", "\"B\"",
        "1e5", "0x1f", "Infinity", "-Infinity", "NaN", "1e-3",
    ];
    for a in literals {
        for b in literals {
            assert_eq!(compared(a, b), -compared(b, a), "{} and {}", a, b);
        }
    }
}

#[test]
fn exchanges_put_literals_in_order() {
    assert_eq!(put_in_order(&[]), Vec::<String>::new());
    assert_eq!(put_in_order(&["1"]), vec!["1"]);
    assert_eq!(put_in_order(&["10", "9.0", "100"]), vec!["9.0", "10", "100"]);
    assert_eq!(
        put_in_order(&["\"a\"", "3", "true", "null", "-3", "false", "\"B\""]),
        vec!["null", "false", "true", "-3", "3", "\"B\"", "\"a\""]
    );
    assert_eq!(put_in_order(&["2", "1", "2", "1"]), vec!["1", "1", "2", "2"]);
}
