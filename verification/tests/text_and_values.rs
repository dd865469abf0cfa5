use cobra::runtime;
use cobra::text::{i64_to_decimal, parse_i64, str_eq, trim_end};
use cobra::values::{format_value, parse_input, InputError};

#[test]
fn decimal_text_of_numbers() {
    assert_eq!(i64_to_decimal(0), "0");
    assert_eq!(i64_to_decimal(42), "42");
    assert_eq!(i64_to_decimal(-7), "-7");
    assert_eq!(i64_to_decimal(i64::MAX), "9223372036854775807");
    assert_eq!(i64_to_decimal(i64::MIN), "-9223372036854775808");
}

#[test]
fn reading_numbers_like_from_str() {
    assert_eq!(parse_i64("100"), Some(100));
    assert_eq!(parse_i64("+5"), Some(5));
    assert_eq!(parse_i64("-0"), Some(0));
    assert_eq!(parse_i64("-9223372036854775808"), Some(i64::MIN));
    assert_eq!(parse_i64("9223372036854775807"), Some(i64::MAX));
    assert_eq!(parse_i64("9223372036854775808"), None);
    assert_eq!(parse_i64("00000000000000000000000000012"), Some(12));
    assert_eq!(parse_i64("12a"), None);
    assert_eq!(parse_i64(""), None);
    assert_eq!(parse_i64("-"), None);
    assert_eq!(parse_i64("+"), None);
    assert_eq!(parse_i64(" 1"), None);
    for s in ["0", "-1", "123456789", "-987654321", "+77"] {
        assert_eq!(parse_i64(s), s.parse::<i64>().ok());
    }
}

#[test]
fn string_equality_and_trimming() {
    assert!(str_eq("set!", "set!"));
    assert!(!str_eq("set", "set!"));
    assert!(!str_eq("", "a"));
    assert_eq!(trim_end("(add1 1)  \t\n"), "(add1 1)");
    assert_eq!(trim_end("  x"), "  x");
    assert_eq!(trim_end(" \n\u{3000}"), "");
    assert_eq!(trim_end("quit\r\n"), "quit");
}

#[test]
fn program_input_words() {
    assert_eq!(parse_input("true"), Ok(3));
    assert_eq!(parse_input("false"), Ok(1));
    assert_eq!(parse_input("100"), Ok(200));
    assert_eq!(parse_input("-3"), Ok(-6));
    assert_eq!(parse_input("4611686018427387903"), Ok(9223372036854775806));
    assert_eq!(parse_input("-4611686018427387904"), Ok(i64::MIN));
    assert_eq!(parse_input("4611686018427387904"), Err(InputError::Overflow));
    assert_eq!(parse_input("abc"), Err(InputError::NotAValue));
    assert_eq!(InputError::Overflow.message(), "Invalid: number overflow");
    assert_eq!(
        InputError::NotAValue.message(),
        "Invalid input: must be 'true', 'false', or a number"
    );
}

#[test]
fn result_words_print_as_values() {
    assert_eq!(format_value(202), "101");
    assert_eq!(format_value(-6), "-3");
    assert_eq!(format_value(0), "0");
    assert_eq!(format_value(3), "true");
    assert_eq!(format_value(1), "false");
    assert_eq!(format_value(7), "false");
}

#[test]
fn input_prints_back() {
    for n in [0i64, 1, -1, 101, -4611686018427387904, 4611686018427387903] {
        let text = i64_to_decimal(n);
        let word = parse_input(&text).unwrap();
        assert_eq!(format_value(word), text);
    }
    assert_eq!(format_value(parse_input("true").unwrap()), "true");
    assert_eq!(format_value(parse_input("false").unwrap()), "false");
}

#[test]
fn runtime_input_words() {
    assert_eq!(runtime::parse_input("true"), Some(3));
    assert_eq!(runtime::parse_input("false"), Some(1));
    assert_eq!(runtime::parse_input("100"), Some(200));
    assert_eq!(runtime::parse_input("-1"), Some(u64::MAX - 1));
    assert_eq!(runtime::parse_input("4611686018427387904"), Some(9223372036854775808));
    assert_eq!(runtime::parse_input("x"), None);
}

#[test]
fn runtime_error_messages() {
    assert_eq!(cobra::runtime::runtime_error_message(1), "invalid argument");
    assert_eq!(cobra::runtime::runtime_error_message(2), "overflow");
    assert_eq!(cobra::runtime::runtime_error_message(3), "an error occurred 3");
    assert_eq!(cobra::runtime::runtime_error_message(-7), "an error occurred -7");
}
