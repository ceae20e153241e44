use tinybasic::symbols::NameSet;
use tinybasic::text::{char_is_digit, integer_to_string, parse_decimal, push_decimal};

fn digits(text: &str) -> Vec<char> {
    text.chars().collect()
}

#[test]
fn decimal_digits_only() {
    for c in ['0', '1', '5', '9'] {
        assert!(char_is_digit(c));
    }
    for c in ['/', ':', 'a', ' ', '.', '-', '٣', '５'] {
        assert!(!char_is_digit(c));
    }
}

#[test]
fn parse_decimal_reads_digit_strings() {
    assert_eq!(parse_decimal(&digits("0")), Some(0));
    assert_eq!(parse_decimal(&digits("15")), Some(15));
    assert_eq!(parse_decimal(&digits("000123")), Some(123));
    assert_eq!(parse_decimal(&digits("2147483647")), Some(i32::MAX));
}

#[test]
fn parse_decimal_declines_what_is_no_number() {
    assert_eq!(parse_decimal(&digits("")), None);
    assert_eq!(parse_decimal(&digits("2147483648")), None);
    assert_eq!(parse_decimal(&digits("99999999999999999999")), None);
    assert_eq!(parse_decimal(&digits("-1")), None);
    assert_eq!(parse_decimal(&digits("+1")), None);
    assert_eq!(parse_decimal(&digits("1a")), None);
    assert_eq!(parse_decimal(&digits("1.0")), None);
    assert_eq!(parse_decimal(&digits(" 1")), None);
}

#[test]
fn parse_decimal_agrees_with_the_standard_parser() {
    for text in ["0", "7", "42", "0042", "2147483647", "2147483648", "4294967296", "", "12x"] {
        assert_eq!(parse_decimal(&digits(text)), text.parse::<i32>().ok(), "{:?}", text);
    }
}

#[test]
fn integers_are_written_in_decimal() {
    assert_eq!(integer_to_string(0), "0");
    assert_eq!(integer_to_string(7), "7");
    assert_eq!(integer_to_string(10), "10");
    assert_eq!(integer_to_string(1234567890), "1234567890");
    assert_eq!(integer_to_string(-1), "-1");
    assert_eq!(integer_to_string(-305), "-305");
    assert_eq!(integer_to_string(i32::MAX), "2147483647");
    assert_eq!(integer_to_string(i32::MIN), "-2147483648");
}

#[test]
fn integers_are_written_as_the_standard_formatter_writes_them() {
    for value in [0, 1, 9, 10, 99, 100, 101, -1, -10, 65536, i32::MAX, i32::MIN, i32::MIN + 1] {
        assert_eq!(integer_to_string(value), format!("{}", value));
    }
}

#[test]
fn written_and_read_back() {
    for value in [0, 1, 9, 10, 11, 100, 999, 1000, 123456789, i32::MAX] {
        let text = integer_to_string(value);
        assert_eq!(parse_decimal(&digits(&text)), Some(value));
    }
}

#[test]
fn push_decimal_appends() {
    let mut out = String::from("n=");
    push_decimal(&mut out, 0);
    assert_eq!(out, "n=0");
    push_decimal(&mut out, 4294967295);
    assert_eq!(out, "n=04294967295");
    push_decimal(&mut out, 10);
    assert_eq!(out, "n=0429496729510");
}

#[test]
fn name_set_keeps_first_insertion_order() {
    let mut set = NameSet::new();
    assert_eq!(set.len(), 0);
    assert!(!set.contains("a"));
    assert!(set.insert("b".to_string()));
    assert!(set.insert("a".to_string()));
    assert!(!set.insert("b".to_string()));
    assert!(set.insert("".to_string()));
    assert_eq!(set.len(), 3);
    assert!(set.contains("a"));
    assert!(set.contains("b"));
    assert!(set.contains(""));
    assert!(!set.contains("c"));
    assert!(!set.contains("A"));
    assert_eq!(
        set.names(),
        &vec!["b".to_string(), "a".to_string(), "".to_string()]
    );
}
