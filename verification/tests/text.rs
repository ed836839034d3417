//! Escaping, splitting, lines and numbers.
use picture_cleaner::escape::{escape_field, unescape_field};
use picture_cleaner::numbers::{decimal_text, hex_of_bytes, hex_text, parse_number};
use picture_cleaner::text::{chars_of, lines_of, split_text, text_between};

#[test]
fn escaping_writes_three_characters_otherwise() {
    assert_eq!(escape_field("C:\\a\tb\nc"), "C:\\\\a\\tb\\nc");
    assert_eq!(escape_field("猫.png"), "猫.png");
    assert_eq!(escape_field(""), "");
    assert_eq!(escape_field("\r"), "\r");
}

#[test]
fn unescaping_reads_every_sequence() {
    assert_eq!(unescape_field("a\\tb\\nc\\\\d"), "a\tb\nc\\d");
    assert_eq!(unescape_field("\\q\\猫"), "q猫");
    assert_eq!(unescape_field("\\\\t"), "\\t");
}

#[test]
fn unescaping_drops_a_backslash_at_the_end() {
    assert_eq!(unescape_field("abc\\"), "abc");
    assert_eq!(unescape_field("\\"), "");
}

#[test]
fn escaping_round_trip() {
    for value in ["", "plain", "\t\n\\", "\\t", "C:\\写真\\a\tb.png", "\\\\n\n"] {
        let written: String = escape_field(value);
        assert!(!written.contains('\t'));
        assert!(!written.contains('\n'));
        assert_eq!(unescape_field(&written), value);
    }
}

#[test]
fn escaped_values_stay_apart() {
    assert_ne!(escape_field("\t"), escape_field("\\t"));
    assert_ne!(escape_field("\n"), escape_field("\\n"));
    assert_ne!(escape_field("\\"), escape_field("\\\\"));
}

#[test]
fn splitting_keeps_empty_pieces() {
    assert_eq!(split_text("a\tb\t", '\t'), vec!["a", "b", ""]);
    assert_eq!(split_text("", '\t'), vec![""]);
    assert_eq!(split_text("\t\t", '\t'), vec!["", "", ""]);
    assert_eq!(split_text("ab", '\t'), vec!["ab"]);
}

#[test]
fn lines_are_those_of_the_standard_library() {
    for text in [
        "", "\n", "a", "a\n", "a\nb", "a\r\nb\r\n", "a\r\nb\r", "\r\n", "\n\n", "a\r\r\nb", "x\r",
    ] {
        let expected: Vec<&str> = text.lines().collect();
        assert_eq!(lines_of(text), expected, "{text:?}");
    }
    assert_eq!(lines_of("a\r\nb\r"), vec!["a", "b\r"]);
}

#[test]
fn characters_come_one_by_one() {
    assert_eq!(chars_of("a猫\t"), vec!['a', '猫', '\t']);
    assert_eq!(text_between(&chars_of("a猫b"), 1, 2), "猫");
    assert_eq!(text_between(&chars_of("abc"), 1, 1), "");
}

#[test]
fn decimal_numbers_are_written_plainly() {
    assert_eq!(decimal_text(0), "0");
    assert_eq!(decimal_text(9), "9");
    assert_eq!(decimal_text(10), "10");
    assert_eq!(decimal_text(u64::MAX), "18446744073709551615");
}

#[test]
fn hexadecimal_numbers_are_in_lower_case() {
    assert_eq!(hex_text(0), "0");
    assert_eq!(hex_text(255), "ff");
    assert_eq!(hex_text(4096), "1000");
    assert_eq!(hex_text(u64::MAX), "ffffffffffffffff");
}

#[test]
fn bytes_take_two_hexadecimal_digits_each() {
    assert_eq!(hex_of_bytes(&[0, 10, 255, 16]), "000aff10");
    assert_eq!(hex_of_bytes(&[]), "");
}

#[test]
fn numbers_are_parsed_as_the_standard_library_does() {
    for text in [
        "0", "7", "+7", "007", "18446744073709551615", "18446744073709551616",
        "99999999999999999999999", "", "+", "-", "-1", "-0", "++1", "1+", " 1", "1 ", "1.0", "0x10",
        "１", "a",
    ] {
        assert_eq!(parse_number(text, u64::MAX), text.parse::<u64>().ok(), "{text:?}");
        let small: Option<u64> = text.parse::<u32>().ok().map(u64::from);
        assert_eq!(parse_number(text, u64::from(u32::MAX)), small, "{text:?}");
    }
    assert_eq!(parse_number("4294967295", u64::from(u32::MAX)), Some(4294967295));
    assert_eq!(parse_number("4294967296", u64::from(u32::MAX)), None);
}

#[test]
fn parsing_undoes_writing() {
    for n in [0u64, 1, 9, 10, 99, 100, 4294967296, u64::MAX] {
        assert_eq!(parse_number(&decimal_text(n), u64::MAX), Some(n));
    }
}

#[test]
fn joined_texts_are_escaped_piece_by_piece() {
    for (left, right) in [("a\t", "\nb"), ("\\", "t"), ("", "x"), ("x", "")] {
        let whole: String = format!("{left}{right}");
        assert_eq!(escape_field(&whole), format!("{}{}", escape_field(left), escape_field(right)));
    }
}

#[test]
fn plain_values_alone_are_written_as_they_are() {
    for value in ["", "plain", "猫.png", "a b/c\r"] {
        assert_eq!(escape_field(value), value);
    }
    for value in ["\t", "\n", "\\", "a\\b"] {
        assert_ne!(escape_field(value), value);
    }
}

#[test]
fn different_bytes_are_written_differently() {
    assert_ne!(hex_of_bytes(&[1, 16]), hex_of_bytes(&[16, 1]));
    assert_ne!(hex_of_bytes(&[0]), hex_of_bytes(&[0, 0]));
}
