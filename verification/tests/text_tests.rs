use sudoku_solver::text::{
    chars_of, decimal_string, digit_of, digit_text, is_blank, is_digit, is_space, lines, parse_u8,
    split, trim,
};

fn chars(s: &str) -> Vec<char> {
    s.chars().collect()
}

fn texts(parts: Vec<Vec<char>>) -> Vec<String> {
    parts.into_iter().map(|p| p.into_iter().collect()).collect()
}

#[test]
fn chars_of_keeps_every_character() {
    assert_eq!(chars_of(""), Vec::<char>::new());
    assert_eq!(chars_of("a1\u{e9}\u{1F600}"), vec!['a', '1', '\u{e9}', '\u{1F600}']);
}

#[test]
fn digits_are_the_ten_ascii_digits() {
    for (value, c) in "0123456789".chars().enumerate() {
        assert!(is_digit(c));
        assert_eq!(digit_of(c), value as u8);
        assert_eq!(digit_text(value as u8), c.to_string());
    }
    for c in ['/', ':', 'a', ' ', '\u{0663}', '\u{ff11}'] {
        assert!(!is_digit(c));
    }
}

#[test]
fn white_space_is_what_unicode_says() {
    for code in 0..=0x3100u32 {
        if let Some(c) = char::from_u32(code) {
            assert_eq!(is_space(c), c.is_whitespace(), "U+{:04X}", code);
        }
    }
    assert!(!is_space('\u{feff}'));
    assert!(!is_space('\u{1F600}'));
}

#[test]
fn is_blank_agrees_with_trimming_to_nothing() {
    for text in ["", " ", "\n\t \r", "\u{3000}", " a ", "0", "\u{feff}"] {
        assert_eq!(is_blank(text), text.trim().is_empty(), "{:?}", text);
    }
}

#[test]
fn split_gives_one_piece_more_than_separators() {
    assert_eq!(texts(split(&chars(""), ',')), vec![""]);
    assert_eq!(texts(split(&chars("a"), ',')), vec!["a"]);
    assert_eq!(texts(split(&chars(","), ',')), vec!["", ""]);
    assert_eq!(texts(split(&chars("a,b,,c,"), ',')), vec!["a", "b", "", "c", ""]);
    assert_eq!(texts(split(&chars("a,b"), ';')), vec!["a,b"]);
    for text in ["", ",", "a,b", ",a,,b,", "1, 2 ,3"] {
        let expected: Vec<String> = text.split(',').map(|p| p.to_string()).collect();
        assert_eq!(texts(split(&chars(text), ',')), expected);
    }
}

#[test]
fn lines_leave_out_the_piece_after_a_final_line_feed() {
    assert_eq!(texts(lines(&chars(""))), Vec::<String>::new());
    assert_eq!(texts(lines(&chars("a"))), vec!["a"]);
    assert_eq!(texts(lines(&chars("a\n"))), vec!["a"]);
    assert_eq!(texts(lines(&chars("\n"))), vec![""]);
    assert_eq!(texts(lines(&chars("a\n\n"))), vec!["a", ""]);
    assert_eq!(texts(lines(&chars("a\nb"))), vec!["a", "b"]);
    assert_eq!(texts(lines(&chars("\na"))), vec!["", "a"]);
}

#[test]
fn trim_agrees_with_std() {
    for text in [
        "",
        " ",
        "a",
        " a",
        "a ",
        " \t a b \r\n",
        "\u{3000}1\u{a0}",
        "\u{feff}1",
        "   ",
    ] {
        let inner: String = trim(&chars(text)).into_iter().collect();
        assert_eq!(inner, text.trim(), "{:?}", text);
    }
}

#[test]
fn parse_u8_agrees_with_std() {
    for text in [
        "", "0", "7", "+7", "-7", "-0", "+", "++7", "+-7", "007", "255", "256", "0255", "00000255",
        "1000", "99999999999999999999", "2 5", " 5", "5 ", "1.0", "0x10", "a", "\u{0663}", "+0",
        "25+",
    ] {
        assert_eq!(parse_u8(&chars(text)), text.parse::<u8>().ok(), "{:?}", text);
    }
    for n in 0..=300u32 {
        let text = n.to_string();
        assert_eq!(parse_u8(&chars(&text)), text.parse::<u8>().ok());
    }
}

#[test]
fn decimal_string_agrees_with_std() {
    for n in [0usize, 1, 9, 10, 11, 99, 100, 101, 1204, 65535, usize::MAX] {
        assert_eq!(decimal_string(n), n.to_string());
    }
}
