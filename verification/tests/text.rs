use aoc_2024::text::{
    chars_of, is_whitespace, parse_i64, parse_i64s, parse_u64, parse_u64s, read_digits,
    split_lines, split_words,
};

fn chars(text: &str) -> Vec<char> {
    text.chars().collect()
}

fn strings(rows: Vec<Vec<char>>) -> Vec<String> {
    rows.into_iter().map(|row| row.into_iter().collect()).collect()
}

#[test]
fn chars_of_keeps_every_character() {
    assert_eq!(chars_of("a\u{e9}\n#"), vec!['a', '\u{e9}', '\n', '#']);
    assert_eq!(chars_of(""), Vec::<char>::new());
}

#[test]
fn split_lines_agrees_with_the_standard_library() {
    let texts = [
        "", "\n", "a", "a\n", "a\nb", "a\n\nb\n", "\n\n", "a\r\nb\r\n", "a\rb\n", "a\r", "\r\n",
        "a\r\r\nb", "ab\ncd\n\n", "\na", "a\n\r",
    ];
    for text in texts {
        let expected: Vec<String> = text.lines().map(String::from).collect();
        assert_eq!(strings(split_lines(&chars(text))), expected);
    }
}

#[test]
fn split_words_agrees_with_the_standard_library() {
    let texts = [
        "", " ", "a", " a ", "a b", "a  b\tc", "\u{a0}a\u{3000}b\u{2003}", "a\u{200b}b", "1 2 3",
        "\u{85}x\u{1680}y\u{2028}z\u{2029}\u{202f}\u{205f}", "a\u{b}b\u{c}c\rd\ne",
    ];
    for text in texts {
        let expected: Vec<String> = text.split_whitespace().map(String::from).collect();
        assert_eq!(strings(split_words(&chars(text))), expected);
    }
}

#[test]
fn is_whitespace_agrees_with_the_standard_library() {
    for code in 0..0x11_0000u32 {
        if let Some(c) = char::from_u32(code) {
            assert_eq!(is_whitespace(c), c.is_whitespace());
        }
    }
}

#[test]
fn parse_u64_agrees_with_the_standard_library() {
    let words = [
        "", "0", "7", "007", "+7", "-7", "+", "-", "++7", "7+", " 7", "7 ", "1_000", "0x10",
        "18446744073709551615", "18446744073709551616", "99999999999999999999999", "+0", "-0",
        "12a", "\u{663}",
    ];
    for word in words {
        assert_eq!(parse_u64(&chars(word)), word.parse::<u64>().ok());
    }
}

#[test]
fn parse_i64_agrees_with_the_standard_library() {
    let words = [
        "", "0", "7", "007", "+7", "-7", "+", "-", "--7", "-+7", "7-", " 7", "-0", "+0",
        "9223372036854775807", "9223372036854775808", "-9223372036854775808",
        "-9223372036854775809", "18446744073709551616", "-18446744073709551616", "1.5", "1e3",
    ];
    for word in words {
        assert_eq!(parse_i64(&chars(word)), word.parse::<i64>().ok());
    }
}

#[test]
fn read_digits_starts_where_it_is_told() {
    assert_eq!(read_digits(&chars("ab123"), 2), Some(123));
    assert_eq!(read_digits(&chars("ab123"), 1), None);
    assert_eq!(read_digits(&chars("ab"), 2), None);
    assert_eq!(read_digits(&chars("18446744073709551615"), 0), Some(u64::MAX));
    assert_eq!(read_digits(&chars("18446744073709551616"), 0), None);
    assert_eq!(read_digits(&chars("18446744073709551616x"), 0), None);
}

#[test]
fn parse_lists_read_every_word_or_nothing() {
    assert_eq!(parse_i64s(&chars(" 1 -2  +3 ")), Some(vec![1, -2, 3]));
    assert_eq!(parse_i64s(&chars("")), Some(vec![]));
    assert_eq!(parse_i64s(&chars("1 two 3")), None);
    assert_eq!(parse_u64s(&chars("1 2 3")), Some(vec![1, 2, 3]));
    assert_eq!(parse_u64s(&chars("1 -2 3")), None);
}

#[test]
fn trim_agrees_with_the_standard_library() {
    for text in ["", " ", "a", " a", "a ", " a b ", "\n\ta\u{a0}\n", "\u{3000}x y\u{2003}", "  \n "]
    {
        let kept: String = aoc_2024::text::trim(&chars(text)).into_iter().collect();
        assert_eq!(kept, text.trim());
    }
}

#[test]
fn split_once_agrees_with_the_standard_library() {
    let cases = [
        ("a: b", ": "), ("a:b", ": "), (": ", ": "), ("a: b: c", ": "), ("", ": "), ("x", "x"),
        ("1   2", "   "), ("1    2", "   "), ("ab\n\ncd", "\n\n"), ("aaa", "aa"),
    ];
    for (text, pattern) in cases {
        let expected = text.split_once(pattern).map(|(a, b)| (a.to_string(), b.to_string()));
        let found = aoc_2024::text::split_once(&chars(text), &chars(pattern))
            .map(|(a, b)| (a.into_iter().collect::<String>(), b.into_iter().collect::<String>()));
        assert_eq!(found, expected);
    }
}

#[test]
fn split_at_each_agrees_with_the_standard_library() {
    for text in ["", "a", "a,b", ",", "a,,b", ",a,", "1,22,333"] {
        let expected: Vec<String> = text.split(',').map(String::from).collect();
        assert_eq!(strings(aoc_2024::text::split_at_each(&chars(text), ',')), expected);
    }
}

#[test]
fn write_digits_agrees_with_the_standard_library() {
    for number in [0, 1, 9, 10, 11, 99, 100, 101, 2024, 9999999999, u64::MAX - 1, u64::MAX] {
        let written: String = aoc_2024::text::write_digits(number).into_iter().collect();
        assert_eq!(written, number.to_string());
        assert_eq!(parse_u64(&chars(&written)), Some(number));
    }
}
