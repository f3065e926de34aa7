use advent::text::{
    chars_of, digits_of, parse_i64, parse_u32, parse_u64, split, split_whitespace, to_digit,
};

fn chars(s: &str) -> Vec<char> {
    s.chars().collect()
}

fn strings(parts: Vec<Vec<char>>) -> Vec<String> {
    parts.into_iter().map(|p| p.into_iter().collect()).collect()
}

#[test]
fn digits_have_their_value() {
    assert_eq!(Some(0), to_digit('0'));
    assert_eq!(Some(9), to_digit('9'));
    assert_eq!(None, to_digit('a'));
    assert_eq!(None, to_digit('/'));
    assert_eq!(None, to_digit(':'));
}

#[test]
fn numbers_parse_as_in_std() {
    for s in ["0", "7", "+7", "007", "4294967295", "4294967296", "", "+", "-1", "1a", " 1", "18446744073709551615", "18446744073709551616", "99999999999999999999999"] {
        assert_eq!(s.parse::<u32>().ok(), parse_u32(&chars(s)), "{}", s);
        assert_eq!(s.parse::<u64>().ok(), parse_u64(&chars(s)), "{}", s);
    }
    for s in ["0", "-0", "+5", "-5", "9223372036854775807", "9223372036854775808", "-9223372036854775808", "-9223372036854775809", "-", "--1", "+-1", "1-"] {
        assert_eq!(s.parse::<i64>().ok(), parse_i64(&chars(s)), "{}", s);
    }
}

#[test]
fn digits_write_numbers_as_to_string() {
    for n in [0u64, 1, 9, 10, 11, 99, 100, 12345, u64::MAX] {
        let written: String = digits_of(n).into_iter().collect();
        assert_eq!(n.to_string(), written);
    }
}

#[test]
fn split_cuts_as_str_split() {
    for (text, sep) in [("a,b,c", ","), ("a,,c", ","), (",a,", ","), ("", ","), ("abc", ","), ("a: b: c", ": "), ("aaa", "aa"), ("aaaa", "aa"), ("ab", "abc")] {
        let expected: Vec<String> = text.split(sep).map(|s| s.to_string()).collect();
        assert_eq!(expected, strings(split(&chars(text), &chars(sep))), "{:?} {:?}", text, sep);
    }
}

#[test]
fn words_are_as_split_whitespace() {
    for text in ["3   4", " a b ", "", "   ", "one", "a\tb\nc", "x  "] {
        let expected: Vec<String> = text.split_whitespace().map(|s| s.to_string()).collect();
        assert_eq!(expected, strings(split_whitespace(&chars(text))), "{:?}", text);
    }
}

#[test]
fn chars_of_gives_the_characters() {
    assert_eq!(vec!['a', 'ß', 'c'], chars_of("aßc"));
    assert!(chars_of("").is_empty());
}
