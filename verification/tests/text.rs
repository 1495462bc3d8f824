//! Text primitives against those of the standard library.

use localhost::numeral::{digit, parse_number, push_decimal, push_two_digits, to_hex};
use localhost::text;

fn chars(s: &str) -> Vec<char> {
    s.chars().collect()
}

fn string(s: &[char]) -> String {
    s.iter().collect()
}

fn strings(parts: Vec<&[char]>) -> Vec<String> {
    parts.into_iter().map(string).collect()
}

const SAMPLES: [&str; 16] = [
    "",
    " ",
    "a",
    " a b ",
    "a\r\nb\r\n",
    "\n\n",
    "a\r",
    "a\nb\r\r\nc",
    "\u{a0}x\u{3000}y\u{85}",
    "a=b=c",
    "===",
    "\"quoted\"",
    "\u{e9}=\u{1f600}",
    "one  two\tthree\u{2003}four",
    "\r\n\r\n",
    "HeLLo W\u{d6}RLD",
];

#[test]
fn white_space_is_that_of_unicode() {
    for c in '\0'..=char::MAX {
        assert_eq!(text::white_space(c), c.is_whitespace(), "{c:?}");
    }
}

#[test]
fn letters_change_their_case_as_in_ascii() {
    for c in '\0'..=char::MAX {
        assert_eq!(text::to_lower(c), c.to_ascii_lowercase(), "{c:?}");
    }
}

#[test]
fn splitting_agrees_with_str() {
    for sample in SAMPLES {
        let s = chars(sample);
        let expected: Vec<String> = sample.split('=').map(String::from).collect();
        assert_eq!(strings(text::split_char(&s, '=')), expected);
        let expected: Vec<String> = sample.split("\r\n").map(String::from).collect();
        assert_eq!(strings(text::split_lines(&s)), expected);
        let expected: Vec<String> = sample.lines().map(String::from).collect();
        assert_eq!(strings(text::lines(&s)), expected, "{sample:?}");
        let expected: Vec<String> = sample.split_whitespace().map(String::from).collect();
        assert_eq!(strings(text::split_whitespace(&s)), expected);
        let expected = sample
            .split_once('=')
            .map(|(a, b)| (a.to_string(), b.to_string()));
        assert_eq!(
            text::split_once(&s, '=').map(|(a, b)| (string(a), string(b))),
            expected
        );
        assert_eq!(string(text::up_to(&s, '=')), sample.split('=').next().unwrap());
    }
}

#[test]
fn trimming_agrees_with_str() {
    for sample in SAMPLES {
        let s = chars(sample);
        assert_eq!(string(text::trim(&s)), sample.trim());
        let quote = text::CharClass::Only('"');
        assert_eq!(string(text::trim_of(&s, &quote)), sample.trim_matches('"'));
        let equals = text::CharClass::Only('=');
        assert_eq!(
            string(text::trim_start_of(&s, &equals)),
            sample.trim_start_matches('=')
        );
        assert_eq!(
            string(text::trim_end_of(&s, &equals)),
            sample.trim_end_matches('=')
        );
        let either = text::CharClass::Either('=', ' ');
        let (head, tail) = text::split_behind_last(&s, &either);
        assert_eq!(string(tail), sample.rsplit(['=', ' ']).next().unwrap());
        assert_eq!(format!("{}{}", string(head), string(tail)), sample);
    }
}

#[test]
fn searching_agrees_with_str() {
    for sample in SAMPLES {
        for pattern in SAMPLES {
            let s = chars(sample);
            let p = chars(pattern);
            assert_eq!(text::contains(&s, pattern), sample.contains(pattern));
            assert_eq!(text::starts_with(&s, &p), sample.starts_with(pattern));
            assert_eq!(text::ends_with(&s, &p), sample.ends_with(pattern));
            assert_eq!(
                text::find(sample.as_bytes(), pattern.as_bytes()),
                sample.find(pattern)
            );
            assert_eq!(
                text::same_letters_text(sample, pattern),
                sample.eq_ignore_ascii_case(pattern)
            );
            assert_eq!(text::same_text(sample, pattern), sample == pattern);
            assert_eq!(text::spells(&s, pattern), sample == pattern);
            assert_eq!(
                text::concat3(sample, pattern, sample),
                format!("{sample}{pattern}{sample}")
            );
        }
        assert_eq!(text::text_of(&text::chars_of(sample)), sample);
        assert_eq!(
            string(&text::to_ascii_lowercase(&chars(sample))),
            sample.to_ascii_lowercase()
        );
        assert_eq!(text::leads(sample, 'a'), sample.starts_with('a'));
    }
    assert_eq!(text::split(b"abc" as &[u8], b""), vec![b"abc" as &[u8]]);
}

#[test]
fn bytes_are_read_as_text_where_they_are() {
    for sample in SAMPLES {
        assert_eq!(text::decode(sample.as_bytes()), Some(chars(sample)));
    }
    assert_eq!(text::decode(b"a\xc3"), None);
    assert_eq!(text::decode(b"\xed\xa0\x80"), None);
}

#[test]
fn numbers_are_read_as_by_parse() {
    let numerals = [
        "0", "7", "+7", "-7", "", "+", "++1", "007", "65535", "65536", "18446744073709551615",
        "18446744073709551616", "1e3", " 1", "\u{661}",
    ];
    for numeral in numerals {
        let s = chars(numeral);
        assert_eq!(parse_number(&s, 10, u64::MAX), numeral.parse::<u64>().ok(), "{numeral}");
        assert_eq!(
            parse_number(&s, 10, 65535),
            numeral.parse::<u16>().ok().map(u64::from),
            "{numeral}"
        );
        assert_eq!(
            parse_number(&s, 16, u64::MAX),
            u64::from_str_radix(numeral, 16).ok(),
            "{numeral}"
        );
    }
    assert_eq!(parse_number(&chars("fF"), 16, 255), Some(255));
    assert_eq!(parse_number(&chars("100"), 16, 255), None);
    for c in '\0'..='\u{3ff}' {
        assert_eq!(digit(c, 16), c.to_digit(16).map(u64::from));
        assert_eq!(digit(c, 36), c.to_digit(36).map(u64::from));
    }
}

#[test]
fn numbers_are_read_as_they_were_written() {
    for n in [0, 1, 9, 10, 99, 100, 12345, u64::MAX - 1, u64::MAX] {
        let mut out = Vec::new();
        push_decimal(&mut out, n);
        assert_eq!(string(&out), format!("{n}"));
        assert_eq!(parse_number(&out, 10, u64::MAX), Some(n));
        let mut out = Vec::new();
        push_two_digits(&mut out, n);
        assert_eq!(string(&out), format!("{n:02}"));
    }
    assert_eq!(string(&to_hex(&[0, 0xf, 0x10, 0xab, 0xff])), "000f10abff");
}
