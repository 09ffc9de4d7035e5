use precord_core::text::chars_of;
use precord_core::text::contains;
use precord_core::text::is_white_space;
use precord_core::text::parse_u32;
use precord_core::text::push_decimal;
use precord_core::text::split_at_each;
use precord_core::text::split_white_space;
use precord_core::text::starts_with;

fn strings(pieces: Vec<Vec<char>>) -> Vec<String> {
    pieces.into_iter().map(|p| p.into_iter().collect()).collect()
}

#[test]
fn white_space_is_that_of_std() {
    for n in 0..=0x10ffffu32 {
        if let Some(c) = char::from_u32(n) {
            assert_eq!(is_white_space(c), c.is_whitespace());
        }
    }
}

#[test]
fn numbers_are_read_as_std_reads_them() {
    let cases = [
        "", "+", "-", "0", "-0", "+0", "007", "12", "+12", "++12", "-12", " 12", "12 ", "12\n",
        "1_2", "1a", "4294967295", "4294967296", "+4294967295", "00000000004294967295",
        "99999999999999999999999", "99999999999999999999999x", "\u{0661}",
    ];
    for case in cases {
        assert_eq!(parse_u32(&chars_of(case)), case.parse::<u32>().ok(), "{case:?}");
    }
    assert_eq!(parse_u32(&chars_of("4294967295")), Some(4294967295));
    assert_eq!(parse_u32(&chars_of("+12")), Some(12));
}

#[test]
fn numbers_survive_their_decimal_text() {
    for n in [0, 1, 9, 10, 99, 100, 65535, 4294967290, u32::MAX] {
        let mut text = String::from("n=");
        push_decimal(&mut text, n);
        assert_eq!(text, format!("n={n}"));
        assert_eq!(parse_u32(&chars_of(&text[2..])), Some(n));
    }
}

#[test]
fn pieces_are_those_of_std() {
    for case in ["", ",", ",,", "a", "a,", ",a", "a,b", "a,,b", "\u{e9},\u{4e2d},c", "no sep"] {
        let pieces = strings(split_at_each(&chars_of(case), ','));
        let expected: Vec<String> = case.split(',').map(String::from).collect();
        assert_eq!(pieces, expected);
        assert_eq!(pieces.join(","), case);
        assert!(pieces.iter().all(|p| !p.contains(',')));
    }
    assert_eq!(strings(split_at_each(&chars_of("a,,b"), ',')), ["a", "", "b"]);
}

#[test]
fn words_are_those_of_std() {
    for case in ["", " ", "a", " a", "a ", "  a  b\tc\r\n", "a\u{3000}b\u{85}c", "\u{200b}"] {
        let words = strings(split_white_space(&chars_of(case)));
        let expected: Vec<String> = case.split_whitespace().map(String::from).collect();
        assert_eq!(words, expected);
        let black: String = case.chars().filter(|c| !c.is_whitespace()).collect();
        assert_eq!(words.concat(), black);
    }
    assert_eq!(strings(split_white_space(&chars_of("  a  bc\n"))), ["a", "bc"]);
}

#[test]
fn searches_are_those_of_std() {
    for hay in ["", "a", "ab", "aab", "abab", "\u{4e2d}ab"] {
        for needle in ["", "a", "ab", "aab", "b", "abc", "\u{4e2d}"] {
            let (h, n) = (chars_of(hay), chars_of(needle));
            assert_eq!(starts_with(&h, &n), hay.starts_with(needle));
            assert_eq!(contains(&h, &n), hay.contains(needle));
        }
    }
    assert!(contains(&chars_of("xaaby"), &chars_of("aab")));
    assert!(!starts_with(&chars_of("xaab"), &chars_of("aab")));
}
