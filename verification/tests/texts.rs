use chainsaw_engine::text::{
    chars_before, collect_chars, contains_chars, contains_text, parse_u32,
};

fn chars(s: &str) -> Vec<char> {
    s.chars().collect()
}

#[test]
fn collects_the_characters() {
    assert_eq!(collect_chars("héllo"), vec!['h', 'é', 'l', 'l', 'o']);
    assert_eq!(collect_chars(""), Vec::<char>::new());
}

#[test]
fn finds_substrings() {
    assert!(contains_text("powershell.exe", "shell"));
    assert!(contains_text("powershell.exe", "powershell.exe"));
    assert!(contains_text("powershell.exe", ".exe"));
    assert!(contains_text("powershell.exe", "p"));
    assert!(!contains_text("powershell.exe", "Shell"));
    assert!(!contains_text("powershell.exe", "powershell.exe "));
    assert!(!contains_text("abc", "abd"));
    assert!(!contains_text("aab", "aba"));
    assert!(contains_text("aaab", "aab"));
}

#[test]
fn the_empty_text_is_in_every_text() {
    assert!(contains_text("abc", ""));
    assert!(contains_text("", ""));
    assert!(!contains_text("", "a"));
}

#[test]
fn substrings_agree_with_std() {
    let hays = ["", "a", "abcabd", "ääö", "S-1-5-21", "C:\\Windows\\System32"];
    let needles = ["", "a", "abd", "bca", "ö", "ä", "-5-", "\\System", "x"];
    for hay in hays {
        for needle in needles {
            assert_eq!(contains_text(hay, needle), hay.contains(needle));
            assert_eq!(contains_chars(&chars(hay), &chars(needle)), hay.contains(needle));
        }
    }
}

#[test]
fn orders_texts_by_character() {
    assert!(chars_before(&chars("a"), &chars("b")));
    assert!(!chars_before(&chars("b"), &chars("a")));
    assert!(chars_before(&chars("a"), &chars("ab")));
    assert!(!chars_before(&chars("ab"), &chars("a")));
    assert!(!chars_before(&chars("ab"), &chars("ab")));
    assert!(chars_before(&chars(""), &chars("a")));
    assert!(!chars_before(&chars(""), &chars("")));
    assert!(chars_before(&chars("B"), &chars("a")));
    assert!(chars_before(&chars("abc"), &chars("abd")));
    assert!(chars_before(&chars("z"), &chars("é")));
}

#[test]
fn order_agrees_with_std() {
    let texts = ["", "a", "ab", "abc", "b", "B", "é", "z", "S-1-5-18", "S-1-5-2", "😀", "\u{ffff}"];
    for a in texts {
        for b in texts {
            assert_eq!(chars_before(&chars(a), &chars(b)), a < b);
        }
    }
}

#[test]
fn reads_decimal_numbers() {
    assert_eq!(parse_u32("0"), Some(0));
    assert_eq!(parse_u32("4624"), Some(4624));
    assert_eq!(parse_u32("007"), Some(7));
    assert_eq!(parse_u32("+12"), Some(12));
    assert_eq!(parse_u32("4294967295"), Some(u32::MAX));
    assert_eq!(parse_u32("0000000004294967295"), Some(u32::MAX));
}

#[test]
fn reads_no_number_from_other_texts() {
    assert_eq!(parse_u32(""), None);
    assert_eq!(parse_u32("+"), None);
    assert_eq!(parse_u32("-"), None);
    assert_eq!(parse_u32("-1"), None);
    assert_eq!(parse_u32("-0"), None);
    assert_eq!(parse_u32("++1"), None);
    assert_eq!(parse_u32("1+"), None);
    assert_eq!(parse_u32(" 1"), None);
    assert_eq!(parse_u32("1 "), None);
    assert_eq!(parse_u32("12a"), None);
    assert_eq!(parse_u32("0x10"), None);
    assert_eq!(parse_u32("1.0"), None);
    assert_eq!(parse_u32("٣"), None);
    assert_eq!(parse_u32("4294967296"), None);
    assert_eq!(parse_u32("99999999999999999999999999"), None);
    assert_eq!(parse_u32("42949672950"), None);
}

#[test]
fn numbers_agree_with_std() {
    let texts = [
        "", "0", "1", "+1", "-1", "+", "-", "++1", "+-1", "007", "4294967295", "4294967296",
        "42949672950", "18446744073709551616", "12a", "a12", " 12", "12 ", "1_000", "１２",
    ];
    for text in texts {
        assert_eq!(parse_u32(text), text.parse::<u32>().ok());
    }
}
