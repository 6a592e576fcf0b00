use devlog::text::{
    chars_of, contains_chars, format_i64, format_u64, lines_chars, parse_i64_chars, trim,
    words_chars,
};

fn s(v: &[char]) -> String {
    v.iter().collect()
}

#[test]
fn trim_removes_unicode_white_space() {
    assert_eq!(trim("  \t hello world \r\n"), "hello world");
    assert_eq!(trim("\u{3000}x\u{A0}"), "x");
    assert_eq!(trim("   "), "");
    assert_eq!(trim(""), "");
}

#[test]
fn lines_split_like_str_lines() {
    let v = chars_of("a\nb\r\nc");
    let ls: Vec<String> = lines_chars(&v).iter().map(|l| s(l)).collect();
    assert_eq!(ls, vec!["a", "b", "c"]);
    let v = chars_of("a\n\nb\n");
    let ls: Vec<String> = lines_chars(&v).iter().map(|l| s(l)).collect();
    assert_eq!(ls, vec!["a", "", "b"]);
    let v = chars_of("x\r");
    let ls: Vec<String> = lines_chars(&v).iter().map(|l| s(l)).collect();
    assert_eq!(ls, vec!["x\r"]);
    assert!(lines_chars(&chars_of("")).is_empty());
    for text in ["one\ntwo\r\n\r\nthree", "\n", "\r\n\n", "tail\r\r\n"] {
        let ours: Vec<String> = lines_chars(&chars_of(text)).iter().map(|l| s(l)).collect();
        let std: Vec<String> = text.lines().map(String::from).collect();
        assert_eq!(ours, std);
    }
}

#[test]
fn words_split_like_split_whitespace() {
    for text in ["12\t3\tsrc/main.rs", "  a  b ", "", "   ", "one", "x\u{2003}y"] {
        let ours: Vec<String> = words_chars(&chars_of(text)).iter().map(|w| s(w)).collect();
        let std: Vec<String> = text.split_whitespace().map(String::from).collect();
        assert_eq!(ours, std);
    }
}

#[test]
fn numbers_are_written_in_decimal() {
    assert_eq!(format_i64(0), "0");
    assert_eq!(format_i64(-42), "-42");
    assert_eq!(format_i64(i64::MIN), "-9223372036854775808");
    assert_eq!(format_i64(i64::MAX), "9223372036854775807");
    assert_eq!(format_u64(1234567890), "1234567890");
    assert_eq!(format_u64(u64::MAX), u64::MAX.to_string());
}

#[test]
fn numbers_parse_like_str_parse() {
    for text in [
        "0", "+7", "-7", "12", "", "-", "+", "1a", " 1", "9223372036854775807",
        "9223372036854775808", "-9223372036854775808", "-9223372036854775809", "+-1", "00012",
    ] {
        assert_eq!(parse_i64_chars(&chars_of(text)), text.parse::<i64>().ok(), "{text}");
    }
}

#[test]
fn parsing_a_written_number_gives_it_back() {
    for n in [0i64, 1, -1, 99, -100, i64::MIN, i64::MAX] {
        assert_eq!(parse_i64_chars(&chars_of(&format_i64(n))), Some(n));
    }
}

#[test]
fn substrings_are_found() {
    assert!(contains_chars(&chars_of("abc devlogd.sock x"), &chars_of("devlogd.sock")));
    assert!(!contains_chars(&chars_of("devlogd.soc"), &chars_of("devlogd.sock")));
    assert!(contains_chars(&chars_of("abc"), &chars_of("")));
}
