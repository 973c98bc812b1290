use run_make_support::text::{chars_of, contains, contains_whitespace, is_whitespace_char, lines, string_from_chars, text_eq, trim};

#[test]
fn whitespace_agrees_with_char_is_whitespace() {
    let mut c: u32 = 0;
    while c <= 0x3100 {
        if let Some(ch) = char::from_u32(c) {
            assert_eq!(is_whitespace_char(ch), ch.is_whitespace(), "char {:#x}", c);
        }
        c += 1;
    }
    for ch in ['\u{feff}', '\u{200b}', '\u{10ffff}', 'a'] {
        assert_eq!(is_whitespace_char(ch), ch.is_whitespace());
    }
}

#[test]
fn contains_finds_substrings() {
    assert!(contains("hello world", "o w"));
    assert!(contains("hello world", "hello world"));
    assert!(contains("abc", ""));
    assert!(contains("", ""));
    assert!(!contains("ab", "abc"));
    assert!(!contains("hello", "hol"));
    assert!(contains("aaab", "aab"));
    assert!(contains("x86_64-pc-windows-msvc", "msvc"));
}

#[test]
fn contains_whitespace_cases() {
    assert!(contains_whitespace("a b"));
    assert!(!contains_whitespace("ab"));
    assert!(contains_whitespace("a\u{a0}b"));
    assert!(contains_whitespace("\t"));
    assert!(!contains_whitespace(""));
}

#[test]
fn trim_cases() {
    assert_eq!(trim("  a b \n"), "a b");
    assert_eq!(trim("\u{3000}x\u{85}"), "x");
    assert_eq!(trim("   "), "");
    assert_eq!(trim(""), "");
    assert_eq!(trim("C:\\foo\\bar\r\n"), "C:\\foo\\bar");
}

#[test]
fn lines_cases() {
    assert_eq!(lines("a\r\nb\n\nc"), vec!["a", "b", "", "c"]);
    assert_eq!(lines("a\n"), vec!["a"]);
    assert_eq!(lines(""), Vec::<String>::new());
    assert_eq!(lines("x\r"), vec!["x\r"]);
    assert_eq!(lines("\n"), vec![""]);
    for s in ["one\ntwo\r\nthree\n", "a\r\r\nb", "\n\n", "no newline"] {
        let expected: Vec<String> = s.lines().map(|l| l.to_string()).collect();
        assert_eq!(lines(s), expected);
    }
}

#[test]
fn text_eq_and_chars() {
    assert!(text_eq("abc", "abc"));
    assert!(!text_eq("abc", "abd"));
    assert!(!text_eq("abc", "ab"));
    let v = chars_of("héllo");
    assert_eq!(v, vec!['h', 'é', 'l', 'l', 'o']);
    assert_eq!(string_from_chars(&v, 1, 4), "éll");
}
