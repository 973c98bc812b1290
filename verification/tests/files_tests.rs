use run_make_support::files::{files_with_extension, lossy_contains, shallow_find_files, DirEntryInfo};
use regex::Regex;
use run_make_support::pattern::count_regex_matches;

fn entry(path: &str, is_file: bool) -> DirEntryInfo {
    DirEntryInfo { path: path.as_bytes().to_vec(), is_file }
}

fn bytes(list: &[&str]) -> Vec<Vec<u8>> {
    list.iter().map(|s| s.as_bytes().to_vec()).collect()
}

fn listing() -> Vec<DirEntryInfo> {
    vec![
        entry("./a.rs", true),
        entry("./sub.rs", false),
        entry("./b.txt", true),
        entry("./c.rs", true),
        entry("./.rs", true),
    ]
}

#[test]
fn shallow_find_files_filters_files() {
    let found = shallow_find_files(&listing(), |p: &Vec<u8>| p.ends_with(b".rs"));
    assert_eq!(found, bytes(&["./a.rs", "./c.rs", "./.rs"]));
    let none = shallow_find_files(&listing(), |_p: &Vec<u8>| false);
    assert!(none.is_empty());
    let all = shallow_find_files(&listing(), |_p: &Vec<u8>| true);
    assert_eq!(all, bytes(&["./a.rs", "./b.txt", "./c.rs", "./.rs"]));
}

#[test]
fn files_with_extension_cases() {
    assert_eq!(files_with_extension(&listing(), "rs"), bytes(&["./a.rs", "./c.rs"]));
    assert_eq!(files_with_extension(&listing(), "txt"), bytes(&["./b.txt"]));
    assert!(files_with_extension(&listing(), "md").is_empty());
}

#[test]
fn lossy_contains_cases() {
    assert!(lossy_contains(b"hello world", "lo w"));
    assert!(!lossy_contains(b"hello world", "xyz"));
    assert!(lossy_contains(b"abc\xffdef", "\u{fffd}"));
    assert!(lossy_contains(b"abc\xffdef", "def"));
    assert!(!lossy_contains(b"abcdef", "\u{fffd}"));
}

#[test]
fn regex_pattern_counts_matching_lines() {
    let p = Regex::new("a+b").unwrap();
    let contents = vec!["aab\nxx\nab".to_string(), "b\n".to_string(), "".to_string()];
    assert_eq!(count_regex_matches(&p, &contents), 2);
    let q = Regex::new("^$").unwrap();
    let blank = vec!["a\n\nb\n".to_string()];
    assert_eq!(count_regex_matches(&q, &blank), 1);
    let case_blind = regex::RegexBuilder::new("AB").case_insensitive(true).build().unwrap();
    assert_eq!(count_regex_matches(&case_blind, &contents), 2);
}

#[test]
fn matching_lines_never_exceed_lines() {
    let p = Regex::new("").unwrap();
    let contents = vec!["a\nb\nc".to_string(), "\n\n".to_string()];
    assert_eq!(count_regex_matches(&p, &contents), 5);
}

#[test]
fn weaker_filter_gives_a_subsequence() {
    let narrow = shallow_find_files(&listing(), |p: &Vec<u8>| p.starts_with(b"./a"));
    let wide = shallow_find_files(&listing(), |p: &Vec<u8>| p.ends_with(b".rs"));
    let all = shallow_find_files(&listing(), |_p: &Vec<u8>| true);
    assert_eq!(narrow, bytes(&["./a.rs"]));
    let mut it = wide.iter();
    for n in &narrow {
        assert!(it.any(|w| w == n));
    }
    let mut it = all.iter();
    for w in &wide {
        assert!(it.any(|a| a == w));
    }
    assert_eq!(all, bytes(&["./a.rs", "./b.txt", "./c.rs", "./.rs"]));
}
