use run_make_support::paths::{
    file_name, filename_not_in_denylist, has_extension, has_prefix, has_suffix, not_contains, path,
};
use std::path::Path;

const SAMPLES: &[&str] = &[
    "", "/", "//", ".", "./", "..", "../", "a", "a/", "a//", "a/b", "a/b/", "a/./", "a/.",
    "a/..", "/a/b/c.txt", "./c.txt", "c.tar.gz", ".bashrc", "dir/.hidden", "foo.", "a/b/..",
    "/..", "x/.y.z", "...", "a/...", "..a", "a/./b/.", "é/ü.rs",
];

fn name_of(s: &str) -> Option<String> {
    Path::new(s).file_name().map(|n| n.to_str().unwrap().to_string())
}

#[test]
fn file_name_agrees_with_path() {
    for s in SAMPLES {
        let expected = name_of(s).map(|n| n.into_bytes());
        assert_eq!(file_name(s.as_bytes()), expected, "path {:?}", s);
    }
}

#[test]
fn extension_agrees_with_path() {
    for s in SAMPLES {
        for ext in ["", "txt", "gz", "bashrc", "rs", "z", "hidden", ".rs"] {
            let expected = Path::new(s).extension().is_some_and(|e| e == ext);
            assert_eq!(has_extension(s.as_bytes(), ext), expected, "path {:?} ext {:?}", s, ext);
        }
    }
    assert!(!has_extension(b"a.rs", ".rs"));
    assert!(!has_extension(b".bashrc", "bashrc"));
}

#[test]
fn names_that_are_not_text() {
    assert_eq!(file_name(b"dir/\xff\xfe"), Some(vec![0xff, 0xfe]));
    assert!(has_extension(b"dir/\xff.rs", "rs"));
    assert!(!has_extension(b"dir/a.\xff", "rs"));
    assert_eq!(path(b"/tmp/\xff", b"x"), b"/tmp/\xff/x".to_vec());
    assert!(has_prefix(b"\xff/abc", "ab"));
}

#[test]
fn prefix_suffix_contains() {
    for s in SAMPLES {
        for pat in ["", "c", ".", "a", "gz", "txt", "b"] {
            let name = name_of(s);
            let b = s.as_bytes();
            assert_eq!(has_prefix(b, pat), name.as_ref().is_some_and(|n| n.starts_with(pat)));
            assert_eq!(has_suffix(b, pat), name.as_ref().is_some_and(|n| n.ends_with(pat)));
            assert_eq!(not_contains(b, pat), !name.as_ref().is_some_and(|n| n.contains(pat)));
        }
    }
    assert!(has_prefix(b"/tmp/libfoo.so", "lib"));
    assert!(!has_prefix(b"/tmp/foo.so", "lib"));
    assert!(has_suffix(b"/tmp/libfoo.so", ".so"));
    assert!(not_contains(b"/tmp/libfoo.so", "bar"));
    assert!(!not_contains(b"/tmp/libfoo.so", "foo"));
}

#[test]
fn denylist() {
    let deny = vec!["a.rs".to_string(), "b.rs".to_string()];
    assert!(!filename_not_in_denylist(b"src/a.rs", &deny));
    assert!(filename_not_in_denylist(b"src/c.rs", &deny));
    assert!(!filename_not_in_denylist(b"src/..", &deny));
    assert!(filename_not_in_denylist(b"a.rs/x", &deny));
    assert!(filename_not_in_denylist(b"src/a.r", &deny));
}

#[test]
fn path_joins_like_pathbuf() {
    assert_eq!(path(b"/tmp/x", b"a.txt"), b"/tmp/x/a.txt".to_vec());
    assert_eq!(path(b"/tmp/x/", b"a"), b"/tmp/x/a".to_vec());
    assert_eq!(path(b"/tmp", b"/etc/p"), b"/etc/p".to_vec());
    assert_eq!(path(b"", b"a"), b"a".to_vec());
    assert_eq!(path(b"a", b""), b"a/".to_vec());
    for base in ["", "/", "a", "a/", "/x/y"] {
        for p in ["", "b", "/b", "b/c", "./b", "../b"] {
            let expected = Path::new(base).join(p).to_str().unwrap().as_bytes().to_vec();
            assert_eq!(path(base.as_bytes(), p.as_bytes()), expected, "{:?} join {:?}", base, p);
        }
    }
}

#[test]
fn joined_path_keeps_file_name() {
    assert_eq!(file_name(&path(b"/work/dir", b"sub/out.txt")), Some(b"out.txt".to_vec()));
    assert_eq!(file_name(&path(b"/work/dir/", b"out.txt")), Some(b"out.txt".to_vec()));
}
