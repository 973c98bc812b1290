use run_make_support::search_paths::{host_rpath, join_paths, split_paths};

fn strs(v: Vec<Vec<u8>>) -> Vec<String> {
    v.into_iter().map(|b| String::from_utf8(b).unwrap()).collect()
}

fn bytes(v: &[&str]) -> Vec<Vec<u8>> {
    v.iter().map(|s| s.as_bytes().to_vec()).collect()
}

#[test]
fn split_paths_cases() {
    assert_eq!(strs(split_paths(b"a:b::c")), vec!["a", "b", "", "c"]);
    assert_eq!(strs(split_paths(b"")), vec![""]);
    assert_eq!(strs(split_paths(b"a:")), vec!["a", ""]);
    assert_eq!(strs(split_paths(b"/usr/lib")), vec!["/usr/lib"]);
    assert_eq!(split_paths(b"\xff:\xfe"), vec![vec![0xff], vec![0xfe]]);
}

#[test]
fn join_paths_cases() {
    assert_eq!(join_paths(&bytes(&["a", "", "c"])), Some(b"a::c".to_vec()));
    assert_eq!(join_paths(&bytes(&["a:b"])), None);
    assert_eq!(join_paths(&Vec::new()), Some(Vec::new()));
}

#[test]
fn join_undoes_split() {
    for s in ["", "a", "a:b", "::", "/x:/y:", ":lead"] {
        assert_eq!(join_paths(&split_paths(s.as_bytes())), Some(s.as_bytes().to_vec()));
    }
}

#[test]
fn host_rpath_cases() {
    assert_eq!(host_rpath(b"/cwd", b"/host/lib", b"/a:/b"), Some(b"/cwd:/host/lib:/a:/b".to_vec()));
    assert_eq!(host_rpath(b"/cwd", b"/host/lib", b""), Some(b"/cwd:/host/lib:".to_vec()));
    assert_eq!(host_rpath(b"/c:wd", b"/host", b"/a"), None);
    assert_eq!(host_rpath(b"/cwd", b"h:ost", b"/a"), None);
    assert_eq!(host_rpath(b"/\xffd", b"/h", b"/a"), Some(b"/\xffd:/h:/a".to_vec()));
}
