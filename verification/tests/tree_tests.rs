use run_make_support::interner::{InternedWrapper, Interner};
use run_make_support::tree::{copy_plan, recursive_diff, DiffErrorKind, FsEntry, FsNode};

fn file(name: &str, data: &[u8]) -> FsEntry {
    FsEntry { name: name.as_bytes().to_vec(), node: FsNode::File(data.to_vec()) }
}

fn dir(name: &str, entries: Vec<FsEntry>) -> FsEntry {
    FsEntry { name: name.as_bytes().to_vec(), node: FsNode::Dir(entries) }
}

fn sample() -> FsNode {
    FsNode::Dir(vec![
        file("a.txt", b"alpha"),
        dir("sub", vec![file("b.txt", b"beta"), dir("empty", vec![])]),
    ])
}

#[test]
fn identical_trees_match() {
    assert!(recursive_diff(&sample(), &sample()).is_ok());
}

#[test]
fn extra_files_in_second_tree_are_ignored() {
    let bigger = FsNode::Dir(vec![
        file("z.txt", b"zeta"),
        file("a.txt", b"alpha"),
        dir("sub", vec![file("b.txt", b"beta"), file("c.txt", b"c")]),
    ]);
    assert!(recursive_diff(&sample(), &bigger).is_ok());
    assert!(recursive_diff(&bigger, &sample()).is_err());
}

#[test]
fn differing_contents_are_reported() {
    let other = FsNode::Dir(vec![
        file("a.txt", b"alpha"),
        dir("sub", vec![file("b.txt", b"BETA")]),
    ]);
    let err = recursive_diff(&sample(), &other).unwrap_err();
    assert_eq!(err.kind, DiffErrorKind::Mismatch);
    assert_eq!(err.path, vec![b"sub".to_vec(), b"b.txt".to_vec()]);
}

#[test]
fn missing_files_are_reported() {
    let other = FsNode::Dir(vec![file("a.txt", b"alpha")]);
    let err = recursive_diff(&sample(), &other).unwrap_err();
    assert_eq!(err.kind, DiffErrorKind::Missing);
    assert_eq!(err.path, vec![b"sub".to_vec(), b"b.txt".to_vec()]);
    let as_dir = FsNode::Dir(vec![dir("a.txt", vec![]), dir("sub", vec![file("b.txt", b"beta")])]);
    let err = recursive_diff(&sample(), &as_dir).unwrap_err();
    assert_eq!(err.kind, DiffErrorKind::Missing);
    assert_eq!(err.path, vec![b"a.txt".to_vec()]);
}

#[test]
fn first_tree_must_be_a_directory() {
    let f = FsNode::File(b"x".to_vec());
    let err = recursive_diff(&f, &sample()).unwrap_err();
    assert_eq!(err.kind, DiffErrorKind::NotADirectory);
    assert!(err.path.is_empty());
}

#[test]
fn empty_directories_need_no_counterpart() {
    let only_empty = FsNode::Dir(vec![dir("e", vec![dir("f", vec![])])]);
    assert!(recursive_diff(&only_empty, &FsNode::Dir(vec![])).is_ok());
    assert!(recursive_diff(&only_empty, &FsNode::File(vec![])).is_ok());
}

#[test]
fn interned_wrapper_derefs_to_its_value() {
    let w = InternedWrapper::new(42u32);
    assert_eq!(*w, 42);
    let s = InternedWrapper::new(String::from("ty"));
    assert_eq!(s.len(), 2);
    assert_eq!(Interner, Interner);
    assert!(Interner <= Interner);
}

#[test]
fn inclusion_is_transitive_on_examples() {
    let small = FsNode::Dir(vec![file("a.txt", b"alpha")]);
    let middle = sample();
    let big = FsNode::Dir(vec![
        file("a.txt", b"alpha"),
        file("x", b"x"),
        dir("sub", vec![file("b.txt", b"beta"), dir("empty", vec![file("y", b"")])]),
    ]);
    assert!(recursive_diff(&small, &middle).is_ok());
    assert!(recursive_diff(&middle, &big).is_ok());
    assert!(recursive_diff(&small, &big).is_ok());
}

#[test]
fn duplicate_names_can_break_self_comparison() {
    let dup = FsNode::Dir(vec![file("a", b"x"), file("a", b"y")]);
    let err = recursive_diff(&dup, &dup).unwrap_err();
    assert_eq!(err.kind, DiffErrorKind::Mismatch);
}

#[test]
fn copy_plan_walks_the_tree_in_order() {
    let entries = vec![
        file("a.txt", b"alpha"),
        dir("sub", vec![file("b.txt", b"beta"), dir("empty", vec![])]),
        file("z", b""),
    ];
    let steps: Vec<(bool, Vec<Vec<u8>>)> =
        copy_plan(&entries).into_iter().map(|s| (s.is_dir, s.path)).collect();
    let p = |parts: &[&str]| parts.iter().map(|s| s.as_bytes().to_vec()).collect::<Vec<Vec<u8>>>();
    assert_eq!(
        steps,
        vec![
            (true, p(&[])),
            (false, p(&["a.txt"])),
            (true, p(&["sub"])),
            (false, p(&["sub", "b.txt"])),
            (true, p(&["sub", "empty"])),
            (false, p(&["z"])),
        ]
    );
    assert_eq!(copy_plan(&Vec::new()).len(), 1);
}

#[test]
fn the_first_failing_file_in_listing_order_is_reported() {
    let two_bad = FsNode::Dir(vec![
        file("ok", b"1"),
        file("first", b"a"),
        dir("d", vec![file("second", b"b")]),
    ]);
    let other = FsNode::Dir(vec![
        file("ok", b"1"),
        file("first", b"A"),
        dir("d", vec![]),
    ]);
    let err = recursive_diff(&two_bad, &other).unwrap_err();
    assert_eq!(err.kind, DiffErrorKind::Mismatch);
    assert_eq!(err.path, vec![b"first".to_vec()]);
}

fn node_at<'a>(t: &'a FsNode, path: &[Vec<u8>]) -> Option<&'a FsNode> {
    match path.split_first() {
        None => Some(t),
        Some((name, rest)) => match t {
            FsNode::Dir(es) => es.iter().find(|e| &e.name == name).and_then(|e| node_at(&e.node, rest)),
            FsNode::File(_) => None,
        },
    }
}

fn place(t: &mut FsNode, path: &[Vec<u8>], node: FsNode) {
    let (name, rest) = path.split_first().unwrap();
    if let FsNode::Dir(es) = t {
        if rest.is_empty() {
            if !es.iter().any(|e| &e.name == name) {
                es.push(FsEntry { name: name.clone(), node });
            }
        } else {
            let e = es.iter_mut().find(|e| &e.name == name).unwrap();
            place(&mut e.node, rest, node);
        }
    }
}

#[test]
fn carrying_out_the_copy_plan_gives_an_including_tree() {
    let src = sample();
    let entries = match &src {
        FsNode::Dir(es) => es,
        FsNode::File(_) => unreachable!(),
    };
    let mut copy = FsNode::Dir(Vec::new());
    for step in copy_plan(entries) {
        if step.path.is_empty() {
            continue;
        }
        let node = if step.is_dir {
            FsNode::Dir(Vec::new())
        } else {
            match node_at(&src, &step.path) {
                Some(FsNode::File(c)) => FsNode::File(c.clone()),
                _ => panic!("a file step names no file"),
            }
        };
        place(&mut copy, &step.path, node);
    }
    assert!(recursive_diff(&src, &copy).is_ok());
    assert!(recursive_diff(&copy, &src).is_ok());
}
