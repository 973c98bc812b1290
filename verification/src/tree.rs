use vstd::prelude::*;

use crate::paths::copy_bytes;
use crate::text::byte_views;

verus! {

/// A file-system node: a file with its contents, or a directory with its entries.
/// A tree read from a file system is valid in the sense of `names_unique`: no
/// directory under it holds two entries of the same name. The functions take any
/// tree; the laws that need it take validity as their premise.
#[derive(Debug)]
pub enum FsNode {
    File(Vec<u8>),
    Dir(Vec<FsEntry>),
}

/// A named entry of a directory.
#[derive(Debug)]
pub struct FsEntry {
    pub name: Vec<u8>,
    pub node: FsNode,
}

/// The node of the first entry of `entries` named `name`.
pub open spec fn find_entry(entries: Seq<FsEntry>, name: Seq<u8>) -> Option<FsNode>
    decreases entries.len(),
{
    if entries.len() == 0 {
        None
    } else if entries[0].name@ == name {
        Some(entries[0].node)
    } else {
        find_entry(entries.drop_first(), name)
    }
}

/// The entries found under `node`: those of a directory; none under a file or
/// under nothing.
pub open spec fn children(node: Option<FsNode>) -> Seq<FsEntry> {
    match node {
        Some(FsNode::Dir(es)) => es@,
        _ => Seq::empty(),
    }
}

/// Whether everything under `t1` is found under `t2` at the same place: each file
/// as a file with the same contents, each directory's entries in turn (an empty
/// directory needs no counterpart).
pub open spec fn node_included(t1: FsNode, t2: Option<FsNode>) -> bool
    decreases t1,
{
    match t1 {
        FsNode::File(c1) => match t2 {
            Some(FsNode::File(c2)) => c1@ == c2@,
            _ => false,
        },
        FsNode::Dir(es1) => entries_included(es1@, children(t2)),
    }
}

/// Whether each entry of `es1` is included in the entry of `es2` with its name.
pub open spec fn entries_included(es1: Seq<FsEntry>, es2: Seq<FsEntry>) -> bool
    decreases es1,
{
    if es1.len() == 0 {
        true
    } else {
        &&& entries_included(es1.drop_last(), es2)
        &&& node_included(es1.last().node, find_entry(es2, es1.last().name@))
    }
}

/// The node that `o` refers to.
pub open spec fn deref_node(o: Option<&FsNode>) -> Option<FsNode> {
    match o {
        Some(n) => Some(*n),
        None => None,
    }
}

/// Why two directory trees differ.
#[derive(Debug, Clone, Copy, PartialEq, Eq, Structural)]
pub enum DiffErrorKind {
    /// The first tree is not a directory.
    NotADirectory,
    /// A file of the first tree has no file at the same place in the second.
    Missing,
    /// A file of the first tree differs from the file at the same place in the second.
    Mismatch,
}

/// Where and why two directory trees differ: `path` holds the names leading to
/// the offending entry of the first tree.
#[derive(Debug)]
pub struct DiffError {
    pub path: Vec<Vec<u8>>,
    pub kind: DiffErrorKind,
}

/// Whether following the names `path` from `t1`, and the same names from `t2`,
/// leads to a file of `t1` that fails as `kind` says: `Mismatch`, there is a file
/// with other contents at that place under `t2`; `Missing`, there is no file there.
pub open spec fn fails_at(t1: FsNode, t2: Option<FsNode>, path: Seq<Seq<u8>>, kind: DiffErrorKind) -> bool
    decreases path.len(),
{
    if path.len() == 0 {
        match t1 {
            FsNode::File(c1) => match kind {
                DiffErrorKind::Mismatch => match t2 {
                    Some(FsNode::File(c2)) => c1@ != c2@,
                    _ => false,
                },
                DiffErrorKind::Missing => !(t2 matches Some(FsNode::File(_))),
                DiffErrorKind::NotADirectory => false,
            },
            FsNode::Dir(_) => false,
        }
    } else {
        match t1 {
            FsNode::Dir(es1) => match find_entry(es1@, path[0]) {
                Some(n1) => fails_at(
                    n1,
                    find_entry(children(t2), path[0]),
                    path.drop_first(),
                    kind,
                ),
                None => false,
            },
            FsNode::File(_) => false,
        }
    }
}

/// The first file under `t1`, in listing order, that is not found as it is at
/// the same place under `t2`: the names leading to it and how it fails (no file
/// there, or a file with other contents).
pub open spec fn node_first_failure(t1: FsNode, t2: Option<FsNode>) -> Option<(Seq<Seq<u8>>, DiffErrorKind)>
    decreases t1,
{
    match t1 {
        FsNode::File(c1) => match t2 {
            Some(FsNode::File(c2)) => if c1@ == c2@ {
                None
            } else {
                Some((Seq::empty(), DiffErrorKind::Mismatch))
            },
            _ => Some((Seq::empty(), DiffErrorKind::Missing)),
        },
        FsNode::Dir(es1) => entries_first_failure(es1@, children(t2)),
    }
}

/// The first failing file under the entries `es1`, in listing order, against the
/// entries `es2` of the same names.
pub open spec fn entries_first_failure(es1: Seq<FsEntry>, es2: Seq<FsEntry>) -> Option<(Seq<Seq<u8>>, DiffErrorKind)>
    decreases es1,
{
    if es1.len() == 0 {
        None
    } else {
        match entries_first_failure(es1.drop_last(), es2) {
            Some(f) => Some(f),
            None => match node_first_failure(es1.last().node, find_entry(es2, es1.last().name@)) {
                Some(f) => Some((seq![es1.last().name@] + f.0, f.1)),
                None => None,
            },
        }
    }
}

/// What a comparison gave: nothing, or the path and kind of its error.
pub open spec fn diff_outcome(res: Result<(), DiffError>) -> Option<(Seq<Seq<u8>>, DiffErrorKind)> {
    match res {
        Ok(()) => None,
        Err(e) => Some((byte_views(e.path@), e.kind)),
    }
}

proof fn lemma_first_failure_extends(es1: Seq<FsEntry>, es2: Seq<FsEntry>, i: int)
    requires
        0 <= i <= es1.len(),
        entries_first_failure(es1.subrange(0, i), es2) is Some,
    ensures
        entries_first_failure(es1, es2) == entries_first_failure(es1.subrange(0, i), es2),
    decreases es1.len() - i,
{
    if i < es1.len() {
        assert(es1.subrange(0, i + 1).drop_last() =~= es1.subrange(0, i));
        lemma_first_failure_extends(es1, es2, i + 1);
    } else {
        assert(es1.subrange(0, i) =~= es1);
    }
}

/// Whether `a` and `b` hold the same bytes.
pub fn bytes_eq(a: &Vec<u8>, b: &Vec<u8>) -> (res: bool)
    ensures
        res == (a@ == b@),
{
    if a.len() != b.len() {
        return false;
    }
    let mut i: usize = 0;
    while i < a.len()
        invariant
            a.len() == b.len(),
            i <= a.len(),
            forall|k: int| 0 <= k < i ==> a@[k] == b@[k],
        decreases a.len() - i,
    {
        if a[i] != b[i] {
            return false;
        }
        i += 1;
    }
    assert(a@ =~= b@);
    true
}

/// The node of the first entry of `entries` named `name`.
pub fn lookup<'a>(entries: &'a Vec<FsEntry>, name: &Vec<u8>) -> (res: Option<&'a FsNode>)
    ensures
        deref_node(res) == find_entry(entries@, name@),
{
    let mut i: usize = 0;
    assert(entries@.subrange(0, entries.len() as int) =~= entries@);
    while i < entries.len()
        invariant
            i <= entries.len(),
            find_entry(entries@, name@) == find_entry(entries@.subrange(i as int, entries.len() as int), name@),
        decreases entries.len() - i,
    {
        assert(entries@.subrange(i as int, entries.len() as int).drop_first() =~= entries@.subrange(
            i + 1,
            entries.len() as int,
        ));
        if bytes_eq(&entries[i].name, name) {
            return Some(&entries[i].node);
        }
        i += 1;
    }
    None
}

fn diff_node(t1: &FsNode, t2: Option<&FsNode>) -> (res: Result<(), DiffError>)
    ensures
        res is Ok <==> node_included(*t1, deref_node(t2)),
        res matches Err(e) ==> !(e.kind is NotADirectory),
        res matches Err(e) ==> (names_unique(*t1) ==> fails_at(*t1, deref_node(t2), byte_views(e.path@), e.kind)),
        diff_outcome(res) == node_first_failure(*t1, deref_node(t2)),
    decreases t1,
{
    match t1 {
        FsNode::File(c1) => match t2 {
            Some(FsNode::File(c2)) => {
                if bytes_eq(c1, c2) {
                    Ok(())
                } else {
                    Err(DiffError { path: Vec::new(), kind: DiffErrorKind::Mismatch })
                }
            },
            _ => Err(DiffError { path: Vec::new(), kind: DiffErrorKind::Missing }),
        },
        FsNode::Dir(es1) => {
            let empty: Vec<FsEntry> = Vec::new();
            let es2 = match t2 {
                Some(FsNode::Dir(es2)) => es2,
                _ => &empty,
            };
            assert(es2@ == children(deref_node(t2)));
            let r = diff_entries(es1, es2);
            proof {
                if r is Err && names_unique(*t1) {
                    let e = r->Err_0;
                    assert(byte_views(e.path@).len() > 0);
                    assert(find_entry(children(Some(FsNode::Dir(*es2))), byte_views(e.path@)[0])
                        == find_entry(children(deref_node(t2)), byte_views(e.path@)[0]));
                }
            }
            r
        },
    }
}

fn diff_entries(es1: &Vec<FsEntry>, es2: &Vec<FsEntry>) -> (res: Result<(), DiffError>)
    ensures
        res is Ok <==> entries_included(es1@, es2@),
        res matches Err(e) ==> !(e.kind is NotADirectory),
        res matches Err(e) ==> (entries_unique(es1@) ==> e.path@.len() > 0 && fails_at(
            FsNode::Dir(*es1),
            Some(FsNode::Dir(*es2)),
            byte_views(e.path@),
            e.kind,
        )),
        diff_outcome(res) == entries_first_failure(es1@, es2@),
    decreases es1@,
{
    let mut i: usize = 0;
    assert(es1@.subrange(0, 0) =~= Seq::<FsEntry>::empty());
    while i < es1.len()
        invariant
            i <= es1.len(),
            entries_included(es1@.subrange(0, i as int), es2@),
            entries_first_failure(es1@.subrange(0, i as int), es2@) is None,
        decreases es1.len() - i,
    {
        let e = &es1[i];
        let found = lookup(es2, &e.name);
        assert(decreases_to!(es1@ => es1@[i as int]));
        match diff_node(&e.node, found) {
            Ok(()) => {},
            Err(err) => {
                proof {
                    lemma_entries_included_prefix(es1@, es2@, i as int);
                }
                let ghost inner = err.path@;
                let mut path = err.path;
                path.insert(0, copy_bytes(&e.name));
                proof {
                    assert(byte_views(path@) =~= seq![e.name@] + byte_views(inner));
                    assert(byte_views(path@).drop_first() =~= byte_views(inner));
                    if entries_unique(es1@) {
                        lemma_entries_unique_at(es1@, i as int);
                        lemma_find_entry_at(es1@, i as int);
                    }
                    let pre = es1@.subrange(0, i + 1);
                    assert(pre.drop_last() =~= es1@.subrange(0, i as int));
                    assert(pre.last() == es1@[i as int]);
                    assert(entries_first_failure(pre, es2@) == Some((byte_views(path@), err.kind)));
                    lemma_first_failure_extends(es1@, es2@, i + 1);
                }
                return Err(DiffError { path, kind: err.kind });
            },
        }
        assert(es1@.subrange(0, i + 1).drop_last() =~= es1@.subrange(0, i as int));
        assert(es1@.subrange(0, i + 1).last() == es1@[i as int]);
        i += 1;
    }
    assert(es1@.subrange(0, i as int) =~= es1@);
    Ok(())
}

proof fn lemma_entries_included_prefix(es1: Seq<FsEntry>, es2: Seq<FsEntry>, i: int)
    requires
        0 <= i < es1.len(),
        !node_included(es1[i].node, find_entry(es2, es1[i].name@)),
    ensures
        !entries_included(es1, es2),
    decreases es1.len(),
{
    if i < es1.len() - 1 {
        lemma_entries_included_prefix(es1.drop_last(), es2, i);
    }
}

/// Checks that every file under the directory `dir1` is under `dir2` at the same
/// place with the same contents (directories of `dir1` are walked in turn; an
/// empty one needs no counterpart). On failure, names the first failing file in
/// listing order and says why.
pub fn recursive_diff(dir1: &FsNode, dir2: &FsNode) -> (res: Result<(), DiffError>)
    ensures
        res is Ok <==> (dir1 is Dir && node_included(*dir1, Some(*dir2))),
        res matches Err(e) ==> (e.kind is NotADirectory <==> dir1 is File),
        res matches Err(e) ==> (e.kind is NotADirectory ==> e.path@.len() == 0),
        res matches Err(e) ==> (!(e.kind is NotADirectory) && names_unique(*dir1) ==> fails_at(
            *dir1,
            Some(*dir2),
            byte_views(e.path@),
            e.kind,
        )),
        dir1 is Dir ==> diff_outcome(res) == node_first_failure(*dir1, Some(*dir2)),
        res is Ok ==> forall|rel: Seq<Seq<u8>>|
            match #[trigger] node_at(Some(*dir1), rel) {
                Some(FsNode::File(c)) => node_at(Some(*dir2), rel) matches Some(FsNode::File(c2))
                    && c2@ == c@,
                _ => true,
            },
        dir1 is Dir && names_unique(*dir1) && (forall|rel: Seq<Seq<u8>>|
            match #[trigger] node_at(Some(*dir1), rel) {
                Some(FsNode::File(c)) => node_at(Some(*dir2), rel) matches Some(FsNode::File(c2))
                    && c2@ == c@,
                _ => true,
            }) ==> res is Ok,
        res matches Err(e) ==> (!(e.kind is NotADirectory) && names_unique(*dir1) ==> (node_at(
            Some(*dir1),
            byte_views(e.path@),
        ) matches Some(FsNode::File(c1)) && match e.kind {
            DiffErrorKind::Mismatch => node_at(Some(*dir2), byte_views(e.path@)) matches Some(
                FsNode::File(c2),
            ) && c1@ != c2@,
            DiffErrorKind::Missing => !(node_at(Some(*dir2), byte_views(e.path@)) matches Some(
                FsNode::File(_),
            )),
            DiffErrorKind::NotADirectory => false,
        })),
        res matches Err(e) ==> (!(e.kind is NotADirectory) ==> exists|i: int|
            {
                &&& 0 <= i < children(Some(*dir1)).len()
                &&& e.path@.len() > 0
                &&& e.path@[0]@ == children(Some(*dir1))[i].name@
                &&& !node_included(
                    children(Some(*dir1))[i].node,
                    find_entry(children(Some(*dir2)), children(Some(*dir1))[i].name@),
                )
                &&& forall|j: int|
                    0 <= j < i ==> node_included(
                        (#[trigger] children(Some(*dir1))[j]).node,
                        find_entry(children(Some(*dir2)), children(Some(*dir1))[j].name@),
                    )
            }),
{
    proof {
        lemma_included_iff_files_equal(*dir1, *dir2);
        lemma_first_failure_is_first(children(Some(*dir1)), children(Some(*dir2)));
    }
    let res = match dir1 {
        FsNode::File(_) => Err(DiffError { path: Vec::new(), kind: DiffErrorKind::NotADirectory }),
        FsNode::Dir(_) => diff_node(dir1, Some(dir2)),
    };
    proof {
        if res is Err {
            let e = res->Err_0;
            if !(e.kind is NotADirectory) && names_unique(*dir1) {
                lemma_failure_reads_by_path(*dir1, *dir2, byte_views(e.path@), e.kind);
            }
        }
    }
    res
}


/// A step of copying a directory tree: make sure the directory at `path` exists
/// (`is_dir`), or copy the file at `path`; `path` holds the names leading there
/// from the root of the copy.
#[derive(Debug)]
pub struct CopyStep {
    pub is_dir: bool,
    pub path: Vec<Vec<u8>>,
}

/// What a step does: whether it makes a directory, and the names of its path.
pub open spec fn step_view(step: CopyStep) -> (bool, Seq<Seq<u8>>) {
    (step.is_dir, byte_views(step.path@))
}

/// What each of `steps` does.
pub open spec fn step_views(steps: Seq<CopyStep>) -> Seq<(bool, Seq<Seq<u8>>)> {
    steps.map_values(|step: CopyStep| step_view(step))
}

/// The steps that copy `t` to the place `at`: a file is copied; a directory is
/// made to exist, then its entries are copied in turn, in listing order.
pub open spec fn node_steps(t: FsNode, at: Seq<Seq<u8>>) -> Seq<(bool, Seq<Seq<u8>>)>
    decreases t,
{
    match t {
        FsNode::File(_) => seq![(false, at)],
        FsNode::Dir(es) => seq![(true, at)] + dir_steps(es@, at),
    }
}

/// The steps that copy the entries `es` into the directory at `at`.
pub open spec fn dir_steps(es: Seq<FsEntry>, at: Seq<Seq<u8>>) -> Seq<(bool, Seq<Seq<u8>>)>
    decreases es,
{
    if es.len() == 0 {
        Seq::empty()
    } else {
        dir_steps(es.drop_last(), at) + node_steps(es.last().node, at.push(es.last().name@))
    }
}

/// A copy of the path `at`.
fn copy_path(at: &Vec<Vec<u8>>) -> (res: Vec<Vec<u8>>)
    ensures
        byte_views(res@) == byte_views(at@),
{
    let mut res: Vec<Vec<u8>> = Vec::new();
    let mut i: usize = 0;
    while i < at.len()
        invariant
            i <= at.len(),
            byte_views(res@) == byte_views(at@).subrange(0, i as int),
        decreases at.len() - i,
    {
        let part = copy_bytes(&at[i]);
        assert(byte_views(res@.push(part)) =~= byte_views(res@).push(part@));
        assert(byte_views(at@).subrange(0, i + 1) =~= byte_views(at@).subrange(0, i as int).push(
            at@[i as int]@,
        ));
        res.push(part);
        i += 1;
    }
    assert(byte_views(at@).subrange(0, i as int) =~= byte_views(at@));
    res
}

fn node_plan(t: &FsNode, at: &Vec<Vec<u8>>) -> (res: Vec<CopyStep>)
    ensures
        step_views(res@) == node_steps(*t, byte_views(at@)),
    decreases t,
{
    let own = copy_path(at);
    let mut res: Vec<CopyStep> = Vec::new();
    match t {
        FsNode::File(_) => {
            res.push(CopyStep { is_dir: false, path: own });
            assert(step_views(res@) =~= seq![(false, byte_views(at@))]);
            res
        },
        FsNode::Dir(es) => {
            res.push(CopyStep { is_dir: true, path: own });
            let ghost first = res@;
            assert(step_views(first) =~= seq![(true, byte_views(at@))]);
            let mut rest = dir_plan(es, at);
            let ghost rest_v = rest@;
            res.append(&mut rest);
            assert(step_views(res@) =~= step_views(first) + step_views(rest_v));
            res
        },
    }
}

fn dir_plan(es: &Vec<FsEntry>, at: &Vec<Vec<u8>>) -> (res: Vec<CopyStep>)
    ensures
        step_views(res@) == dir_steps(es@, byte_views(at@)),
    decreases es@,
{
    let mut res: Vec<CopyStep> = Vec::new();
    let mut i: usize = 0;
    assert(es@.subrange(0, 0) =~= Seq::<FsEntry>::empty());
    assert(step_views(res@) =~= Seq::<(bool, Seq<Seq<u8>>)>::empty());
    while i < es.len()
        invariant
            i <= es.len(),
            step_views(res@) == dir_steps(es@.subrange(0, i as int), byte_views(at@)),
        decreases es.len() - i,
    {
        let e = &es[i];
        let mut child = copy_path(at);
        let name = copy_bytes(&e.name);
        assert(byte_views(child@.push(name)) =~= byte_views(child@).push(name@));
        child.push(name);
        assert(decreases_to!(es@ => es@[i as int]));
        let mut sub = node_plan(&e.node, &child);
        let ghost before = res@;
        let ghost sub_v = sub@;
        res.append(&mut sub);
        assert(step_views(res@) =~= step_views(before) + step_views(sub_v));
        assert(es@.subrange(0, i + 1).drop_last() =~= es@.subrange(0, i as int));
        assert(es@.subrange(0, i + 1).last() == es@[i as int]);
        i += 1;
    }
    assert(es@.subrange(0, i as int) =~= es@);
    res
}

/// The steps that copy a directory with the entries `entries` to another place:
/// first that place is made a directory, then each entry is copied in listing
/// order, a subdirectory the same way in turn.
pub fn copy_plan(entries: &Vec<FsEntry>) -> (res: Vec<CopyStep>)
    ensures
        step_views(res@) == seq![(true, Seq::<Seq<u8>>::empty())] + dir_steps(entries@, Seq::empty()),
        res@.len() > 0 && res@[0].is_dir && res@[0].path@.len() == 0,
        forall|k: int| 0 < k < res@.len() ==> (#[trigger] res@[k]).path@.len() > 0,
        parents_first(step_views(res@)),
        names_unique(FsNode::Dir(*entries)) ==> forall|k: int|
            0 <= k < res@.len() ==> (node_at(
                Some(FsNode::Dir(*entries)),
                byte_views((#[trigger] res@[k]).path@),
            ) matches Some(n) && (n is Dir) == res@[k].is_dir),
{
    proof {
        lemma_copy_plan_parents_first(*entries);
        if names_unique(FsNode::Dir(*entries)) {
            lemma_copy_plan_steps_match_source(*entries);
        }
    }
    let root: Vec<Vec<u8>> = Vec::new();
    assert(byte_views(root@) =~= Seq::<Seq<u8>>::empty());
    let mut res: Vec<CopyStep> = Vec::new();
    res.push(CopyStep { is_dir: true, path: Vec::new() });
    let ghost first = res@;
    assert(step_views(first) =~= seq![(true, Seq::<Seq<u8>>::empty())]);
    let mut rest = dir_plan(entries, &root);
    let ghost rest_v = rest@;
    res.append(&mut rest);
    assert(step_views(res@) =~= step_views(first) + step_views(rest_v));
    proof {
        assert forall|k: int| 0 < k < res@.len() implies (#[trigger] res@[k]).path@.len() > 0 by {
            assert(step_views(res@)[k] == step_view(res@[k]));
        }
        if names_unique(FsNode::Dir(*entries)) {
            assert forall|k: int| 0 <= k < res@.len() implies (node_at(
                Some(FsNode::Dir(*entries)),
                byte_views((#[trigger] res@[k]).path@),
            ) matches Some(n) && (n is Dir) == res@[k].is_dir) by {
                assert(step_views(res@)[k] == step_view(res@[k]));
            }
        }
    }
    res
}

/// Whether each step of `s` after the first goes into a directory that an earlier
/// step of `s` makes.
pub open spec fn parents_first(s: Seq<(bool, Seq<Seq<u8>>)>) -> bool {
    forall|k: int|
        0 < k < s.len() ==> exists|j: int| 0 <= j < k && #[trigger] s[j] == (true, (#[trigger] s[k]).1.drop_last())
}

/// Whether each step of `s` lies strictly below the place `at`, and goes either
/// straight into `at` or into a directory that an earlier step of `s` makes.
pub open spec fn below_parents_first(s: Seq<(bool, Seq<Seq<u8>>)>, at: Seq<Seq<u8>>) -> bool {
    &&& forall|k: int|
        0 <= k < s.len() ==> (#[trigger] s[k]).1.len() > at.len() && s[k].1.subrange(0, at.len() as int) == at
    &&& forall|k: int|
        0 <= k < s.len() ==> (#[trigger] s[k]).1.len() == at.len() + 1 || exists|j: int|
            0 <= j < k && #[trigger] s[j] == (true, s[k].1.drop_last())
}

proof fn lemma_node_steps_order(t: FsNode, at: Seq<Seq<u8>>)
    ensures
        node_steps(t, at).len() > 0,
        node_steps(t, at)[0] == (t is Dir, at),
        forall|k: int|
            0 <= k < node_steps(t, at).len() ==> (#[trigger] node_steps(t, at)[k]).1.len() >= at.len()
                && node_steps(t, at)[k].1.subrange(0, at.len() as int) == at,
        parents_first(node_steps(t, at)),
    decreases t,
{
    let s = node_steps(t, at);
    match t {
        FsNode::File(_) => {
            assert(s[0].1.subrange(0, at.len() as int) =~= at);
        },
        FsNode::Dir(es) => {
            lemma_dir_steps_order(es@, at);
            let d = dir_steps(es@, at);
            assert(s == seq![(true, at)] + d);
            assert(s[0].1.subrange(0, at.len() as int) =~= at);
            assert forall|k: int|
                0 <= k < s.len() implies (#[trigger] s[k]).1.len() >= at.len() && s[k].1.subrange(
                0,
                at.len() as int,
            ) == at by {
                if k > 0 {
                    assert(s[k] == d[k - 1]);
                }
            }
            assert forall|k: int| 0 < k < s.len() implies exists|j: int|
                0 <= j < k && #[trigger] s[j] == (true, (#[trigger] s[k]).1.drop_last()) by {
                assert(s[k] == d[k - 1]);
                let p = d[k - 1].1;
                if p.len() == at.len() + 1 {
                    assert(p.drop_last() =~= p.subrange(0, at.len() as int));
                    assert(s[0] == (true, s[k].1.drop_last()));
                } else {
                    let j = choose|j: int| 0 <= j < k - 1 && #[trigger] d[j] == (true, p.drop_last());
                    assert(s[j + 1] == d[j]);
                }
            }
        },
    }
}

proof fn lemma_dir_steps_order(es: Seq<FsEntry>, at: Seq<Seq<u8>>)
    ensures
        below_parents_first(dir_steps(es, at), at),
    decreases es,
{
    if es.len() > 0 {
        let e = es.last();
        let sub = at.push(e.name@);
        lemma_dir_steps_order(es.drop_last(), at);
        assert(decreases_to!(es => e));
        lemma_node_steps_order(e.node, sub);
        let d0 = dir_steps(es.drop_last(), at);
        let n = node_steps(e.node, sub);
        let s = dir_steps(es, at);
        assert(s == d0 + n);
        assert forall|k: int| 0 <= k < s.len() implies (#[trigger] s[k]).1.len() > at.len()
            && s[k].1.subrange(0, at.len() as int) == at by {
            if k >= d0.len() {
                let m = k - d0.len();
                assert(s[k] == n[m]);
                assert(n[m].1.subrange(0, sub.len() as int) == sub);
                assert(n[m].1.subrange(0, at.len() as int) =~= n[m].1.subrange(0, sub.len() as int).subrange(
                    0,
                    at.len() as int,
                ));
                assert(sub.subrange(0, at.len() as int) =~= at);
            } else {
                assert(s[k] == d0[k]);
            }
        }
        assert forall|k: int| 0 <= k < s.len() implies (#[trigger] s[k]).1.len() == at.len() + 1
            || exists|j: int| 0 <= j < k && #[trigger] s[j] == (true, s[k].1.drop_last()) by {
            if k >= d0.len() {
                let m = k - d0.len();
                assert(s[k] == n[m]);
                if m > 0 {
                    let j = choose|j: int| 0 <= j < m && #[trigger] n[j] == (true, n[m].1.drop_last());
                    assert(s[d0.len() + j] == n[j]);
                }
            } else {
                assert(s[k] == d0[k]);
                if s[k].1.len() != at.len() + 1 {
                    let j = choose|j: int| 0 <= j < k && #[trigger] d0[j] == (true, d0[k].1.drop_last());
                    assert(s[j] == d0[j]);
                }
            }
        }
    }
}

/// Whether the step `x` of copying `t` to `at` names a place under `at` that
/// holds, in `t`, a directory where `x` makes one and a file where `x` copies one.
pub open spec fn step_matches_source(t: FsNode, at: Seq<Seq<u8>>, x: (bool, Seq<Seq<u8>>)) -> bool {
    exists|rel: Seq<Seq<u8>>|
        x.1 == at + rel && (#[trigger] node_at(Some(t), rel) matches Some(n) && (n is Dir) == x.0)
}

proof fn lemma_node_steps_match(t: FsNode, at: Seq<Seq<u8>>)
    requires
        names_unique(t),
    ensures
        forall|k: int|
            0 <= k < node_steps(t, at).len() ==> step_matches_source(t, at, #[trigger] node_steps(t, at)[k]),
    decreases t,
{
    let s = node_steps(t, at);
    assert(at + Seq::<Seq<u8>>::empty() =~= at);
    assert(node_at(Some(t), Seq::<Seq<u8>>::empty()) == Some(t));
    match t {
        FsNode::File(_) => {},
        FsNode::Dir(es) => {
            assert(es@.subrange(0, es@.len() as int) =~= es@);
            lemma_dir_steps_match(t, es@, es@, at);
            let d = dir_steps(es@, at);
            assert forall|k: int| 0 <= k < s.len() implies step_matches_source(t, at, #[trigger] s[k]) by {
                if k > 0 {
                    assert(s[k] == d[k - 1]);
                }
            }
        },
    }
}

proof fn lemma_dir_steps_match(t: FsNode, es1: Seq<FsEntry>, es: Seq<FsEntry>, at: Seq<Seq<u8>>)
    requires
        t matches FsNode::Dir(v) && v@ == es,
        entries_unique(es),
        es1.len() <= es.len(),
        es1 == es.subrange(0, es1.len() as int),
    ensures
        forall|k: int|
            0 <= k < dir_steps(es1, at).len() ==> step_matches_source(t, at, #[trigger] dir_steps(es1, at)[k]),
    decreases es1,
{
    if es1.len() > 0 {
        let i = es1.len() - 1;
        let e = es1.last();
        assert(es1.drop_last() == es.subrange(0, i));
        lemma_dir_steps_match(t, es1.drop_last(), es, at);
        assert(e == es[i]);
        lemma_entries_unique_at(es, i);
        lemma_find_entry_at(es, i);
        let sub = at.push(e.name@);
        assert(decreases_to!(es1 => e));
        lemma_node_steps_match(e.node, sub);
        let d0 = dir_steps(es1.drop_last(), at);
        let n = node_steps(e.node, sub);
        let d = dir_steps(es1, at);
        assert(d == d0 + n);
        assert forall|k: int| 0 <= k < d.len() implies step_matches_source(t, at, #[trigger] d[k]) by {
            if k < d0.len() {
                assert(d[k] == d0[k]);
            } else {
                let m = k - d0.len();
                assert(d[k] == n[m]);
                assert(step_matches_source(e.node, sub, n[m]));
                let rel2 = choose|rel2: Seq<Seq<u8>>|
                    n[m].1 == sub + rel2 && (#[trigger] node_at(Some(e.node), rel2) matches Some(nn)
                        && (nn is Dir) == n[m].0);
                let rel = seq![e.name@] + rel2;
                assert(rel[0] == e.name@);
                assert(rel.drop_first() =~= rel2);
                assert(node_at(Some(t), rel) == node_at(Some(e.node), rel2));
                assert(at + rel =~= sub + rel2);
            }
        }
    }
}

/// Every step of the copy plan of a valid directory names a place that the
/// directory holds, of the kind the step needs: a directory step a directory, a
/// file step a file.
pub proof fn lemma_copy_plan_steps_match_source(entries: Vec<FsEntry>)
    requires
        names_unique(FsNode::Dir(entries)),
    ensures
        ({
            let steps = seq![(true, Seq::<Seq<u8>>::empty())] + dir_steps(entries@, Seq::empty());
            forall|k: int|
                0 <= k < steps.len() ==> (node_at(Some(FsNode::Dir(entries)), (#[trigger] steps[k]).1) matches Some(n)
                    && (n is Dir) == steps[k].0)
        }),
{
    let t = FsNode::Dir(entries);
    let steps = seq![(true, Seq::<Seq<u8>>::empty())] + dir_steps(entries@, Seq::empty());
    lemma_node_steps_match(t, Seq::empty());
    assert(steps == node_steps(t, Seq::empty()));
    assert forall|k: int| 0 <= k < steps.len() implies (node_at(Some(t), (#[trigger] steps[k]).1) matches Some(n)
        && (n is Dir) == steps[k].0) by {
        assert(step_matches_source(t, Seq::empty(), steps[k]));
        let rel = choose|rel: Seq<Seq<u8>>|
            steps[k].1 == Seq::<Seq<u8>>::empty() + rel && (#[trigger] node_at(Some(t), rel) matches Some(n)
                && (n is Dir) == steps[k].0);
        assert(Seq::<Seq<u8>>::empty() + rel =~= rel);
    }
}

/// The copy plan of a directory makes each directory before anything is put in
/// it: its first step makes the root of the copy, and every later step goes into
/// a directory (the root, or one below it) that an earlier step makes.
pub proof fn lemma_copy_plan_parents_first(entries: Vec<FsEntry>)
    ensures
        ({
            let steps = seq![(true, Seq::<Seq<u8>>::empty())] + dir_steps(entries@, Seq::empty());
            &&& steps[0] == (true, Seq::<Seq<u8>>::empty())
            &&& forall|k: int| 0 < k < steps.len() ==> (#[trigger] steps[k]).1.len() > 0
            &&& parents_first(steps)
        }),
{
    let steps = seq![(true, Seq::<Seq<u8>>::empty())] + dir_steps(entries@, Seq::empty());
    lemma_node_steps_order(FsNode::Dir(entries), Seq::empty());
    assert(steps == node_steps(FsNode::Dir(entries), Seq::empty()));
    lemma_dir_steps_order(entries@, Seq::empty());
    assert forall|k: int| 0 < k < steps.len() implies (#[trigger] steps[k]).1.len() > 0 by {
        assert(steps[k] == dir_steps(entries@, Seq::empty())[k - 1]);
    }
}

/// The node reached from `t` by following the names `path` (each name picks the
/// first entry of that name in a directory).
pub open spec fn node_at(t: Option<FsNode>, path: Seq<Seq<u8>>) -> Option<FsNode>
    decreases path.len(),
{
    if path.len() == 0 {
        t
    } else {
        node_at(find_entry(children(t), path[0]), path.drop_first())
    }
}

/// What the places of a copy hold once `steps` have been carried out, copying
/// from `src`, onto a place that held nothing: each path is mapped to `None` for
/// a directory and to `Some(contents)` for a file. A directory step makes a
/// directory where there is nothing yet; a file step copies the file of `src` at
/// that path.
pub open spec fn apply_steps(steps: Seq<(bool, Seq<Seq<u8>>)>, src: FsNode) -> Map<Seq<Seq<u8>>, Option<Seq<u8>>>
    decreases steps.len(),
{
    if steps.len() == 0 {
        Map::empty()
    } else {
        let fs = apply_steps(steps.drop_last(), src);
        let p = steps.last().1;
        if steps.last().0 {
            if fs.dom().contains(p) {
                fs
            } else {
                fs.insert(p, None)
            }
        } else {
            match node_at(Some(src), p) {
                Some(FsNode::File(c)) => fs.insert(p, Some(c@)),
                _ => fs,
            }
        }
    }
}

proof fn lemma_apply_keeps(steps: Seq<(bool, Seq<Seq<u8>>)>, src: FsNode, k: int)
    requires
        0 <= k < steps.len(),
    ensures
        match node_at(Some(src), steps[k].1) {
            Some(FsNode::File(c)) => !steps[k].0 ==> apply_steps(steps, src).dom().contains(
                steps[k].1,
            ) && apply_steps(steps, src)[steps[k].1] == Some(c@),
            Some(FsNode::Dir(_)) => steps[k].0 ==> apply_steps(steps, src).dom().contains(
                steps[k].1,
            ) && apply_steps(steps, src)[steps[k].1] is None,
            None => true,
        },
    decreases steps.len(),
{
    let p = steps[k].1;
    let prefix = steps.drop_last();
    if k < steps.len() - 1 {
        lemma_apply_keeps(prefix, src, k);
        assert(prefix[k] == steps[k]);
    } else {
        let fs = apply_steps(prefix, src);
        if fs.dom().contains(p) && fs[p] is Some {
            lemma_apply_sound(prefix, src, p);
        }
    }
}

proof fn lemma_dir_steps_hold(es: Seq<FsEntry>, at: Seq<Seq<u8>>, j: int, x: (bool, Seq<Seq<u8>>))
    requires
        0 <= j < es.len(),
        node_steps(es[j].node, at.push(es[j].name@)).contains(x),
    ensures
        dir_steps(es, at).contains(x),
    decreases es.len(),
{
    let last = es.len() - 1;
    let before = dir_steps(es.drop_last(), at);
    let own = node_steps(es.last().node, at.push(es.last().name@));
    assert(dir_steps(es, at) == before + own);
    if j < last {
        assert(es.drop_last()[j] == es[j]);
        lemma_dir_steps_hold(es.drop_last(), at, j, x);
        let i = choose|i: int| 0 <= i < before.len() && before[i] == x;
        assert((before + own)[i] == x);
    } else {
        assert(es.last() == es[j]);
        let i = choose|i: int| 0 <= i < own.len() && own[i] == x;
        assert((before + own)[before.len() + i] == x);
    }
}

proof fn lemma_steps_cover(t: FsNode, at: Seq<Seq<u8>>, rel: Seq<Seq<u8>>)
    ensures
        node_at(Some(t), rel) matches Some(n) ==> node_steps(t, at).contains(
            (n is Dir, at + rel),
        ),
    decreases rel.len(),
{
    if rel.len() == 0 {
        assert(at + rel =~= at);
        assert(node_steps(t, at)[0] == (t is Dir, at));
    } else {
        let name = rel[0];
        let rest = rel.drop_first();
        match t {
            FsNode::File(_) => {
                lemma_node_at_none(rest);
            },
            FsNode::Dir(es) => {
                lemma_find_entry_found(es@, name);
                match find_entry(es@, name) {
                    Some(child) => {
                        let j = choose|j: int|
                            0 <= j < es@.len() && #[trigger] es@[j].name@ == name && es@[j].node
                                == child;
                        lemma_steps_cover(child, at.push(name), rest);
                        assert(at.push(name) + rest =~= at + rel);
                        if let Some(n) = node_at(Some(t), rel) {
                            let x = (n is Dir, at + rel);
                            lemma_dir_steps_hold(es@, at, j, x);
                            let all = node_steps(t, at);
                            assert(all == seq![(true, at)] + dir_steps(es@, at));
                            let i = choose|i: int|
                                0 <= i < dir_steps(es@, at).len() && dir_steps(es@, at)[i] == x;
                            assert(all[i + 1] == x);
                        }
                    },
                    None => {
                        lemma_node_at_none(rest);
                    },
                }
            },
        }
    }
}

proof fn lemma_node_at_none(path: Seq<Seq<u8>>)
    ensures
        node_at(None, path) is None,
    decreases path.len(),
{
    if path.len() > 0 {
        assert(children(None) == Seq::<FsEntry>::empty());
        lemma_node_at_none(path.drop_first());
    }
}

/// What the place of a copy holds once the copy plan of a directory with the
/// entries `entries` has been carried out there.
pub open spec fn copied_places(entries: Vec<FsEntry>) -> Map<Seq<Seq<u8>>, Option<Seq<u8>>> {
    apply_steps(
        seq![(true, Seq::<Seq<u8>>::empty())] + dir_steps(entries@, Seq::empty()),
        FsNode::Dir(entries),
    )
}

/// Whether the places `fs` hold everything under `src`: at the path of each file
/// under it a file with the same contents, at the path of each directory under
/// it a directory.
pub open spec fn places_hold(fs: Map<Seq<Seq<u8>>, Option<Seq<u8>>>, src: FsNode) -> bool {
    forall|path: Seq<Seq<u8>>|
        match #[trigger] node_at(Some(src), path) {
            Some(FsNode::File(c)) => fs.dom().contains(path) && fs[path] == Some(c@),
            Some(FsNode::Dir(_)) => fs.dom().contains(path) && fs[path] is None,
            None => true,
        }
}

/// A file put in place by the steps is the file of `src` at that path.
proof fn lemma_apply_sound(steps: Seq<(bool, Seq<Seq<u8>>)>, src: FsNode, p: Seq<Seq<u8>>)
    requires
        apply_steps(steps, src).dom().contains(p),
        apply_steps(steps, src)[p] is Some,
    ensures
        node_at(Some(src), p) matches Some(FsNode::File(c)) && apply_steps(steps, src)[p] == Some(
            c@,
        ),
    decreases steps.len(),
{
    if steps.len() > 0 {
        let prefix = steps.drop_last();
        let q = steps.last().1;
        let fs = apply_steps(prefix, src);
        if p != q {
            lemma_apply_sound(prefix, src, p);
        } else if steps.last().0 {
            if fs.dom().contains(q) {
                lemma_apply_sound(prefix, src, p);
            }
        } else {
            match node_at(Some(src), q) {
                Some(FsNode::File(c)) => {
                    assert(apply_steps(steps, src) == fs.insert(q, Some(c@)));
                },
                _ => {
                    assert(apply_steps(steps, src) == fs);
                    lemma_apply_sound(prefix, src, p);
                },
            }
        }
    }
}

/// Carrying out the copy plan of a directory puts at each path of the copy what
/// the directory holds at that path: every file under it with the same contents,
/// and a directory for every directory under it (the directory itself at the
/// empty path).
pub proof fn lemma_copy_plan_copies_everything(entries: Vec<FsEntry>)
    ensures
        places_hold(copied_places(entries), FsNode::Dir(entries)),
{
    let src = FsNode::Dir(entries);
    let steps = seq![(true, Seq::<Seq<u8>>::empty())] + dir_steps(entries@, Seq::empty());
    assert(steps == node_steps(src, Seq::empty()));
    assert forall|path: Seq<Seq<u8>>|
        match #[trigger] node_at(Some(src), path) {
            Some(FsNode::File(c)) => copied_places(entries).dom().contains(path)
                && copied_places(entries)[path] == Some(c@),
            Some(FsNode::Dir(_)) => copied_places(entries).dom().contains(path)
                && copied_places(entries)[path] is None,
            None => true,
        } by {
        lemma_steps_cover(src, Seq::empty(), path);
        assert(Seq::<Seq<u8>>::empty() + path =~= path);
        if let Some(n) = node_at(Some(src), path) {
            let k = choose|k: int| 0 <= k < steps.len() && steps[k] == (n is Dir, path);
            lemma_apply_keeps(steps, src, k);
        }
    }
}

/// Whether the tree `dst` holds what the places `fs` say: at the path of each
/// file place a file with the same contents, at the path of each directory place
/// a directory.
pub open spec fn tree_holds(dst: FsNode, fs: Map<Seq<Seq<u8>>, Option<Seq<u8>>>) -> bool {
    forall|path: Seq<Seq<u8>>|
        #[trigger] fs.dom().contains(path) ==> match fs[path] {
            Some(c) => node_at(Some(dst), path) matches Some(FsNode::File(d)) && d@ == c,
            None => node_at(Some(dst), path) matches Some(FsNode::Dir(_)),
        }
}

/// Whether each file under `t`, by any path, is a file with the same contents in
/// `d` at that path.
pub open spec fn files_found_by_path(t: FsNode, d: Option<FsNode>) -> bool {
    forall|rel: Seq<Seq<u8>>| file_kept(#[trigger] node_at(Some(t), rel), node_at(d, rel))
}

/// Whether `b` is a file with the same contents where `a` is a file.
pub open spec fn file_kept(a: Option<FsNode>, b: Option<FsNode>) -> bool {
    match a {
        Some(FsNode::File(c)) => b matches Some(FsNode::File(c2)) && c2@ == c@,
        _ => true,
    }
}

proof fn lemma_included_by_paths(t: FsNode, d: Option<FsNode>)
    requires
        names_unique(t),
        files_found_by_path(t, d),
    ensures
        node_included(t, d),
    decreases t,
{
    match t {
        FsNode::File(_) => {
            assert(node_at(Some(t), Seq::empty()) == Some(t));
        },
        FsNode::Dir(es) => {
            assert(es@.subrange(0, es@.len() as int) =~= es@);
            lemma_entries_by_paths(t, es@, es@, d);
        },
    }
}

proof fn lemma_entries_by_paths(t: FsNode, es1: Seq<FsEntry>, es: Seq<FsEntry>, d: Option<FsNode>)
    requires
        t matches FsNode::Dir(v) && v@ == es,
        entries_unique(es),
        files_found_by_path(t, d),
        es1.len() <= es.len(),
        es1 == es.subrange(0, es1.len() as int),
    ensures
        entries_included(es1, children(d)),
    decreases es1,
{
    if es1.len() > 0 {
        let i = es1.len() - 1;
        assert(es1.drop_last() == es.subrange(0, i));
        lemma_entries_by_paths(t, es1.drop_last(), es, d);
        let e = es1.last();
        assert(e == es[i]);
        lemma_entries_unique_at(es, i);
        lemma_find_entry_at(es, i);
        let below = find_entry(children(d), e.name@);
        assert forall|rel: Seq<Seq<u8>>|
            file_kept(#[trigger] node_at(Some(e.node), rel), node_at(below, rel)) by {
            let whole = seq![e.name@] + rel;
            assert(whole[0] == e.name@);
            assert(whole.drop_first() =~= rel);
            assert(node_at(Some(t), whole) == node_at(Some(e.node), rel));
            assert(node_at(d, whole) == node_at(below, rel));
        }
        assert(decreases_to!(es1 => e));
        lemma_included_by_paths(e.node, below);
    }
}

proof fn lemma_included_files_by_path(t: FsNode, d: Option<FsNode>, rel: Seq<Seq<u8>>)
    requires
        node_included(t, d),
    ensures
        file_kept(node_at(Some(t), rel), node_at(d, rel)),
    decreases rel.len(),
{
    if rel.len() > 0 {
        let name = rel[0];
        match t {
            FsNode::File(_) => {
                lemma_node_at_none(rel.drop_first());
            },
            FsNode::Dir(es) => {
                lemma_find_entry_found(es@, name);
                match find_entry(es@, name) {
                    Some(n) => {
                        let j = choose|j: int|
                            0 <= j < es@.len() && #[trigger] es@[j].name@ == name && es@[j].node == n;
                        lemma_entries_included_at(es@, children(d), j);
                        lemma_included_files_by_path(n, find_entry(children(d), name), rel.drop_first());
                    },
                    None => {
                        lemma_node_at_none(rel.drop_first());
                    },
                }
            },
        }
    }
}

proof fn lemma_failure_by_path(t1: FsNode, t2: Option<FsNode>, path: Seq<Seq<u8>>, kind: DiffErrorKind)
    requires
        fails_at(t1, t2, path, kind),
    ensures
        node_at(Some(t1), path) matches Some(FsNode::File(c1)) && match kind {
            DiffErrorKind::Mismatch => node_at(t2, path) matches Some(FsNode::File(c2)) && c1@ != c2@,
            DiffErrorKind::Missing => !(node_at(t2, path) matches Some(FsNode::File(_))),
            DiffErrorKind::NotADirectory => false,
        },
    decreases path.len(),
{
    if path.len() > 0 {
        if let FsNode::Dir(es1) = t1 {
            if let Some(n1) = find_entry(es1@, path[0]) {
                lemma_failure_by_path(n1, find_entry(children(t2), path[0]), path.drop_first(), kind);
            }
        }
    }
}

/// Inclusion of trees, read path by path. If `t1` is included in `t2`, then at
/// the path of every file of `t1` there is a file in `t2` holding exactly the
/// same bytes. For a valid `t1` (no directory holds two entries of the same
/// name) the converse holds too.
pub proof fn lemma_included_iff_files_equal(t1: FsNode, t2: FsNode)
    ensures
        node_included(t1, Some(t2)) ==> forall|rel: Seq<Seq<u8>>|
            match #[trigger] node_at(Some(t1), rel) {
                Some(FsNode::File(c)) => node_at(Some(t2), rel) matches Some(FsNode::File(c2))
                    && c2@ == c@,
                _ => true,
            },
        names_unique(t1) && (forall|rel: Seq<Seq<u8>>|
            match #[trigger] node_at(Some(t1), rel) {
                Some(FsNode::File(c)) => node_at(Some(t2), rel) matches Some(FsNode::File(c2))
                    && c2@ == c@,
                _ => true,
            }) ==> node_included(t1, Some(t2)),
{
    if node_included(t1, Some(t2)) {
        assert forall|rel: Seq<Seq<u8>>|
            match #[trigger] node_at(Some(t1), rel) {
                Some(FsNode::File(c)) => node_at(Some(t2), rel) matches Some(FsNode::File(c2))
                    && c2@ == c@,
                _ => true,
            } by {
            lemma_included_files_by_path(t1, Some(t2), rel);
        }
    }
    if names_unique(t1) && (forall|rel: Seq<Seq<u8>>|
        match #[trigger] node_at(Some(t1), rel) {
            Some(FsNode::File(c)) => node_at(Some(t2), rel) matches Some(FsNode::File(c2))
                && c2@ == c@,
            _ => true,
        }) {
        assert forall|rel: Seq<Seq<u8>>|
            file_kept(#[trigger] node_at(Some(t1), rel), node_at(Some(t2), rel)) by {
            let _ = node_at(Some(t1), rel);
        }
        lemma_included_by_paths(t1, Some(t2));
    }
}

/// A failure that the comparison of a valid tree `t1` reports, read by path: a
/// `Mismatch` at `path` means that `t1` has a file there and `t2` a file with
/// other bytes; a `Missing` one means that `t1` has a file there and `t2` none.
pub proof fn lemma_failure_reads_by_path(t1: FsNode, t2: FsNode, path: Seq<Seq<u8>>, kind: DiffErrorKind)
    requires
        fails_at(t1, Some(t2), path, kind),
    ensures
        node_at(Some(t1), path) matches Some(FsNode::File(c1)) && match kind {
            DiffErrorKind::Mismatch => node_at(Some(t2), path) matches Some(FsNode::File(c2)) && c1@
                != c2@,
            DiffErrorKind::Missing => !(node_at(Some(t2), path) matches Some(FsNode::File(_))),
            DiffErrorKind::NotADirectory => false,
        },
{
    lemma_failure_by_path(t1, Some(t2), path, kind);
}

proof fn lemma_first_failure_none(t: FsNode, d: Option<FsNode>)
    ensures
        node_first_failure(t, d) is None <==> node_included(t, d),
    decreases t,
{
    if let FsNode::Dir(es) = t {
        lemma_entries_first_failure_none(es@, children(d));
    }
}

proof fn lemma_entries_first_failure_none(es1: Seq<FsEntry>, es2: Seq<FsEntry>)
    ensures
        entries_first_failure(es1, es2) is None <==> entries_included(es1, es2),
    decreases es1,
{
    if es1.len() > 0 {
        lemma_entries_first_failure_none(es1.drop_last(), es2);
        assert(decreases_to!(es1 => es1.last()));
        lemma_first_failure_none(es1.last().node, find_entry(es2, es1.last().name@));
    }
}

/// The failure reported for the entries `es1` against `es2` lies under the first
/// entry of `es1`, in listing order, that is not included in its counterpart:
/// every entry before it is included, and the rest of the path is the first
/// failure under that entry. There is no failure exactly when every entry is
/// included.
pub proof fn lemma_first_failure_is_first(es1: Seq<FsEntry>, es2: Seq<FsEntry>)
    ensures
        match entries_first_failure(es1, es2) {
            Some(f) => exists|i: int|
                {
                    &&& 0 <= i < es1.len()
                    &&& f.0.len() > 0
                    &&& f.0[0] == es1[i].name@
                    &&& !node_included(es1[i].node, find_entry(es2, es1[i].name@))
                    &&& node_first_failure(es1[i].node, find_entry(es2, es1[i].name@)) == Some(
                        (f.0.drop_first(), f.1),
                    )
                    &&& forall|j: int|
                        0 <= j < i ==> node_included(
                            (#[trigger] es1[j]).node,
                            find_entry(es2, es1[j].name@),
                        )
                },
            None => forall|j: int|
                0 <= j < es1.len() ==> node_included(
                    (#[trigger] es1[j]).node,
                    find_entry(es2, es1[j].name@),
                ),
        },
    decreases es1.len(),
{
    if es1.len() > 0 {
        let rest = es1.drop_last();
        let e = es1.last();
        lemma_first_failure_is_first(rest, es2);
        lemma_first_failure_none(e.node, find_entry(es2, e.name@));
        match entries_first_failure(rest, es2) {
            Some(f) => {
                let i = choose|i: int|
                    {
                        &&& 0 <= i < rest.len()
                        &&& f.0.len() > 0
                        &&& f.0[0] == rest[i].name@
                        &&& !node_included(rest[i].node, find_entry(es2, rest[i].name@))
                        &&& node_first_failure(rest[i].node, find_entry(es2, rest[i].name@))
                            == Some((f.0.drop_first(), f.1))
                        &&& forall|j: int|
                            0 <= j < i ==> node_included(
                                (#[trigger] rest[j]).node,
                                find_entry(es2, rest[j].name@),
                            )
                    };
                assert(es1[i] == rest[i]);
                assert forall|j: int| 0 <= j < i implies node_included(
                    (#[trigger] es1[j]).node,
                    find_entry(es2, es1[j].name@),
                ) by {
                    assert(es1[j] == rest[j]);
                }
            },
            None => {
                let i = es1.len() - 1;
                assert(es1[i] == e);
                assert forall|j: int| 0 <= j < i implies node_included(
                    (#[trigger] es1[j]).node,
                    find_entry(es2, es1[j].name@),
                ) by {
                    assert(es1[j] == rest[j]);
                }
                if let Some(f) = entries_first_failure(es1, es2) {
                    let g = node_first_failure(e.node, find_entry(es2, e.name@))->Some_0;
                    assert(f.0 == seq![e.name@] + g.0);
                    assert(f.0.drop_first() =~= g.0);
                } else {
                    assert forall|j: int| 0 <= j < es1.len() implies node_included(
                        (#[trigger] es1[j]).node,
                        find_entry(es2, es1[j].name@),
                    ) by {
                        if j < i {
                            assert(es1[j] == rest[j]);
                        }
                    }
                }
            },
        }
    }
}

/// Copying a valid directory tree by its copy plan gives a tree that includes it:
/// any tree that holds what carrying out the plan put in place holds every file
/// of the source at its place with the same contents, so comparing the source
/// with the copy by `recursive_diff` succeeds.
pub proof fn lemma_copy_includes_source(entries: Vec<FsEntry>, dst: FsNode)
    requires
        names_unique(FsNode::Dir(entries)),
        tree_holds(dst, copied_places(entries)),
    ensures
        node_included(FsNode::Dir(entries), Some(dst)),
{
    let src = FsNode::Dir(entries);
    let fs = copied_places(entries);
    lemma_copy_plan_copies_everything(entries);
    assert forall|rel: Seq<Seq<u8>>|
        file_kept(#[trigger] node_at(Some(src), rel), node_at(Some(dst), rel)) by {
        if node_at(Some(src), rel) matches Some(FsNode::File(_)) {
            assert(fs.dom().contains(rel));
        }
    }
    lemma_included_by_paths(src, Some(dst));
}

/// Whether no two entries of any directory under `t` share a name, as on a real
/// file system.
pub open spec fn names_unique(t: FsNode) -> bool
    decreases t,
{
    match t {
        FsNode::File(_) => true,
        FsNode::Dir(es) => entries_unique(es@),
    }
}

/// Whether no two of `es` share a name, nor do two entries under any of them.
pub open spec fn entries_unique(es: Seq<FsEntry>) -> bool
    decreases es,
{
    if es.len() == 0 {
        true
    } else {
        &&& entries_unique(es.drop_last())
        &&& names_unique(es.last().node)
        &&& forall|j: int| 0 <= j < es.len() - 1 ==> #[trigger] es[j].name@ != es.last().name@
    }
}

proof fn lemma_find_entry_at(es: Seq<FsEntry>, i: int)
    requires
        0 <= i < es.len(),
        forall|j: int| 0 <= j < i ==> #[trigger] es[j].name@ != es[i].name@,
    ensures
        find_entry(es, es[i].name@) == Some(es[i].node),
    decreases i,
{
    if i > 0 {
        assert forall|j: int| 0 <= j < i - 1 implies #[trigger] es.drop_first()[j].name@ != es.drop_first()[i
            - 1].name@ by {
            assert(es.drop_first()[j] == es[j + 1]);
        }
        lemma_find_entry_at(es.drop_first(), i - 1);
    }
}

proof fn lemma_entries_unique_at(es: Seq<FsEntry>, i: int)
    requires
        entries_unique(es),
        0 <= i < es.len(),
    ensures
        names_unique(es[i].node),
        forall|j: int| 0 <= j < i ==> #[trigger] es[j].name@ != es[i].name@,
    decreases es.len(),
{
    if i < es.len() - 1 {
        lemma_entries_unique_at(es.drop_last(), i);
        assert forall|j: int| 0 <= j < i implies #[trigger] es[j].name@ != es[i].name@ by {
            assert(es.drop_last()[j] == es[j]);
            assert(es.drop_last()[i] == es[i]);
        }
    } else {
        assert forall|j: int| 0 <= j < i implies #[trigger] es[j].name@ != es[i].name@ by {
            assert(es[i] == es.last());
        }
    }
}

proof fn lemma_node_included_refl(t: FsNode)
    requires
        names_unique(t),
    ensures
        node_included(t, Some(t)),
    decreases t,
{
    match t {
        FsNode::File(_) => {},
        FsNode::Dir(es) => {
            assert(es@.subrange(0, es@.len() as int) =~= es@);
            lemma_entries_included_refl(es@, es@);
        },
    }
}

proof fn lemma_entries_included_refl(es1: Seq<FsEntry>, es: Seq<FsEntry>)
    requires
        entries_unique(es),
        es1.len() <= es.len(),
        es1 == es.subrange(0, es1.len() as int),
    ensures
        entries_included(es1, es),
    decreases es1,
{
    if es1.len() > 0 {
        let i = es1.len() - 1;
        assert(es1.drop_last() == es.subrange(0, i));
        lemma_entries_included_refl(es1.drop_last(), es);
        assert(es1.last() == es[i]);
        lemma_entries_unique_at(es, i);
        lemma_find_entry_at(es, i);
        assert(decreases_to!(es1 => es1.last()));
        lemma_node_included_refl(es1.last().node);
    }
}

/// Inclusion of trees is reflexive: every valid tree (no directory under it holds
/// two entries of the same name, as on any file system) is included in itself.
/// A tree that breaks this may fail: a directory holding a file `a` with `x` and
/// then another file `a` with `y` is not included in itself, since each name is
/// looked up as its first entry.
pub proof fn lemma_included_reflexive(t: FsNode)
    requires
        names_unique(t),
    ensures
        node_included(t, Some(t)),
{
    lemma_node_included_refl(t);
}

/// A node with no file anywhere under it (only directories, all empty at the
/// bottom) is included in anything.
proof fn lemma_hollow(t: FsNode, o: Option<FsNode>, p: Option<FsNode>)
    requires
        node_included(t, o),
        children(o).len() == 0,
        !(o matches Some(FsNode::File(_))),
    ensures
        node_included(t, p),
    decreases t,
{
    match t {
        FsNode::File(_) => {},
        FsNode::Dir(es) => {
            lemma_hollow_entries(es@, children(o), children(p));
        },
    }
}

proof fn lemma_hollow_entries(es: Seq<FsEntry>, none: Seq<FsEntry>, any: Seq<FsEntry>)
    requires
        entries_included(es, none),
        none.len() == 0,
    ensures
        entries_included(es, any),
    decreases es,
{
    if es.len() > 0 {
        lemma_hollow_entries(es.drop_last(), none, any);
        assert(find_entry(none, es.last().name@) is None);
        assert(decreases_to!(es => es.last()));
        lemma_hollow(es.last().node, None, find_entry(any, es.last().name@));
    }
}

proof fn lemma_find_entry_found(es: Seq<FsEntry>, name: Seq<u8>)
    ensures
        find_entry(es, name) matches Some(n) ==> exists|j: int|
            0 <= j < es.len() && #[trigger] es[j].name@ == name && es[j].node == n,
    decreases es.len(),
{
    if es.len() > 0 && es[0].name@ != name {
        lemma_find_entry_found(es.drop_first(), name);
        if let Some(n) = find_entry(es, name) {
            let j = choose|j: int|
                0 <= j < es.drop_first().len() && #[trigger] es.drop_first()[j].name@ == name
                    && es.drop_first()[j].node == n;
            assert(es[j + 1] == es.drop_first()[j]);
        }
    }
}

proof fn lemma_entries_included_at(es: Seq<FsEntry>, other: Seq<FsEntry>, j: int)
    requires
        entries_included(es, other),
        0 <= j < es.len(),
    ensures
        node_included(es[j].node, find_entry(other, es[j].name@)),
    decreases es.len(),
{
    if j < es.len() - 1 {
        lemma_entries_included_at(es.drop_last(), other, j);
    }
}

proof fn lemma_node_included_trans(a: FsNode, b: FsNode, c: Option<FsNode>)
    requires
        node_included(a, Some(b)),
        node_included(b, c),
    ensures
        node_included(a, c),
    decreases a,
{
    match a {
        FsNode::File(_) => {},
        FsNode::Dir(es1) => {
            match b {
                FsNode::File(_) => {
                    lemma_hollow_entries(es1@, children(Some(b)), children(c));
                },
                FsNode::Dir(es2) => {
                    lemma_entries_included_trans(es1@, es2@, children(c));
                },
            }
        },
    }
}

proof fn lemma_entries_included_trans(es1: Seq<FsEntry>, es2: Seq<FsEntry>, es3: Seq<FsEntry>)
    requires
        entries_included(es1, es2),
        entries_included(es2, es3),
    ensures
        entries_included(es1, es3),
    decreases es1,
{
    if es1.len() > 0 {
        lemma_entries_included_trans(es1.drop_last(), es2, es3);
        let e = es1.last();
        assert(decreases_to!(es1 => e));
        match find_entry(es2, e.name@) {
            Some(n2) => {
                lemma_find_entry_found(es2, e.name@);
                let j = choose|j: int|
                    0 <= j < es2.len() && #[trigger] es2[j].name@ == e.name@ && es2[j].node == n2;
                lemma_entries_included_at(es2, es3, j);
                lemma_node_included_trans(e.node, n2, find_entry(es3, e.name@));
            },
            None => {
                lemma_hollow(e.node, None, find_entry(es3, e.name@));
            },
        }
    }
}

/// Inclusion of trees is transitive: if everything under `a` is found in `b`, and
/// everything under `b` is found in `c`, then everything under `a` is found in `c`.
pub proof fn lemma_included_transitive(a: FsNode, b: FsNode, c: FsNode)
    requires
        node_included(a, Some(b)),
        node_included(b, Some(c)),
    ensures
        node_included(a, Some(c)),
{
    lemma_node_included_trans(a, b, Some(c));
}

} // verus!
