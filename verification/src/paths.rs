//! Paths as sequences of bytes, read as a Unix host reads them: the byte `/` is
//! the only separator and there are no drive or server prefixes. The spec
//! functions take the separator and the dot as parameters, so that they read
//! the same over bytes (paths) and over characters (names made as text).

use vstd::prelude::*;
use vstd::utf8::{encode_utf8, valid_utf8};

use crate::text::{bytes_contain, seq_contains};

verus! {

/// The byte `/`.
pub open spec fn slash() -> u8 {
    0x2f
}

/// The byte `.`.
pub open spec fn dot() -> u8 {
    0x2e
}

/// `base` joined with `p` (`Path::join` on a Unix host): an absolute `p`
/// replaces `base`; otherwise a separator is put between them unless `base` is
/// empty or already ends in one.
pub open spec fn join_by<T>(base: Seq<T>, p: Seq<T>, sep: T) -> Seq<T> {
    if p.len() > 0 && p[0] == sep {
        p
    } else if base.len() == 0 || base.last() == sep {
        base + p
    } else {
        base + seq![sep] + p
    }
}

/// The elements after the last separator of `s`.
pub open spec fn trailing_segment<T>(s: Seq<T>, sep: T) -> Seq<T>
    decreases s.len(),
{
    if s.len() == 0 || s.last() == sep {
        Seq::empty()
    } else {
        trailing_segment(s.drop_last(), sep).push(s.last())
    }
}

/// Whether `s` ends in a `.` component (a dot at the start or after a separator).
pub open spec fn ends_in_cur_dir<T>(s: Seq<T>, sep: T, dot: T) -> bool {
    s.len() > 0 && s.last() == dot && (s.len() == 1 || s[s.len() - 2] == sep)
}

/// The last component of the path `s` that is neither empty nor `.`.
pub open spec fn last_component<T>(s: Seq<T>, sep: T, dot: T) -> Option<Seq<T>>
    decreases s.len(),
{
    if s.len() == 0 {
        None
    } else if s.last() == sep || ends_in_cur_dir(s, sep, dot) {
        last_component(s.drop_last(), sep, dot)
    } else {
        Some(trailing_segment(s, sep))
    }
}

/// The final component of the path `s` (`Path::file_name` on a Unix host): `None`
/// where the path has no normal final component (it is empty, a root, `.`, or
/// ends in `..`).
pub open spec fn file_name_by<T>(s: Seq<T>, sep: T, dot: T) -> Option<Seq<T>> {
    match last_component(s, sep, dot) {
        Some(c) => if c == seq![dot, dot] {
            None
        } else {
            Some(c)
        },
        None => None,
    }
}

/// Index of the last dot in `s`.
pub open spec fn last_dot<T>(s: Seq<T>, dot: T) -> Option<int>
    decreases s.len(),
{
    if s.len() == 0 {
        None
    } else if s.last() == dot {
        Some(s.len() - 1)
    } else {
        last_dot(s.drop_last(), dot)
    }
}

/// The extension of the file name `name`: what follows its last dot, where that
/// dot is not its first element.
pub open spec fn name_extension<T>(name: Seq<T>, dot: T) -> Option<Seq<T>> {
    match last_dot(name, dot) {
        Some(k) => if 0 < k < name.len() {
            Some(name.subrange(k + 1, name.len() as int))
        } else {
            None
        },
        None => None,
    }
}

/// The extension of the path `s` (`Path::extension` on a Unix host).
pub open spec fn extension_by<T>(s: Seq<T>, sep: T, dot: T) -> Option<Seq<T>> {
    match file_name_by(s, sep, dot) {
        Some(name) => name_extension(name, dot),
        None => None,
    }
}

/// `base` joined with `p`, both paths as bytes.
pub open spec fn path_join(base: Seq<u8>, p: Seq<u8>) -> Seq<u8> {
    join_by(base, p, slash())
}

/// The final component of the path `s`, as bytes.
pub open spec fn spec_file_name(s: Seq<u8>) -> Option<Seq<u8>> {
    file_name_by(s, slash(), dot())
}

/// The extension of the path `s`, as bytes.
pub open spec fn spec_extension(s: Seq<u8>) -> Option<Seq<u8>> {
    extension_by(s, slash(), dot())
}

/// The file name of the path written as the text `s`.
pub open spec fn text_file_name(s: Seq<char>) -> Option<Seq<char>> {
    file_name_by(s, '/', '.')
}

/// The extension of the path written as the text `s`.
pub open spec fn text_extension(s: Seq<char>) -> Option<Seq<char>> {
    extension_by(s, '/', '.')
}

proof fn lemma_trailing_segment<T>(s: Seq<T>, sep: T, b: int)
    requires
        0 <= b <= s.len(),
        b == 0 || s[b - 1] == sep,
        forall|k: int| b <= k < s.len() ==> s[k] != sep,
    ensures
        trailing_segment(s, sep) == s.subrange(b, s.len() as int),
    decreases s.len() - b,
{
    if s.len() == b {
        assert(s.subrange(b, s.len() as int) =~= Seq::<T>::empty());
    } else {
        lemma_trailing_segment(s.drop_last(), sep, b);
        assert(s.drop_last().subrange(b, s.len() - 1).push(s.last()) =~= s.subrange(
            b,
            s.len() as int,
        ));
    }
}

proof fn lemma_last_dot<T>(s: Seq<T>, dot: T, k: int)
    requires
        -1 <= k < s.len(),
        k >= 0 ==> s[k] == dot,
        forall|j: int| k < j < s.len() ==> s[j] != dot,
    ensures
        last_dot(s, dot) == (if k >= 0 {
            Some(k)
        } else {
            None::<int>
        }),
    decreases s.len(),
{
    if s.len() > 0 && s.last() != dot {
        lemma_last_dot(s.drop_last(), dot, k);
    }
}

/// Appends the bytes `s` to `v`.
pub(crate) fn append_bytes(v: &mut Vec<u8>, s: &[u8])
    ensures
        final(v)@ == old(v)@ + s@,
{
    let ghost start = v@;
    let mut i: usize = 0;
    while i < s.len()
        invariant
            i <= s.len(),
            v@ == start + s@.subrange(0, i as int),
        decreases s.len() - i,
    {
        v.push(s[i]);
        assert(s@.subrange(0, i + 1) =~= s@.subrange(0, i as int).push(s@[i as int]));
        i += 1;
    }
    assert(s@.subrange(0, i as int) =~= s@);
}

/// The bytes `s[from..to]`.
pub fn bytes_range(s: &[u8], from: usize, to: usize) -> (res: Vec<u8>)
    requires
        from <= to <= s.len(),
    ensures
        res@ == s@.subrange(from as int, to as int),
{
    let mut res: Vec<u8> = Vec::new();
    let mut i = from;
    while i < to
        invariant
            from <= i <= to <= s.len(),
            res@ == s@.subrange(from as int, i as int),
        decreases to - i,
    {
        res.push(s[i]);
        assert(s@.subrange(from as int, i + 1) =~= s@.subrange(from as int, i as int).push(
            s@[i as int],
        ));
        i += 1;
    }
    res
}

/// A copy of the bytes `v`.
pub fn copy_bytes(v: &Vec<u8>) -> (res: Vec<u8>)
    ensures
        res@ == v@,
{
    let res = bytes_range(v.as_slice(), 0, v.len());
    assert(res@ =~= v@);
    res
}

/// Returns the path `p` relative to the directory `cwd`.
pub fn path(cwd: &[u8], p: &[u8]) -> (res: Vec<u8>)
    ensures
        res@ == path_join(cwd@, p@),
{
    let mut res: Vec<u8> = Vec::new();
    if p.len() > 0 && p[0] == 0x2f {
        append_bytes(&mut res, p);
        assert(res@ =~= p@);
    } else if cwd.len() == 0 || cwd[cwd.len() - 1] == 0x2f {
        append_bytes(&mut res, cwd);
        append_bytes(&mut res, p);
        assert(res@ =~= cwd@ + p@);
    } else {
        append_bytes(&mut res, cwd);
        res.push(0x2f);
        append_bytes(&mut res, p);
        assert(res@ =~= cwd@ + seq![slash()] + p@);
    }
    res
}

/// Start index and end index of the final component of `v` that is neither
/// empty nor `.`, if there is one.
fn last_component_bounds(v: &[u8]) -> (res: Option<(usize, usize)>)
    ensures
        match res {
            Some((b, e)) => b < e <= v.len() && last_component(v@, slash(), dot()) == Some(
                v@.subrange(b as int, e as int),
            ),
            None => last_component(v@, slash(), dot()) is None,
        },
{
    let mut j: usize = v.len();
    assert(v@.subrange(0, j as int) =~= v@);
    while j > 0 && (v[j - 1] == 0x2f || (v[j - 1] == 0x2e && (j == 1 || v[j - 2] == 0x2f)))
        invariant
            j <= v.len(),
            last_component(v@, slash(), dot()) == last_component(
                v@.subrange(0, j as int),
                slash(),
                dot(),
            ),
        decreases j,
    {
        assert(v@.subrange(0, j as int).drop_last() =~= v@.subrange(0, j - 1));
        j -= 1;
    }
    if j == 0 {
        return None;
    }
    let mut b: usize = j;
    while b > 0 && v[b - 1] != 0x2f
        invariant
            b <= j <= v.len(),
            forall|k: int| b <= k < j ==> v@[k] != slash(),
        decreases b,
    {
        b -= 1;
    }
    proof {
        let w = v@.subrange(0, j as int);
        lemma_trailing_segment(w, slash(), b as int);
        assert(w.subrange(b as int, j as int) =~= v@.subrange(b as int, j as int));
    }
    Some((b, j))
}

/// The final component of the path `p` (`Path::file_name` on a Unix host).
pub fn file_name(p: &[u8]) -> (res: Option<Vec<u8>>)
    ensures
        match res {
            Some(n) => spec_file_name(p@) == Some(n@),
            None => spec_file_name(p@) is None,
        },
{
    match last_component_bounds(p) {
        None => None,
        Some((b, e)) => {
            if e - b == 2 && p[b] == 0x2e && p[b + 1] == 0x2e {
                assert(p@.subrange(b as int, e as int) =~= seq![dot(), dot()]);
                None
            } else {
                let name = bytes_range(p, b, e);
                proof {
                    if name@ =~= seq![dot(), dot()] {
                        assert(name@.len() == 2);
                        assert(name@[0] == p@[b as int]);
                        assert(name@[1] == p@[b + 1]);
                    }
                }
                Some(name)
            }
        },
    }
}

/// Start and end of the extension of the file name `name` (after its last `.`,
/// that `.` not being its first byte).
pub fn extension_of_name(name: &[u8]) -> (res: Option<(usize, usize)>)
    ensures
        match res {
            Some((b, e)) => b <= e == name.len() && name_extension(name@, dot()) == Some(
                name@.subrange(b as int, e as int),
            ),
            None => name_extension(name@, dot()) is None,
        },
{
    let mut k: usize = name.len();
    while k > 0 && name[k - 1] != 0x2e
        invariant
            k <= name.len(),
            forall|j: int| k <= j < name.len() ==> name@[j] != dot(),
        decreases k,
    {
        k -= 1;
    }
    proof {
        lemma_last_dot(name@, dot(), k - 1);
    }
    if k <= 1 {
        None
    } else {
        Some((k, name.len()))
    }
}

/// Whether `a[from..from + b.len()]` is `b`.
fn bytes_match_at(a: &[u8], from: usize, b: &[u8]) -> (res: bool)
    requires
        from + b.len() <= a.len(),
    ensures
        res == (a@.subrange(from as int, from + b.len()) == b@),
{
    let mut i: usize = 0;
    while i < b.len()
        invariant
            from + b.len() <= a.len(),
            i <= b.len(),
            forall|k: int| 0 <= k < i ==> a@[from + k] == b@[k],
        decreases b.len() - i,
    {
        if a[from + i] != b[i] {
            assert(a@.subrange(from as int, from + b.len())[i as int] != b@[i as int]);
            return false;
        }
        i += 1;
    }
    assert(a@.subrange(from as int, from + b.len()) =~= b@);
    true
}

/// Whether the file name of `path`, if it has one, is valid UTF-8 (as the
/// predicates that read the file name as text require).
pub open spec fn file_name_is_text(path: Seq<u8>) -> bool {
    match spec_file_name(path) {
        Some(name) => valid_utf8(name),
        None => true,
    }
}

/// Returns true if the filename at `path` starts with `prefix`.
pub fn has_prefix(path: &[u8], prefix: &str) -> (res: bool)
    requires
        file_name_is_text(path@),
    ensures
        res == match spec_file_name(path@) {
            Some(name) => encode_utf8(prefix@).is_prefix_of(name),
            None => false,
        },
{
    match file_name(path) {
        None => false,
        Some(name) => {
            let p = prefix.as_bytes();
            if p.len() > name.len() {
                return false;
            }
            bytes_match_at(name.as_slice(), 0, p)
        },
    }
}

/// Returns true if the filename at `path` ends with `suffix`.
pub fn has_suffix(path: &[u8], suffix: &str) -> (res: bool)
    requires
        file_name_is_text(path@),
    ensures
        res == match spec_file_name(path@) {
            Some(name) => encode_utf8(suffix@).is_suffix_of(name),
            None => false,
        },
{
    match file_name(path) {
        None => false,
        Some(name) => {
            let p = suffix.as_bytes();
            if p.len() > name.len() {
                return false;
            }
            bytes_match_at(name.as_slice(), name.len() - p.len(), p)
        },
    }
}

/// Returns true if the filename at `path` has the extension `extension`.
pub fn has_extension(path: &[u8], extension: &str) -> (res: bool)
    ensures
        res == match spec_extension(path@) {
            Some(ext) => ext == encode_utf8(extension@),
            None => false,
        },
{
    match file_name(path) {
        None => false,
        Some(name) => {
            match extension_of_name(name.as_slice()) {
                None => false,
                Some((b, e)) => {
                    let x = extension.as_bytes();
                    if x.len() != e - b {
                        return false;
                    }
                    bytes_match_at(name.as_slice(), b, x)
                },
            }
        },
    }
}

/// Returns true if the filename at `path` does not contain `expected`.
pub fn not_contains(path: &[u8], expected: &str) -> (res: bool)
    requires
        file_name_is_text(path@),
    ensures
        res == !match spec_file_name(path@) {
            Some(name) => seq_contains(name, encode_utf8(expected@)),
            None => false,
        },
{
    match file_name(path) {
        None => true,
        Some(name) => !bytes_contain(name.as_slice(), expected.as_bytes()),
    }
}

/// Returns true if the filename at `path` is not in `expected`.
pub fn filename_not_in_denylist(path: &[u8], expected: &[String]) -> (res: bool)
    requires
        file_name_is_text(path@),
    ensures
        res == match spec_file_name(path@) {
            Some(name) => forall|i: int|
                0 <= i < expected@.len() ==> #[trigger] encode_utf8(expected@[i]@) != name,
            None => false,
        },
{
    match file_name(path) {
        None => false,
        Some(name) => {
            let mut i: usize = 0;
            while i < expected.len()
                invariant
                    i <= expected.len(),
                    spec_file_name(path@) == Some(name@),
                    forall|k: int| 0 <= k < i ==> #[trigger] encode_utf8(expected@[k]@) != name@,
                decreases expected.len() - i,
            {
                let x = expected[i].as_str().as_bytes();
                if x.len() == name.len() && bytes_match_at(name.as_slice(), 0, x) {
                    assert(name@.subrange(0, name@.len() as int) =~= name@);
                    return false;
                }
                proof {
                    if x@.len() == name@.len() {
                        assert(name@.subrange(0, name@.len() as int) =~= name@);
                    }
                }
                i += 1;
            }
            true
        },
    }
}

proof fn lemma_trailing_segment_shape<T>(s: Seq<T>, sep: T)
    ensures
        no_separator(trailing_segment(s, sep), sep),
        s.len() > 0 && s.last() != sep ==> trailing_segment(s, sep).len() > 0 && trailing_segment(
            s,
            sep,
        ).last() == s.last(),
        trailing_segment(s, sep).len() == 1 ==> s.len() == 1 || s[s.len() - 2] == sep,
        trailing_segment(s, sep).len() <= s.len(),
    decreases s.len(),
{
    if s.len() > 0 && s.last() != sep {
        let r = s.drop_last();
        lemma_trailing_segment_shape(r, sep);
        let t = trailing_segment(r, sep);
        assert forall|i: int| 0 <= i < t.push(s.last()).len() implies t.push(s.last())[i] != sep by {
            if i < t.len() {
                assert(t.push(s.last())[i] == t[i]);
            }
        }
        if t.len() == 0 && r.len() > 0 {
            assert(r.last() == sep);
        }
    }
}

proof fn lemma_last_component_shape<T>(s: Seq<T>, sep: T, dot: T)
    ensures
        last_component(s, sep, dot) matches Some(c) ==> c.len() > 0 && no_separator(c, sep) && c
            != seq![dot],
    decreases s.len(),
{
    if s.len() > 0 {
        if s.last() == sep || ends_in_cur_dir(s, sep, dot) {
            lemma_last_component_shape(s.drop_last(), sep, dot);
        } else {
            lemma_trailing_segment_shape(s, sep);
            let c = trailing_segment(s, sep);
            if c == seq![dot] {
                assert(c.last() == dot);
            }
        }
    }
}

proof fn lemma_last_dot_shape<T>(s: Seq<T>, dot: T)
    ensures
        match last_dot(s, dot) {
            Some(k) => 0 <= k < s.len() && s[k] == dot && forall|j: int| k < j < s.len() ==> s[j] != dot,
            None => forall|j: int| 0 <= j < s.len() ==> s[j] != dot,
        },
    decreases s.len(),
{
    if s.len() > 0 && s.last() != dot {
        lemma_last_dot_shape(s.drop_last(), dot);
        assert forall|j: int| 0 <= j < s.len() - 1 implies s[j] == s.drop_last()[j] by {}
    }
}

/// What a file name and an extension are, read off the path: the file name of
/// `p` is a non-empty component holding no `/`, neither `.` nor `..`; the
/// extension, where there is one, is what follows the last `.` of the file name,
/// holds no `.`, and has at least one byte before that `.`; and there is no
/// extension exactly where the file name holds no `.` after its first byte.
pub proof fn lemma_file_name_and_extension_shape(p: Seq<u8>)
    ensures
        match spec_file_name(p) {
            Some(n) => n.len() > 0 && no_separator(n, slash()) && n != seq![dot()] && n != seq![
                dot(),
                dot(),
            ],
            None => spec_extension(p) is None,
        },
        match spec_extension(p) {
            Some(e) => match spec_file_name(p) {
                Some(n) => n.len() >= e.len() + 2 && n.subrange(n.len() - e.len() - 1, n.len() as int)
                    == seq![dot()] + e && forall|i: int| 0 <= i < e.len() ==> e[i] != dot(),
                None => false,
            },
            None => match spec_file_name(p) {
                Some(n) => forall|i: int| 0 < i < n.len() ==> n[i] != dot(),
                None => true,
            },
        },
{
    lemma_last_component_shape(p, slash(), dot());
    if let Some(n) = spec_file_name(p) {
        lemma_last_dot_shape(n, dot());
        match last_dot(n, dot()) {
            Some(k) => {
                if 0 < k {
                    let e = n.subrange(k + 1, n.len() as int);
                    assert(n.subrange(k, n.len() as int) =~= seq![dot()] + e);
                    assert forall|i: int| 0 <= i < e.len() implies e[i] != dot() by {
                        assert(e[i] == n[k + 1 + i]);
                    }
                } else {
                    assert forall|i: int| 0 < i < n.len() implies n[i] != dot() by {}
                }
            },
            None => {},
        }
    }
}

/// Joining a path: an absolute `p` is the result itself; a relative `p` is put
/// after `base`, with exactly one `/` between them where `base` is not empty
/// and does not already end in one, and none otherwise.
pub proof fn lemma_path_join_parts(base: Seq<u8>, p: Seq<u8>)
    ensures
        p.len() > 0 && p[0] == slash() ==> path_join(base, p) == p,
        !(p.len() > 0 && p[0] == slash()) ==> {
            let j = path_join(base, p);
            let gap: int = if base.len() > 0 && base.last() != slash() {
                1
            } else {
                0
            };
            &&& j.len() == base.len() + gap + p.len()
            &&& j.subrange(0, base.len() as int) == base
            &&& j.subrange(base.len() + gap, j.len() as int) == p
            &&& gap == 1 ==> j[base.len() as int] == slash()
        },
{
    let j = path_join(base, p);
    if !(p.len() > 0 && p[0] == slash()) {
        if base.len() > 0 && base.last() != slash() {
            assert(j == base + seq![slash()] + p);
            assert(j.subrange(0, base.len() as int) =~= base);
            assert(j.subrange(base.len() as int + 1, j.len() as int) =~= p);
        } else {
            assert(j == base + p);
            assert(j.subrange(0, base.len() as int) =~= base);
            assert(j.subrange(base.len() as int, j.len() as int) =~= p);
        }
    }
}

/// Whether `s` holds no separator.
pub open spec fn no_separator<T>(s: Seq<T>, sep: T) -> bool {
    forall|i: int| 0 <= i < s.len() ==> s[i] != sep
}

/// A single path component `a.e`, with `a` and `e` not empty, neither holding a
/// separator and `e` holding no dot, is its own file name, and its extension is
/// `e`.
pub proof fn lemma_name_with_extension<T>(a: Seq<T>, e: Seq<T>, sep: T, dot: T)
    requires
        sep != dot,
        a.len() > 0,
        e.len() > 0,
        no_separator(a, sep),
        no_separator(e, sep),
        forall|i: int| 0 <= i < e.len() ==> e[i] != dot,
    ensures
        file_name_by(a + seq![dot] + e, sep, dot) == Some(a + seq![dot] + e),
        extension_by(a + seq![dot] + e, sep, dot) == Some(e),
{
    let s = a + seq![dot] + e;
    assert forall|k: int| 0 <= k < s.len() implies s[k] != sep by {
        if k < a.len() {
            assert(s[k] == a[k]);
        } else if k > a.len() {
            assert(s[k] == e[k - a.len() - 1]);
        }
    }
    lemma_trailing_segment(s, sep, 0);
    assert(s.subrange(0, s.len() as int) =~= s);
    assert(s.last() == e.last());
    assert(!ends_in_cur_dir(s, sep, dot));
    assert(last_component(s, sep, dot) == Some(s));
    assert(s.len() >= 3);
    let k = a.len() as int;
    assert forall|j: int| k < j < s.len() implies s[j] != dot by {
        assert(s[j] == e[j - k - 1]);
    }
    lemma_last_dot(s, dot, k);
    assert(s.subrange(k + 1, s.len() as int) =~= e);
}

/// A relative path with a file name keeps that file name when joined onto any
/// directory.
pub proof fn lemma_join_keeps_file_name<T>(base: Seq<T>, p: Seq<T>, sep: T, dot: T)
    requires
        file_name_by(p, sep, dot) is Some,
    ensures
        file_name_by(join_by(base, p, sep), sep, dot) == file_name_by(p, sep, dot),
{
    if p.len() > 0 && p[0] == sep {
    } else if base.len() == 0 || base.last() == sep {
        lemma_last_component_append(base, p, sep, dot);
    } else {
        lemma_last_component_append(base + seq![sep], p, sep, dot);
    }
}

/// The last normal component of `x + p` is that of `p`, where `p` has one and
/// `x` is empty or ends in a separator.
proof fn lemma_last_component_append<T>(x: Seq<T>, p: Seq<T>, sep: T, dot: T)
    requires
        x.len() == 0 || x.last() == sep,
        last_component(p, sep, dot) is Some,
    ensures
        last_component(x + p, sep, dot) == last_component(p, sep, dot),
    decreases p.len(),
{
    let s = x + p;
    assert(p.len() > 0);
    assert(s.last() == p.last());
    assert(s.drop_last() =~= x + p.drop_last());
    if p.last() == sep {
        lemma_last_component_append(x, p.drop_last(), sep, dot);
    } else if ends_in_cur_dir(p, sep, dot) {
        lemma_last_component_append(x, p.drop_last(), sep, dot);
    } else {
        if p.len() >= 2 {
            assert(s[s.len() - 2] == p[p.len() - 2]);
        }
        assert(!ends_in_cur_dir(s, sep, dot));
        lemma_trailing_segment_append(x, p, sep);
    }
}

proof fn lemma_trailing_segment_append<T>(x: Seq<T>, p: Seq<T>, sep: T)
    requires
        x.len() == 0 || x.last() == sep,
    ensures
        trailing_segment(x + p, sep) == trailing_segment(p, sep),
    decreases p.len(),
{
    let s = x + p;
    if p.len() == 0 {
        assert(s =~= x);
    } else {
        assert(s.drop_last() =~= x + p.drop_last());
        assert(s.last() == p.last());
        if p.last() != sep {
            lemma_trailing_segment_append(x, p.drop_last(), sep);
        }
    }
}

} // verus!
