//! Search-path lists as a Unix host reads and writes them: the bytes of the
//! entries separated by the byte of `:`, with no quoting.

use vstd::prelude::*;

use crate::paths::{append_bytes, bytes_range, copy_bytes};
use crate::text::{
    byte_views, first_index_of, lemma_first_index_of, lemma_first_index_of_none, lemma_first_index_of_some,
};

verus! {

/// The separator of search-path entries: the byte of `:`.
pub open spec fn colon() -> u8 {
    0x3a
}

/// The entries of the search-path list `s` (`std::env::split_paths` with `:` as
/// the separator): the pieces between separators, empty ones included.
pub open spec fn split_search_path(s: Seq<u8>) -> Seq<Seq<u8>>
    decreases s.len(),
{
    match first_index_of(s, colon()) {
        Some(k) => if 0 <= k < s.len() {
            seq![s.subrange(0, k)] + split_search_path(s.subrange(k + 1, s.len() as int))
        } else {
            seq![s]
        },
        None => seq![s],
    }
}

/// `paths` put together with a `:` between each two.
pub open spec fn joined(paths: Seq<Seq<u8>>) -> Seq<u8>
    decreases paths.len(),
{
    if paths.len() == 0 {
        Seq::empty()
    } else if paths.len() == 1 {
        paths[0]
    } else {
        joined(paths.drop_last()) + seq![colon()] + paths.last()
    }
}

/// Whether `p` holds the separator `:`.
pub open spec fn has_separator(p: Seq<u8>) -> bool {
    exists|i: int| 0 <= i < p.len() && p[i] == colon()
}

/// The search-path list made of `paths` (`std::env::join_paths` with `:` as the
/// separator): refused when an entry holds the separator.
pub open spec fn join_search_path(paths: Seq<Seq<u8>>) -> Option<Seq<u8>> {
    if exists|i: int| 0 <= i < paths.len() && #[trigger] has_separator(paths[i]) {
        None
    } else {
        Some(joined(paths))
    }
}

/// The search-path value that puts `cwd` and `host_rpath_dir` in front of the
/// entries of `current`.
pub open spec fn host_rpath_value(cwd: Seq<u8>, host_rpath_dir: Seq<u8>, current: Seq<u8>) -> Option<Seq<u8>> {
    join_search_path(seq![cwd, host_rpath_dir] + split_search_path(current))
}

proof fn lemma_joined_push(paths: Seq<Seq<u8>>, p: Seq<u8>)
    requires
        paths.len() > 0,
    ensures
        joined(paths.push(p)) == joined(paths) + seq![colon()] + p,
{
    assert(paths.push(p).drop_last() =~= paths);
}

/// How entries are joined: no entries give nothing, one entry gives itself, and
/// an entry put in front of others comes first, then the separator, then the
/// others joined.
pub proof fn lemma_joined_prepend(p: Seq<u8>, paths: Seq<Seq<u8>>)
    ensures
        joined(Seq::empty()) == Seq::<u8>::empty(),
        joined(seq![p]) == p,
        paths.len() > 0 ==> joined(seq![p] + paths) == p + seq![colon()] + joined(paths),
    decreases paths.len(),
{
    let all = seq![p] + paths;
    if paths.len() == 0 {
    } else if paths.len() == 1 {
        assert(all.len() >= 2);
        assert(all.last() == paths.last());
        assert(all.drop_last() =~= seq![p]);
        assert(joined(all) == joined(all.drop_last()) + seq![colon()] + all.last());
    } else {
        assert(all.last() == paths.last());
        lemma_joined_prepend(p, paths.drop_last());
        assert((seq![p] + paths).drop_last() =~= seq![p] + paths.drop_last());
        assert(p + seq![colon()] + joined(paths.drop_last()) + seq![colon()] + paths.last() =~= p + seq![colon()]
            + (joined(paths.drop_last()) + seq![colon()] + paths.last()));
    }
}

/// Joining the entries of a search-path list gives back that list: no entry holds
/// the separator, and the separators come back where they were.
pub proof fn lemma_join_split(s: Seq<u8>)
    ensures
        join_search_path(split_search_path(s)) == Some(s),
        joined(split_search_path(s)) == s,
        split_search_path(s).len() > 0,
        forall|i: int|
            0 <= i < split_search_path(s).len() ==> !#[trigger] has_separator(split_search_path(s)[i]),
    decreases s.len(),
{
    match first_index_of(s, colon()) {
        Some(k) => {
            lemma_first_index_of_some(s, colon());
            let head = s.subrange(0, k);
            let tail = s.subrange(k + 1, s.len() as int);
            lemma_join_split(tail);
            lemma_joined_prepend(head, split_search_path(tail));
            assert(head + seq![colon()] + tail =~= s);
            assert forall|i: int|
                0 <= i < split_search_path(s).len() implies !#[trigger] has_separator(
                split_search_path(s)[i],
            ) by {
                if i > 0 {
                    assert(split_search_path(s)[i] == split_search_path(tail)[i - 1]);
                } else {
                    assert(split_search_path(s)[0] == head);
                }
            }
        },
        None => {
            lemma_first_index_of_none(s, colon());
        },
    }
}

/// The entries of the search-path list `s`.
pub fn split_paths(s: &[u8]) -> (res: Vec<Vec<u8>>)
    ensures
        byte_views(res@) == split_search_path(s@),
{
    let n = s.len();
    let mut res: Vec<Vec<u8>> = Vec::new();
    let mut start: usize = 0;
    assert(s@.subrange(0, n as int) =~= s@);
    assert(byte_views(res@) + split_search_path(s@) =~= split_search_path(s@));
    loop
        invariant
            n == s.len(),
            start <= n,
            split_search_path(s@) == byte_views(res@) + split_search_path(
                s@.subrange(start as int, n as int),
            ),
        decreases n - start,
    {
        let ghost rest = s@.subrange(start as int, n as int);
        let mut k: usize = start;
        while k < n && s[k] != 0x3a
            invariant
                n == s.len(),
                start <= k <= n,
                rest == s@.subrange(start as int, n as int),
                forall|j: int| start <= j < k ==> s@[j] != colon(),
            decreases n - k,
        {
            k += 1;
        }
        proof {
            lemma_first_index_of(rest, colon(), k - start);
        }
        let piece = bytes_range(s, start, k);
        proof {
            assert(piece@ =~= rest.subrange(0, k - start));
            assert(byte_views(res@.push(piece)) =~= byte_views(res@).push(piece@));
        }
        res.push(piece);
        if k == n {
            proof {
                assert(rest.subrange(0, k - start) =~= rest);
                assert(byte_views(res@) =~= byte_views(res@).drop_last() + seq![rest]);
            }
            return res;
        }
        proof {
            assert(rest.subrange(k - start + 1, rest.len() as int) =~= s@.subrange(k + 1, n as int));
            assert(byte_views(res@).drop_last() + (seq![piece@] + split_search_path(
                s@.subrange(k + 1, n as int),
            )) =~= byte_views(res@) + split_search_path(s@.subrange(k + 1, n as int)));
        }
        start = k + 1;
    }
}

/// Whether some byte of `p` is the separator `:`.
fn holds_separator(p: &[u8]) -> (res: bool)
    ensures
        res == has_separator(p@),
{
    let v = p;
    let mut i: usize = 0;
    while i < v.len()
        invariant
            v@ == p@,
            i <= v.len(),
            forall|k: int| 0 <= k < i ==> v@[k] != colon(),
        decreases v.len() - i,
    {
        if v[i] == 0x3a {
            return true;
        }
        i += 1;
    }
    false
}

/// The search-path list made of `paths`, or `None` when one of them holds the
/// separator.
pub fn join_paths(paths: &Vec<Vec<u8>>) -> (res: Option<Vec<u8>>)
    ensures
        match res {
            Some(s) => join_search_path(byte_views(paths@)) == Some(s@),
            None => join_search_path(byte_views(paths@)) is None,
        },
{
    let ghost ps = byte_views(paths@);
    let mut joined_so_far: Vec<u8> = Vec::new();
    let mut i: usize = 0;
    while i < paths.len()
        invariant
            ps == byte_views(paths@),
            ps.len() == paths.len(),
            i <= paths.len(),
            forall|k: int| 0 <= k < i ==> !#[trigger] has_separator(ps[k]),
            joined_so_far@ == joined(ps.subrange(0, i as int)),
        decreases paths.len() - i,
    {
        if holds_separator(paths[i].as_slice()) {
            assert(has_separator(ps[i as int]));
            return None;
        }
        proof {
            assert(ps.subrange(0, i + 1).drop_last() =~= ps.subrange(0, i as int));
            if i > 0 {
                lemma_joined_push(ps.subrange(0, i as int), ps[i as int]);
                assert(ps.subrange(0, i as int).push(ps[i as int]) =~= ps.subrange(0, i + 1));
            } else {
                assert(ps.subrange(0, 1) =~= seq![ps[0]]);
            }
        }
        if i > 0 {
            joined_so_far.push(0x3a);
        }
        append_bytes(&mut joined_so_far, paths[i].as_slice());
        assert(joined_so_far@ =~= joined(ps.subrange(0, i + 1)));
        i += 1;
    }
    assert(ps.subrange(0, i as int) =~= ps);
    Some(joined_so_far)
}

/// The search-path value that puts `cwd` and `host_rpath_dir` in front of the
/// entries of `current`; `None` when `cwd` or `host_rpath_dir` holds the separator.
/// It is `cwd:host_rpath_dir:current` whenever it exists.
pub fn host_rpath(cwd: &[u8], host_rpath_dir: &[u8], current: &[u8]) -> (res: Option<Vec<u8>>)
    ensures
        match res {
            Some(s) => host_rpath_value(cwd@, host_rpath_dir@, current@) == Some(s@),
            None => host_rpath_value(cwd@, host_rpath_dir@, current@) is None,
        },
        res is Some <==> !has_separator(cwd@) && !has_separator(host_rpath_dir@),
        res matches Some(s) ==> s@ == cwd@ + seq![colon()] + host_rpath_dir@ + seq![colon()] + current@,
{
    let mut paths: Vec<Vec<u8>> = Vec::new();
    let own_cwd = bytes_range(cwd, 0, cwd.len());
    let own_dir = bytes_range(host_rpath_dir, 0, host_rpath_dir.len());
    assert(own_cwd@ =~= cwd@ && own_dir@ =~= host_rpath_dir@);
    paths.push(own_cwd);
    paths.push(own_dir);
    let rest = split_paths(current);
    let mut i: usize = 0;
    while i < rest.len()
        invariant
            i <= rest.len(),
            byte_views(paths@) == seq![cwd@, host_rpath_dir@] + byte_views(rest@).subrange(0, i as int),
        decreases rest.len() - i,
    {
        assert(byte_views(paths@.push(rest[i as int])) =~= byte_views(paths@).push(rest@[i as int]@));
        paths.push(copy_bytes(&rest[i]));
        assert(byte_views(rest@).subrange(0, i + 1) =~= byte_views(rest@).subrange(0, i as int).push(
            rest@[i as int]@,
        ));
        i += 1;
    }
    proof {
        assert(byte_views(rest@).subrange(0, i as int) =~= byte_views(rest@));
        let ps = seq![cwd@, host_rpath_dir@] + split_search_path(current@);
        assert(byte_views(paths@) == ps);
        lemma_join_split(current@);
        let tail = split_search_path(current@);
        lemma_joined_prepend(host_rpath_dir@, tail);
        assert(seq![host_rpath_dir@] + tail =~= ps.drop_first());
        lemma_joined_prepend(cwd@, seq![host_rpath_dir@] + tail);
        assert(seq![cwd@] + (seq![host_rpath_dir@] + tail) =~= ps);
        if has_separator(cwd@) {
            assert(has_separator(ps[0]));
        }
        if has_separator(host_rpath_dir@) {
            assert(has_separator(ps[1]));
        }
        if !has_separator(cwd@) && !has_separator(host_rpath_dir@) {
            assert forall|k: int| 0 <= k < ps.len() implies !#[trigger] has_separator(ps[k]) by {
                if k >= 2 {
                    assert(ps[k] == tail[k - 2]);
                }
            }
        }
        assert(cwd@ + seq![colon()] + (host_rpath_dir@ + seq![colon()] + current@) =~= cwd@ + seq![colon()]
            + host_rpath_dir@ + seq![colon()] + current@);
    }
    join_paths(&paths)
}

} // verus!
