use vstd::prelude::*;
use vstd::utf8::{decode_utf8, encode_utf8, valid_utf8};

use crate::paths::{has_extension, spec_extension};
use crate::text::{byte_views, chars_contain, chars_of, seq_contains};

verus! {

/// A directory entry as listed by a non-recursive read of a directory.
#[derive(Debug)]
pub struct DirEntryInfo {
    /// The entry's path, as bytes.
    pub path: Vec<u8>,
    /// Whether the entry is a regular file.
    pub is_file: bool,
}

/// The paths of the entries `entries[i]` that are files and for which `picks[i]` holds,
/// in the order of `entries`.
pub open spec fn selected_files(entries: Seq<DirEntryInfo>, picks: Seq<bool>) -> Seq<Seq<u8>>
    decreases entries.len(),
{
    if entries.len() == 0 {
        Seq::empty()
    } else {
        let rest = selected_files(entries.drop_last(), picks);
        if entries.last().is_file && picks[entries.len() - 1] {
            rest.push(entries.last().path@)
        } else {
            rest
        }
    }
}

/// Of the directory listing `entries`, the paths of the files that `filter` accepts,
/// in listing order. Where `filter` answers the same for the same path (as a plain
/// function does), `picks[i]` below is its answer for `entries[i]`.
pub fn shallow_find_files<F: Fn(&Vec<u8>) -> bool>(entries: &Vec<DirEntryInfo>, filter: F) -> (res:
    Vec<Vec<u8>>)
    requires
        forall|i: int|
            0 <= i < entries.len() && #[trigger] entries@[i].is_file ==> call_requires(
                filter,
                (&entries@[i].path,),
            ),
    ensures
        exists|picks: Seq<bool>|
            {
                &&& picks.len() == entries.len()
                &&& forall|i: int|
                    0 <= i < entries.len() && #[trigger] entries@[i].is_file ==> call_ensures(
                        filter,
                        (&entries@[i].path,),
                        picks[i],
                    )
                &&& byte_views(res@) == selected_files(entries@, picks)
            },
{
    let mut res: Vec<Vec<u8>> = Vec::new();
    let ghost mut picks: Seq<bool> = Seq::empty();
    let mut i: usize = 0;
    while i < entries.len()
        invariant
            i <= entries.len(),
            picks.len() == i,
            forall|k: int|
                0 <= k < entries.len() && #[trigger] entries@[k].is_file ==> call_requires(
                    filter,
                    (&entries@[k].path,),
                ),
            forall|k: int|
                0 <= k < i && #[trigger] entries@[k].is_file ==> call_ensures(
                    filter,
                    (&entries@[k].path,),
                    picks[k],
                ),
            byte_views(res@) == selected_files(entries@.subrange(0, i as int), picks),
        decreases entries.len() - i,
    {
        let entry = &entries[i];
        let mut keep = false;
        if entry.is_file {
            keep = filter(&entry.path);
        }
        proof {
            let sub = entries@.subrange(0, i + 1);
            assert(sub.drop_last() =~= entries@.subrange(0, i as int));
            lemma_selected_files_prefix(entries@.subrange(0, i as int), picks, picks.push(keep));
            picks = picks.push(keep);
        }
        if keep {
            res.push(entry.path.clone());
        }
        assert(byte_views(res@) =~= selected_files(entries@.subrange(0, i + 1), picks));
        i += 1;
    }
    assert(entries@.subrange(0, i as int) =~= entries@);
    res
}

/// Whether `a` is a subsequence of `b`: `b` with some elements left out.
pub open spec fn is_subsequence<T>(a: Seq<T>, b: Seq<T>) -> bool
    decreases b.len(),
{
    if a.len() == 0 {
        true
    } else if b.len() == 0 {
        false
    } else if a.last() == b.last() {
        is_subsequence(a.drop_last(), b.drop_last())
    } else {
        is_subsequence(a, b.drop_last())
    }
}

proof fn lemma_subsequence_push<T>(a: Seq<T>, b: Seq<T>, x: T)
    requires
        is_subsequence(a, b),
    ensures
        is_subsequence(a, b.push(x)),
    decreases b.len(), 1int,
{
    assert(b.push(x).drop_last() =~= b);
    if a.len() > 0 && a.last() == x {
        lemma_subsequence_drop_last(a, b);
    }
}

proof fn lemma_subsequence_drop_last<T>(a: Seq<T>, b: Seq<T>)
    requires
        a.len() > 0,
        is_subsequence(a, b),
    ensures
        is_subsequence(a.drop_last(), b),
    decreases b.len(), 0int,
{
    if a.last() == b.last() {
        lemma_subsequence_push(a.drop_last(), b.drop_last(), b.last());
        assert(b.drop_last().push(b.last()) =~= b);
    } else {
        lemma_subsequence_drop_last(a, b.drop_last());
        lemma_subsequence_push(a.drop_last(), b.drop_last(), b.last());
        assert(b.drop_last().push(b.last()) =~= b);
    }
}

/// A filter that accepts no more files than another gives a subsequence of what
/// that other gives: where every file picked by `picks1` is picked by `picks2`,
/// the paths selected by `picks1` are a subsequence of those selected by `picks2`.
pub proof fn lemma_weaker_filter_subsequence(entries: Seq<DirEntryInfo>, picks1: Seq<bool>, picks2: Seq<bool>)
    requires
        picks1.len() >= entries.len(),
        picks2.len() >= entries.len(),
        forall|i: int| 0 <= i < entries.len() && #[trigger] entries[i].is_file && picks1[i] ==> picks2[i],
    ensures
        is_subsequence(selected_files(entries, picks1), selected_files(entries, picks2)),
    decreases entries.len(),
{
    if entries.len() > 0 {
        let rest = entries.drop_last();
        let last = entries.len() - 1;
        assert forall|i: int| 0 <= i < rest.len() && #[trigger] rest[i].is_file && picks1[i] implies picks2[i] by {
            assert(rest[i] == entries[i]);
        }
        lemma_weaker_filter_subsequence(rest, picks1, picks2);
        let a = selected_files(rest, picks1);
        let b = selected_files(rest, picks2);
        let x = entries.last().path@;
        assert(entries.last() == entries[last]);
        if entries.last().is_file && picks1[last] {
            assert(a.push(x).drop_last() =~= a);
            assert(b.push(x).drop_last() =~= b);
        } else if entries.last().is_file && picks2[last] {
            lemma_subsequence_push(a, b, x);
        }
    }
}

/// The paths of the files of `entries`, in listing order.
pub open spec fn file_paths(entries: Seq<DirEntryInfo>) -> Seq<Seq<u8>>
    decreases entries.len(),
{
    if entries.len() == 0 {
        Seq::empty()
    } else if entries.last().is_file {
        file_paths(entries.drop_last()).push(entries.last().path@)
    } else {
        file_paths(entries.drop_last())
    }
}

proof fn lemma_selected_prefix_is_filter(entries: Seq<DirEntryInfo>, picks: Seq<bool>, k: int)
    requires
        0 <= k <= entries.len(),
        picks.len() >= entries.len(),
    ensures
        selected_files(entries.subrange(0, k), picks) == Seq::new(k as nat, |i: int| i).filter(
            |i: int| entries[i].is_file && picks[i],
        ).map_values(|i: int| entries[i].path@),
    decreases k,
{
    let pred = |i: int| entries[i].is_file && picks[i];
    let path_of = |i: int| entries[i].path@;
    if k == 0 {
        reveal(Seq::filter);
        assert(Seq::new(0, |i: int| i).filter(pred).map_values(path_of) =~= Seq::<Seq<u8>>::empty());
        assert(entries.subrange(0, 0) =~= Seq::<DirEntryInfo>::empty());
    } else {
        lemma_selected_prefix_is_filter(entries, picks, k - 1);
        let idx = Seq::new((k - 1) as nat, |i: int| i);
        assert(Seq::new(k as nat, |i: int| i) =~= idx.push(k - 1));
        idx.lemma_filter_push(k - 1, pred);
        assert(entries.subrange(0, k).drop_last() =~= entries.subrange(0, k - 1));
        assert(entries.subrange(0, k).last() == entries[k - 1]);
        if pred(k - 1) {
            assert(idx.filter(pred).push(k - 1).map_values(path_of) =~= idx.filter(pred).map_values(
                path_of,
            ).push(entries[k - 1].path@));
        }
    }
}

/// What a filtered listing gives: the paths of the entries, taken in listing
/// order, that are files and were picked, and no others.
pub proof fn lemma_selected_files_is_filter(entries: Seq<DirEntryInfo>, picks: Seq<bool>)
    requires
        picks.len() >= entries.len(),
    ensures
        selected_files(entries, picks) == Seq::new(entries.len(), |i: int| i).filter(
            |i: int| entries[i].is_file && picks[i],
        ).map_values(|i: int| entries[i].path@),
{
    lemma_selected_prefix_is_filter(entries, picks, entries.len() as int);
    assert(entries.subrange(0, entries.len() as int) =~= entries);
}

/// The file paths of a listing are those of its entries that are files, in
/// listing order.
pub proof fn lemma_file_paths_is_filter(entries: Seq<DirEntryInfo>)
    ensures
        file_paths(entries) == entries.filter(|e: DirEntryInfo| e.is_file).map_values(
            |e: DirEntryInfo| e.path@,
        ),
    decreases entries.len(),
{
    let pred = |e: DirEntryInfo| e.is_file;
    if entries.len() == 0 {
        reveal(Seq::filter);
        assert(entries.filter(pred).map_values(|e: DirEntryInfo| e.path@) =~= Seq::<Seq<u8>>::empty());
    } else {
        let rest = entries.drop_last();
        let x = entries.last();
        lemma_file_paths_is_filter(rest);
        assert(rest.push(x) =~= entries);
        rest.lemma_filter_push(x, pred);
        if pred(x) {
            assert(rest.filter(pred).push(x).map_values(|e: DirEntryInfo| e.path@) =~= rest.filter(
                pred,
            ).map_values(|e: DirEntryInfo| e.path@).push(x.path@));
        }
    }
}

/// A filter that accepts every path gives every file of the listing, in order.
pub proof fn lemma_accept_all_lists_files(entries: Seq<DirEntryInfo>, picks: Seq<bool>)
    requires
        picks.len() >= entries.len(),
        forall|i: int| 0 <= i < entries.len() && #[trigger] entries[i].is_file ==> picks[i],
    ensures
        selected_files(entries, picks) == file_paths(entries),
    decreases entries.len(),
{
    if entries.len() > 0 {
        let rest = entries.drop_last();
        assert forall|i: int| 0 <= i < rest.len() && #[trigger] rest[i].is_file implies picks[i] by {
            assert(rest[i] == entries[i]);
        }
        lemma_accept_all_lists_files(rest, picks);
        assert(entries.last() == entries[entries.len() - 1]);
    }
}

/// Every path that a filtered listing gives back is the path of a file of the
/// listing that was picked.
pub proof fn lemma_selected_are_listed_files(entries: Seq<DirEntryInfo>, picks: Seq<bool>)
    requires
        picks.len() >= entries.len(),
    ensures
        forall|k: int|
            #![trigger selected_files(entries, picks)[k]]
            0 <= k < selected_files(entries, picks).len() ==> exists|i: int|
                #![trigger entries[i]]
                0 <= i < entries.len() && entries[i].is_file && picks[i] && entries[i].path@
                    == selected_files(entries, picks)[k],
    decreases entries.len(),
{
    if entries.len() > 0 {
        let rest = entries.drop_last();
        lemma_selected_are_listed_files(rest, picks);
        let sel = selected_files(entries, picks);
        let prev = selected_files(rest, picks);
        assert forall|k: int| #![trigger sel[k]] 0 <= k < sel.len() implies exists|i: int|
            #![trigger entries[i]]
            0 <= i < entries.len() && entries[i].is_file && picks[i] && entries[i].path@
                == sel[k] by {
            if k < prev.len() {
                let i = choose|i: int|
                    #![trigger rest[i]]
                    0 <= i < rest.len() && rest[i].is_file && picks[i] && rest[i].path@ == prev[k];
                assert(entries[i] == rest[i]);
                assert(sel[k] == prev[k]);
            } else {
                let i = entries.len() - 1;
                assert(entries[i] == entries.last());
            }
        }
    }
}

proof fn lemma_selected_files_prefix(entries: Seq<DirEntryInfo>, picks: Seq<bool>, longer: Seq<bool>)
    requires
        picks.len() >= entries.len(),
        longer.len() >= entries.len(),
        forall|k: int| 0 <= k < entries.len() ==> picks[k] == longer[k],
    ensures
        selected_files(entries, picks) == selected_files(entries, longer),
    decreases entries.len(),
{
    if entries.len() > 0 {
        lemma_selected_files_prefix(entries.drop_last(), picks, longer);
    }
}


/// Whether the path `p` has the extension `ext`.
pub open spec fn has_ext(p: Seq<u8>, ext: Seq<u8>) -> bool {
    match spec_extension(p) {
        Some(e) => e == ext,
        None => false,
    }
}

/// The paths of the files of `entries` with the extension `ext`, in listing order.
pub open spec fn files_with_ext(entries: Seq<DirEntryInfo>, ext: Seq<u8>) -> Seq<Seq<u8>>
    decreases entries.len(),
{
    if entries.len() == 0 {
        Seq::empty()
    } else {
        let rest = files_with_ext(entries.drop_last(), ext);
        if entries.last().is_file && has_ext(entries.last().path@, ext) {
            rest.push(entries.last().path@)
        } else {
            rest
        }
    }
}

proof fn lemma_selected_by_extension(entries: Seq<DirEntryInfo>, picks: Seq<bool>, ext: Seq<u8>)
    requires
        picks.len() >= entries.len(),
        forall|i: int|
            0 <= i < entries.len() && #[trigger] entries[i].is_file ==> picks[i] == has_ext(
                entries[i].path@,
                ext,
            ),
    ensures
        selected_files(entries, picks) == files_with_ext(entries, ext),
    decreases entries.len(),
{
    if entries.len() > 0 {
        let last = entries.len() - 1;
        assert(entries.drop_last().len() == last);
        assert forall|i: int|
            0 <= i < entries.drop_last().len() && #[trigger] entries.drop_last()[i].is_file implies picks[i]
                == has_ext(entries.drop_last()[i].path@, ext) by {
            assert(entries.drop_last()[i] == entries[i]);
        }
        lemma_selected_by_extension(entries.drop_last(), picks, ext);
        assert(entries.last() == entries[last]);
    }
}

/// Selecting by extension keeps exactly the files of the listing whose extension
/// is `ext` (equal to it, byte for byte), in listing order, and gives their paths.
pub proof fn lemma_files_with_ext_is_filter(entries: Seq<DirEntryInfo>, ext: Seq<u8>)
    ensures
        files_with_ext(entries, ext) == entries.filter(
            |e: DirEntryInfo| e.is_file && spec_extension(e.path@) == Some(ext),
        ).map_values(|e: DirEntryInfo| e.path@),
    decreases entries.len(),
{
    let pred = |e: DirEntryInfo| e.is_file && spec_extension(e.path@) == Some(ext);
    if entries.len() == 0 {
        reveal(Seq::filter);
        assert(entries.filter(pred).map_values(|e: DirEntryInfo| e.path@) =~= Seq::<Seq<u8>>::empty());
    } else {
        let rest = entries.drop_last();
        let x = entries.last();
        lemma_files_with_ext_is_filter(rest, ext);
        assert(rest.push(x) =~= entries);
        rest.lemma_filter_push(x, pred);
        if pred(x) {
            assert(rest.filter(pred).push(x).map_values(|e: DirEntryInfo| e.path@) =~= rest.filter(
                pred,
            ).map_values(|e: DirEntryInfo| e.path@).push(x.path@));
        }
    }
}

/// Of the directory listing `entries`, the paths of the files with the extension
/// `ext`, in listing order.
pub fn files_with_extension(entries: &Vec<DirEntryInfo>, ext: &str) -> (res: Vec<Vec<u8>>)
    ensures
        byte_views(res@) == files_with_ext(entries@, encode_utf8(ext@)),
        byte_views(res@) == entries@.filter(
            |e: DirEntryInfo| e.is_file && spec_extension(e.path@) == Some(encode_utf8(ext@)),
        ).map_values(|e: DirEntryInfo| e.path@),
{
    proof {
        lemma_files_with_ext_is_filter(entries@, encode_utf8(ext@));
    }
    let filter = |p: &Vec<u8>| -> (b: bool)
        ensures
            b == has_ext(p@, encode_utf8(ext@)),
        { has_extension(p.as_slice(), ext) };
    let res = shallow_find_files(entries, filter);
    proof {
        let picks = choose|picks: Seq<bool>|
            {
                &&& picks.len() == entries.len()
                &&& forall|i: int|
                    0 <= i < entries.len() && #[trigger] entries@[i].is_file ==> call_ensures(
                        filter,
                        (&entries@[i].path,),
                        picks[i],
                    )
                &&& byte_views(res@) == selected_files(entries@, picks)
            };
        lemma_selected_by_extension(entries@, picks, encode_utf8(ext@));
    }
    res
}

/// The text that `bytes` decode to, with each invalid UTF-8 sequence replaced by
/// U+FFFD (`String::from_utf8_lossy`).
pub uninterp spec fn utf8_lossy(bytes: Seq<u8>) -> Seq<char>;

/// Decodes `bytes` with `String::from_utf8_lossy`: the result is `utf8_lossy` of
/// them, which is their plain decoding where they are valid UTF-8.
#[verifier::external_body]
fn decode_lossy(bytes: &[u8]) -> (res: String)
    ensures
        res@ == utf8_lossy(bytes@),
        valid_utf8(bytes@) ==> res@ == decode_utf8(bytes@),
{
    String::from_utf8_lossy(bytes).into_owned()
}

/// Whether the contents `buffer` of a file that may hold invalid UTF-8, decoded
/// lossily, contain `expected`.
pub fn lossy_contains(buffer: &[u8], expected: &str) -> (res: bool)
    ensures
        res == seq_contains(utf8_lossy(buffer@), expected@),
        valid_utf8(buffer@) ==> res == seq_contains(decode_utf8(buffer@), expected@),
{
    let text = decode_lossy(buffer);
    let h = chars_of(text.as_str());
    let n = chars_of(expected);
    chars_contain(&h, &n)
}

} // verus!
