use vstd::prelude::*;

use crate::text::{lines, split_lines, views};

verus! {

#[verifier::external_type_specification]
#[verifier::external_body]
pub struct ExRegex(regex::Regex);

/// Whether the compiled regular expression `re` matches somewhere in `haystack`
/// (`regex::Regex::is_match`).
pub uninterp spec fn regex_is_match(re: regex::Regex, haystack: Seq<char>) -> bool;

/// Runs `regex::Regex::is_match`: whether `re` matches somewhere in `haystack`,
/// which depends on the regex and the haystack alone.
#[verifier::external_body]
fn is_match(re: &regex::Regex, haystack: &str) -> (res: bool)
    ensures
        res == regex_is_match(*re, haystack@),
{
    re.is_match(haystack)
}

/// How many of `lines` the regular expression `re` matches.
pub open spec fn matching_lines(re: regex::Regex, lines: Seq<Seq<char>>) -> nat
    decreases lines.len(),
{
    if lines.len() == 0 {
        0
    } else {
        matching_lines(re, lines.drop_last()) + if regex_is_match(re, lines.last()) {
            1nat
        } else {
            0nat
        }
    }
}

/// How many lines of all of `texts` the regular expression `re` matches.
pub open spec fn matching_lines_in(re: regex::Regex, texts: Seq<Seq<char>>) -> nat
    decreases texts.len(),
{
    if texts.len() == 0 {
        0
    } else {
        matching_lines_in(re, texts.drop_last()) + matching_lines(
            re,
            split_lines(texts.last()),
        )
    }
}

/// A line is counted exactly when the regex matches it as it stands: the count
/// over `lines` is the number of them on which `regex_is_match` holds.
pub proof fn lemma_matching_lines_counts_matches(re: regex::Regex, lines: Seq<Seq<char>>)
    ensures
        matching_lines(re, lines) == lines.filter(|l: Seq<char>| regex_is_match(re, l)).len(),
    decreases lines.len(),
{
    let pred = |l: Seq<char>| regex_is_match(re, l);
    if lines.len() == 0 {
        reveal(Seq::filter);
    } else {
        let rest = lines.drop_last();
        lemma_matching_lines_counts_matches(re, rest);
        assert(rest.push(lines.last()) =~= lines);
        rest.lemma_filter_len_push(pred, lines.last());
    }
}

/// The count over all of `texts` is the number of lines, over all of them taken
/// in turn, that the regex matches as they stand.
pub proof fn lemma_matching_lines_in_counts_matches(re: regex::Regex, texts: Seq<Seq<char>>)
    ensures
        matching_lines_in(re, texts) == texts.map_values(|t: Seq<char>| split_lines(t)).flatten().filter(
            |l: Seq<char>| regex_is_match(re, l),
        ).len(),
    decreases texts.len(),
{
    let pred = |l: Seq<char>| regex_is_match(re, l);
    let f = |t: Seq<char>| split_lines(t);
    if texts.len() == 0 {
        assert(texts.map_values(f) =~= Seq::<Seq<Seq<char>>>::empty());
        reveal(Seq::filter);
    } else {
        let rest = texts.drop_last();
        let last = texts.last();
        lemma_matching_lines_in_counts_matches(re, rest);
        lemma_matching_lines_counts_matches(re, split_lines(last));
        assert(texts.map_values(f) =~= rest.map_values(f).push(split_lines(last)));
        rest.map_values(f).lemma_flatten_push(split_lines(last));
        Seq::filter_distributes_over_add(rest.map_values(f).flatten(), split_lines(last), pred);
    }
}

/// How many lines all of `texts` have.
pub open spec fn line_count(texts: Seq<Seq<char>>) -> nat
    decreases texts.len(),
{
    if texts.len() == 0 {
        0
    } else {
        line_count(texts.drop_last()) + split_lines(texts.last()).len()
    }
}

proof fn lemma_matching_lines_bound(re: regex::Regex, lines: Seq<Seq<char>>)
    ensures
        matching_lines(re, lines) <= lines.len(),
    decreases lines.len(),
{
    if lines.len() > 0 {
        lemma_matching_lines_bound(re, lines.drop_last());
    }
}

/// No more lines are counted as matching than there are lines.
pub proof fn lemma_matching_lines_in_bound(re: regex::Regex, texts: Seq<Seq<char>>)
    ensures
        matching_lines_in(re, texts) <= line_count(texts),
    decreases texts.len(),
{
    if texts.len() > 0 {
        lemma_matching_lines_in_bound(re, texts.drop_last());
        lemma_matching_lines_bound(re, split_lines(texts.last()));
    }
}

proof fn lemma_line_count_prefix(texts: Seq<Seq<char>>, i: int)
    requires
        0 <= i <= texts.len(),
    ensures
        line_count(texts.subrange(0, i)) <= line_count(texts),
    decreases texts.len() - i,
{
    if i < texts.len() {
        lemma_line_count_prefix(texts, i + 1);
        assert(texts.subrange(0, i + 1).drop_last() =~= texts.subrange(0, i));
    } else {
        assert(texts.subrange(0, i) =~= texts);
    }
}

/// Counts the lines, over all of `contents`, that `re` matches (each line as `str::lines` gives it).
pub fn count_regex_matches(re: &regex::Regex, contents: &Vec<String>) -> (res: usize)
    requires
        line_count(views(contents@)) <= usize::MAX,
    ensures
        res == matching_lines_in(*re, views(contents@)),
        res == views(contents@).map_values(|t: Seq<char>| split_lines(t)).flatten().filter(
            |l: Seq<char>| regex_is_match(*re, l),
        ).len(),
{
    proof {
        lemma_matching_lines_in_counts_matches(*re, views(contents@));
    }
    let ghost texts = views(contents@);
    let mut count: usize = 0;
    let mut i: usize = 0;
    assert(texts.subrange(0, 0) =~= Seq::<Seq<char>>::empty());
    while i < contents.len()
        invariant
            texts == views(contents@),
            texts.len() == contents.len(),
            line_count(texts) <= usize::MAX,
            i <= contents.len(),
            count == matching_lines_in(*re, texts.subrange(0, i as int)),
        decreases contents.len() - i,
    {
        let ls = lines(contents[i].as_str());
        proof {
            assert(texts.subrange(0, i + 1).drop_last() =~= texts.subrange(0, i as int));
            assert(texts.subrange(0, i + 1).last() == contents@[i as int]@);
            lemma_matching_lines_in_bound(*re, texts.subrange(0, i + 1));
            lemma_line_count_prefix(texts, i + 1);
        }
        let mut j: usize = 0;
        let ghost before = count;
        assert(views(ls@).subrange(0, 0) =~= Seq::<Seq<char>>::empty());
        while j < ls.len()
            invariant
                j <= ls.len(),
                views(ls@) == split_lines(contents@[i as int]@),
                count == before + matching_lines(*re, views(ls@).subrange(0, j as int)),
                before + matching_lines(*re, views(ls@)) <= usize::MAX,
            decreases ls.len() - j,
        {
            proof {
                assert(views(ls@).subrange(0, j + 1).drop_last() =~= views(ls@).subrange(0, j as int));
                lemma_matching_lines_prefix(*re, views(ls@), j + 1);
            }
            if is_match(re, ls[j].as_str()) {
                count = count + 1;
            }
            j += 1;
        }
        assert(views(ls@).subrange(0, j as int) =~= views(ls@));
        i += 1;
    }
    assert(texts.subrange(0, i as int) =~= texts);
    count
}

proof fn lemma_matching_lines_prefix(re: regex::Regex, lines: Seq<Seq<char>>, j: int)
    requires
        0 <= j <= lines.len(),
    ensures
        matching_lines(re, lines.subrange(0, j)) <= matching_lines(re, lines),
    decreases lines.len() - j,
{
    if j < lines.len() {
        lemma_matching_lines_prefix(re, lines, j + 1);
        assert(lines.subrange(0, j + 1).drop_last() =~= lines.subrange(0, j));
    } else {
        assert(lines.subrange(0, j) =~= lines);
    }
}

} // verus!
