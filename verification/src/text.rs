use vstd::prelude::*;

verus! {

/// Whether `c` has the Unicode `White_Space` property (the set that
/// `char::is_whitespace` tests).
pub open spec fn is_whitespace(c: char) -> bool {
    ||| ('\u{9}' <= c && c <= '\u{d}')
    ||| c == ' '
    ||| c == '\u{85}'
    ||| c == '\u{a0}'
    ||| c == '\u{1680}'
    ||| ('\u{2000}' <= c && c <= '\u{200a}')
    ||| c == '\u{2028}'
    ||| c == '\u{2029}'
    ||| c == '\u{202f}'
    ||| c == '\u{205f}'
    ||| c == '\u{3000}'
}

/// Whether some character of `s` is whitespace.
pub open spec fn has_whitespace(s: Seq<char>) -> bool {
    exists|i: int| 0 <= i < s.len() && #[trigger] is_whitespace(s[i])
}

/// Whether `needle` occurs in `haystack` starting at index `i`.
pub open spec fn occurs_at<T>(haystack: Seq<T>, needle: Seq<T>, i: int) -> bool {
    0 <= i && i + needle.len() <= haystack.len() && haystack.subrange(i, i + needle.len())
        == needle
}

/// Whether `needle` occurs anywhere in `haystack` (the empty needle occurs everywhere).
pub open spec fn seq_contains<T>(haystack: Seq<T>, needle: Seq<T>) -> bool {
    exists|i: int| #[trigger] occurs_at(haystack, needle, i)
}

pub fn is_whitespace_char(c: char) -> (res: bool)
    ensures
        res == is_whitespace(c),
{
    ('\u{9}' <= c && c <= '\u{d}') || c == ' ' || c == '\u{85}' || c == '\u{a0}' || c
        == '\u{1680}' || ('\u{2000}' <= c && c <= '\u{200a}') || c == '\u{2028}' || c
        == '\u{2029}' || c == '\u{202f}' || c == '\u{205f}' || c == '\u{3000}'
}

/// The characters of `s`, in order.
pub fn chars_of(s: &str) -> (v: Vec<char>)
    ensures
        v@ == s@,
{
    let mut v: Vec<char> = Vec::new();
    for c in it: s.chars()
        invariant
            v@ == it.seq().take(it.index()),
    {
        v.push(c);
    }
    v
}


/// `s` with its leading whitespace removed.
pub open spec fn trim_start(s: Seq<char>) -> Seq<char>
    decreases s.len(),
{
    if s.len() > 0 && is_whitespace(s[0]) {
        trim_start(s.drop_first())
    } else {
        s
    }
}

/// `s` with its trailing whitespace removed.
pub open spec fn trim_end(s: Seq<char>) -> Seq<char>
    decreases s.len(),
{
    if s.len() > 0 && is_whitespace(s.last()) {
        trim_end(s.drop_last())
    } else {
        s
    }
}

/// `s` with leading and trailing whitespace removed.
pub open spec fn trimmed(s: Seq<char>) -> Seq<char> {
    trim_end(trim_start(s))
}

/// Index of the first `c` in `s`, if there is one.
pub open spec fn first_index_of<T>(s: Seq<T>, c: T) -> Option<int>
    decreases s.len(),
{
    if s.len() == 0 {
        None
    } else if s[0] == c {
        Some(0)
    } else {
        match first_index_of(s.drop_first(), c) {
            Some(k) => Some(k + 1),
            None => None,
        }
    }
}

/// `line` without one trailing carriage return.
pub open spec fn strip_cr(line: Seq<char>) -> Seq<char> {
    if line.len() > 0 && line.last() == '\r' {
        line.drop_last()
    } else {
        line
    }
}

/// The lines of `s`: split after each `'\n'`, the terminator (and a `'\r'` just
/// before it) removed, no empty line after a final terminator.
pub open spec fn split_lines(s: Seq<char>) -> Seq<Seq<char>>
    decreases s.len(),
{
    if s.len() == 0 {
        Seq::empty()
    } else {
        match first_index_of(s, '\n') {
            None => seq![s],
            Some(k) => {
                if 0 <= k < s.len() {
                    seq![strip_cr(s.subrange(0, k))] + split_lines(s.subrange(k + 1, s.len() as int))
                } else {
                    seq![s]
                }
            },
        }
    }
}

/// Appends `c` to `s` (`String::push`).
#[verifier::external_body]
fn push_char(s: &mut String, c: char)
    ensures
        final(s)@ == old(s)@.push(c),
{
    s.push(c);
}

/// The string made of `chars[from..to]`.
pub fn string_from_chars(chars: &Vec<char>, from: usize, to: usize) -> (res: String)
    requires
        from <= to <= chars.len(),
    ensures
        res@ == chars@.subrange(from as int, to as int),
{
    let mut res = String::new();
    let mut i = from;
    while i < to
        invariant
            from <= i <= to <= chars.len(),
            res@ == chars@.subrange(from as int, i as int),
        decreases to - i,
    {
        push_char(&mut res, chars[i]);
        assert(chars@.subrange(from as int, i + 1) == chars@.subrange(from as int, i as int).push(
            chars@[i as int],
        ));
        i += 1;
    }
    res
}

/// Whether `needle` occurs in `haystack` at index `at`.
pub fn occurs_at_index(haystack: &Vec<char>, needle: &Vec<char>, at: usize) -> (res: bool)
    ensures
        res == occurs_at(haystack@, needle@, at as int),
{
    if needle.len() > haystack.len() || at > haystack.len() - needle.len() {
        return false;
    }
    let mut j: usize = 0;
    while j < needle.len()
        invariant
            j <= needle.len(),
            at + needle.len() <= haystack.len(),
            forall|k: int| 0 <= k < j ==> haystack@[at + k] == needle@[k],
        decreases needle.len() - j,
    {
        if haystack[at + j] != needle[j] {
            assert(haystack@.subrange(at as int, at + needle.len())[j as int] != needle@[j as int]);
            return false;
        }
        j += 1;
    }
    assert(haystack@.subrange(at as int, at + needle.len()) =~= needle@);
    true
}

/// Whether `needle` occurs anywhere in `haystack`.
pub fn chars_contain(haystack: &Vec<char>, needle: &Vec<char>) -> (res: bool)
    ensures
        res == seq_contains(haystack@, needle@),
{
    if needle.len() > haystack.len() {
        assert forall|i: int| !occurs_at(haystack@, needle@, i) by {}
        return false;
    }
    let last = haystack.len() - needle.len();
    let mut i: usize = 0;
    loop
        invariant
            i <= last,
            last + needle.len() == haystack.len(),
            forall|k: int| 0 <= k < i ==> !occurs_at(haystack@, needle@, k),
        ensures
            forall|k: int| 0 <= k <= last ==> !occurs_at(haystack@, needle@, k),
        decreases last - i,
    {
        if occurs_at_index(haystack, needle, i) {
            return true;
        }
        if i == last {
            break;
        }
        i += 1;
    }
    assert forall|k: int| !occurs_at(haystack@, needle@, k) by {
        if 0 <= k <= last {
        }
    }
    false
}

/// Whether the bytes `needle` occur in `haystack` at index `at`.
pub fn bytes_occur_at_index(haystack: &[u8], needle: &[u8], at: usize) -> (res: bool)
    ensures
        res == occurs_at(haystack@, needle@, at as int),
{
    if needle.len() > haystack.len() || at > haystack.len() - needle.len() {
        return false;
    }
    let mut j: usize = 0;
    while j < needle.len()
        invariant
            j <= needle.len(),
            at + needle.len() <= haystack.len(),
            forall|k: int| 0 <= k < j ==> haystack@[at + k] == needle@[k],
        decreases needle.len() - j,
    {
        if haystack[at + j] != needle[j] {
            assert(haystack@.subrange(at as int, at + needle.len())[j as int] != needle@[j as int]);
            return false;
        }
        j += 1;
    }
    assert(haystack@.subrange(at as int, at + needle.len()) =~= needle@);
    true
}

/// Whether the bytes `needle` occur anywhere in `haystack`.
pub fn bytes_contain(haystack: &[u8], needle: &[u8]) -> (res: bool)
    ensures
        res == seq_contains(haystack@, needle@),
{
    if needle.len() > haystack.len() {
        assert forall|i: int| !occurs_at(haystack@, needle@, i) by {}
        return false;
    }
    let last = haystack.len() - needle.len();
    let mut i: usize = 0;
    loop
        invariant
            i <= last,
            last + needle.len() == haystack.len(),
            forall|k: int| 0 <= k < i ==> !occurs_at(haystack@, needle@, k),
        ensures
            forall|k: int| 0 <= k <= last ==> !occurs_at(haystack@, needle@, k),
        decreases last - i,
    {
        if bytes_occur_at_index(haystack, needle, i) {
            return true;
        }
        if i == last {
            break;
        }
        i += 1;
    }
    assert forall|k: int| !occurs_at(haystack@, needle@, k) by {
        if 0 <= k <= last {
        }
    }
    false
}

/// Whether `needle` occurs anywhere in `haystack` (`str::contains` with a string
/// pattern).
pub fn contains(haystack: &str, needle: &str) -> (res: bool)
    ensures
        res == seq_contains(haystack@, needle@),
{
    let h = chars_of(haystack);
    let n = chars_of(needle);
    chars_contain(&h, &n)
}

/// Whether `a` and `b` hold the same characters.
pub fn text_eq(a: &str, b: &str) -> (res: bool)
    ensures
        res == (a@ == b@),
{
    let x = chars_of(a);
    let y = chars_of(b);
    if x.len() != y.len() {
        return false;
    }
    let mut i: usize = 0;
    while i < x.len()
        invariant
            x@ == a@,
            y@ == b@,
            x.len() == y.len(),
            i <= x.len(),
            forall|k: int| 0 <= k < i ==> x@[k] == y@[k],
        decreases x.len() - i,
    {
        if x[i] != y[i] {
            return false;
        }
        i += 1;
    }
    assert(x@ =~= y@);
    true
}

/// Whether some character of `s` is whitespace.
pub fn contains_whitespace(s: &str) -> (res: bool)
    ensures
        res == has_whitespace(s@),
{
    let v = chars_of(s);
    let mut i: usize = 0;
    while i < v.len()
        invariant
            v@ == s@,
            i <= v.len(),
            forall|k: int| 0 <= k < i ==> !is_whitespace(v@[k]),
        decreases v.len() - i,
    {
        if is_whitespace_char(v[i]) {
            return true;
        }
        i += 1;
    }
    false
}


/// The byte sequences held by `v`.
pub open spec fn byte_views(v: Seq<Vec<u8>>) -> Seq<Seq<u8>> {
    v.map_values(|b: Vec<u8>| b@)
}

/// The character sequences held by `strings`.
pub open spec fn views(strings: Seq<String>) -> Seq<Seq<char>> {
    strings.map_values(|l: String| l@)
}

pub proof fn lemma_first_index_of<T>(s: Seq<T>, c: T, k: int)
    requires
        0 <= k <= s.len(),
        forall|j: int| 0 <= j < k ==> s[j] != c,
    ensures
        k < s.len() && s[k] == c ==> first_index_of(s, c) == Some(k),
        k == s.len() ==> first_index_of(s, c) is None,
    decreases k,
{
    if k > 0 {
        lemma_first_index_of(s.drop_first(), c, k - 1);
    }
}

proof fn lemma_trim_start_at(s: Seq<char>) -> (i: int)
    ensures
        0 <= i <= s.len(),
        trim_start(s) == s.subrange(i, s.len() as int),
        forall|k: int| 0 <= k < i ==> is_whitespace(#[trigger] s[k]),
        i < s.len() ==> !is_whitespace(s[i]),
    decreases s.len(),
{
    if s.len() > 0 && is_whitespace(s[0]) {
        let i = lemma_trim_start_at(s.drop_first());
        assert(s.drop_first().subrange(i, s.len() - 1) =~= s.subrange(i + 1, s.len() as int));
        assert forall|k: int| 0 <= k < i + 1 implies is_whitespace(#[trigger] s[k]) by {
            if k > 0 {
                assert(s[k] == s.drop_first()[k - 1]);
            }
        }
        i + 1
    } else {
        assert(s.subrange(0, s.len() as int) =~= s);
        0
    }
}

proof fn lemma_trim_end_at(s: Seq<char>) -> (j: int)
    ensures
        0 <= j <= s.len(),
        trim_end(s) == s.subrange(0, j),
        forall|k: int| j <= k < s.len() ==> is_whitespace(#[trigger] s[k]),
        j > 0 ==> !is_whitespace(s[j - 1]),
    decreases s.len(),
{
    if s.len() > 0 && is_whitespace(s.last()) {
        let j = lemma_trim_end_at(s.drop_last());
        assert(s.drop_last().subrange(0, j) =~= s.subrange(0, j));
        assert forall|k: int| j <= k < s.len() implies is_whitespace(#[trigger] s[k]) by {
            if k < s.len() - 1 {
                assert(s[k] == s.drop_last()[k]);
            }
        }
        j
    } else {
        assert(s.subrange(0, s.len() as int) =~= s);
        s.len() as int
    }
}

/// Trimming keeps a contiguous part of `s`: what it drops before and after is
/// all whitespace, and what it keeps neither starts nor ends with whitespace.
pub proof fn lemma_trimmed_shape(s: Seq<char>)
    ensures
        exists|i: int, j: int|
            {
                &&& 0 <= i <= j <= s.len()
                &&& trimmed(s) == s.subrange(i, j)
                &&& forall|k: int| 0 <= k < i ==> is_whitespace(#[trigger] s[k])
                &&& forall|k: int| j <= k < s.len() ==> is_whitespace(#[trigger] s[k])
                &&& i < j ==> !is_whitespace(s[i]) && !is_whitespace(s[j - 1])
            },
{
    let i = lemma_trim_start_at(s);
    let t = s.subrange(i, s.len() as int);
    let j = lemma_trim_end_at(t);
    assert(t.subrange(0, j) =~= s.subrange(i, i + j));
    assert forall|k: int| i + j <= k < s.len() implies is_whitespace(#[trigger] s[k]) by {
        assert(s[k] == t[k - i]);
    }
    if 0 < j {
        assert(s[i] == t[0]);
        assert(s[i + j - 1] == t[j - 1]);
    }
    assert(0 <= i <= i + j <= s.len());
}

/// Splitting into lines loses only the line terminators: no line holds a `'\n'`,
/// and where `s` holds no `'\r'`, writing each line followed by `'\n'` gives back
/// `s`, with a `'\n'` added where `s` does not already end in one.
pub proof fn lemma_split_lines_rebuild(s: Seq<char>)
    ensures
        forall|i: int, k: int|
            0 <= i < split_lines(s).len() && 0 <= k < split_lines(s)[i].len() ==> #[trigger] split_lines(
                s,
            )[i][k] != '\n',
        (forall|k: int| 0 <= k < s.len() ==> s[k] != '\r') ==> split_lines(s).map_values(
            |l: Seq<char>| l.push('\n'),
        ).flatten() == (if s.len() == 0 || s.last() == '\n' {
            s
        } else {
            s.push('\n')
        }),
    decreases s.len(),
{
    let f = |l: Seq<char>| l.push('\n');
    if s.len() == 0 {
        assert(split_lines(s).map_values(f) =~= Seq::<Seq<char>>::empty());
    } else {
        match first_index_of(s, '\n') {
            None => {
                lemma_first_index_of_none(s, '\n');
                assert(split_lines(s) == seq![s]);
                assert(split_lines(s).map_values(f) =~= seq![s.push('\n')]);
                seq![s.push('\n')].lemma_flatten_singleton();
            },
            Some(k) => {
                lemma_first_index_of_some(s, '\n');
                let head = s.subrange(0, k);
                let rest = s.subrange(k + 1, s.len() as int);
                lemma_split_lines_rebuild(rest);
                let line = strip_cr(head);
                assert(split_lines(s) == seq![line] + split_lines(rest));
                assert forall|i: int, m: int|
                    0 <= i < split_lines(s).len() && 0 <= m < split_lines(s)[i].len() implies #[trigger] split_lines(
                    s,
                )[i][m] != '\n' by {
                    if i == 0 {
                        assert(line[m] == s[m]);
                    } else {
                        assert(split_lines(s)[i] == split_lines(rest)[i - 1]);
                    }
                }
                if forall|j: int| 0 <= j < s.len() ==> s[j] != '\r' {
                    assert forall|j: int| 0 <= j < rest.len() implies rest[j] != '\r' by {
                        assert(rest[j] == s[k + 1 + j]);
                    }
                    if head.len() > 0 {
                        assert(head.last() == s[k - 1]);
                    }
                    assert(line == head);
                    let ls = split_lines(rest).map_values(f);
                    assert(split_lines(s).map_values(f) =~= seq![head.push('\n')] + ls);
                    assert((seq![head.push('\n')] + ls).drop_first() =~= ls);
                    assert((seq![head.push('\n')] + ls).flatten() == head.push('\n') + ls.flatten());
                    assert(head.push('\n') + rest =~= s);
                    if rest.len() == 0 {
                        assert(s.last() == '\n');
                    } else {
                        assert(s.last() == rest.last());
                        assert(head.push('\n') + rest.push('\n') =~= s.push('\n'));
                    }
                }
            },
        }
    }
}

pub(crate) proof fn lemma_first_index_of_none<T>(s: Seq<T>, c: T)
    requires
        first_index_of(s, c) is None,
    ensures
        forall|j: int| 0 <= j < s.len() ==> s[j] != c,
    decreases s.len(),
{
    if s.len() > 0 {
        lemma_first_index_of_none(s.drop_first(), c);
        assert forall|j: int| 0 <= j < s.len() implies s[j] != c by {
            if j > 0 {
                assert(s[j] == s.drop_first()[j - 1]);
            }
        }
    }
}

pub(crate) proof fn lemma_first_index_of_some<T>(s: Seq<T>, c: T)
    ensures
        first_index_of(s, c) matches Some(k) ==> 0 <= k < s.len() && s[k] == c && forall|j: int|
            0 <= j < k ==> s[j] != c,
    decreases s.len(),
{
    if s.len() > 0 && s[0] != c {
        lemma_first_index_of_some(s.drop_first(), c);
        if let Some(k) = first_index_of(s, c) {
            assert forall|j: int| 0 <= j < k implies s[j] != c by {
                if j > 0 {
                    assert(s[j] == s.drop_first()[j - 1]);
                }
            }
        }
    }
}

/// `s` with leading and trailing whitespace removed (`str::trim`).
pub fn trim(s: &str) -> (res: String)
    ensures
        res@ == trimmed(s@),
        exists|i: int, j: int|
            {
                &&& 0 <= i <= j <= s@.len()
                &&& res@ == s@.subrange(i, j)
                &&& forall|k: int| 0 <= k < i ==> is_whitespace(#[trigger] s@[k])
                &&& forall|k: int| j <= k < s@.len() ==> is_whitespace(#[trigger] s@[k])
                &&& i < j ==> !is_whitespace(s@[i]) && !is_whitespace(s@[j - 1])
            },
{
    proof {
        lemma_trimmed_shape(s@);
    }
    let v = chars_of(s);
    let n = v.len();
    let mut i: usize = 0;
    assert(v@.subrange(0, n as int) =~= v@);
    while i < n && is_whitespace_char(v[i])
        invariant
            n == v.len(),
            v@ == s@,
            i <= n,
            trim_start(s@) == trim_start(v@.subrange(i as int, n as int)),
        decreases n - i,
    {
        assert(v@.subrange(i as int, n as int).drop_first() =~= v@.subrange(i + 1, n as int));
        i += 1;
    }
    assert(trim_start(s@) == v@.subrange(i as int, n as int));
    let mut j: usize = n;
    while j > i && is_whitespace_char(v[j - 1])
        invariant
            n == v.len(),
            i <= j <= n,
            trim_end(v@.subrange(i as int, n as int)) == trim_end(v@.subrange(i as int, j as int)),
        decreases j,
    {
        assert(v@.subrange(i as int, j as int).drop_last() =~= v@.subrange(i as int, j - 1));
        j -= 1;
    }
    string_from_chars(&v, i, j)
}

/// The lines of `s` (`str::lines`).
pub fn lines(s: &str) -> (res: Vec<String>)
    ensures
        views(res@) == split_lines(s@),
        forall|i: int, k: int|
            0 <= i < res@.len() && 0 <= k < res@[i]@.len() ==> #[trigger] res@[i]@[k] != '\n',
        (forall|k: int| 0 <= k < s@.len() ==> s@[k] != '\r') ==> views(res@).map_values(
            |l: Seq<char>| l.push('\n'),
        ).flatten() == (if s@.len() == 0 || s@.last() == '\n' {
            s@
        } else {
            s@.push('\n')
        }),
{
    proof {
        lemma_split_lines_rebuild(s@);
    }
    let v = chars_of(s);
    let n = v.len();
    let mut res: Vec<String> = Vec::new();
    let mut start: usize = 0;
    assert(v@.subrange(0, n as int) =~= v@);
    assert(views(res@) + split_lines(s@) =~= split_lines(s@));
    while start < n
        invariant
            n == v.len(),
            v@ == s@,
            start <= n,
            split_lines(s@) == views(res@) + split_lines(v@.subrange(start as int, n as int)),
        decreases n - start,
    {
        let ghost rest = v@.subrange(start as int, n as int);
        let mut k: usize = start;
        while k < n && v[k] != '\n'
            invariant
                n == v.len(),
                start <= k <= n,
                rest == v@.subrange(start as int, n as int),
                forall|j: int| start <= j < k ==> v@[j] != '\n',
            decreases n - k,
        {
            k += 1;
        }
        proof {
            lemma_first_index_of(rest, '\n', k - start);
        }
        if k == n {
            let line = string_from_chars(&v, start, n);
            proof {
                assert(split_lines(rest) == seq![rest]);
                assert(views(res@.push(line)) =~= views(res@).push(line@));
                assert(v@.subrange(n as int, n as int) =~= Seq::<char>::empty());
            }
            res.push(line);
            start = n;
        } else {
            let end = if k > start && v[k - 1] == '\r' {
                k - 1
            } else {
                k
            };
            let line = string_from_chars(&v, start, end);
            proof {
                assert(rest.subrange(0, k - start) =~= v@.subrange(start as int, k as int));
                assert(strip_cr(rest.subrange(0, k - start)) =~= line@);
                assert(rest.subrange(k - start + 1, rest.len() as int) =~= v@.subrange(
                    k + 1,
                    n as int,
                ));
                assert(views(res@.push(line)) =~= views(res@).push(line@));
                assert(views(res@).push(line@) + split_lines(v@.subrange(k + 1, n as int))
                    =~= views(res@) + (seq![line@] + split_lines(v@.subrange(k + 1, n as int))));
            }
            res.push(line);
            start = k + 1;
        }
    }
    proof {
        assert(v@.subrange(n as int, n as int) =~= Seq::<char>::empty());
        assert(views(res@) + Seq::<Seq<char>>::empty() =~= views(res@));
        assert forall|i: int, k: int|
            0 <= i < res@.len() && 0 <= k < res@[i]@.len() implies #[trigger] res@[i]@[k] != '\n' by {
            assert(views(res@)[i] == res@[i]@);
        }
    }
    res
}

} // verus!
