//! Character-level text processing shared by the document formats.
//!
//! Text is handled as sequences of `char`. Each helper states its result
//! over `Seq<char>`, the view of `String`, `&str` and `Vec<char>`.
use vstd::prelude::*;

verus! {

/// Unicode `White_Space` code points, which `char::is_whitespace` and the
/// `trim` family of `str` recognise.
pub open spec fn is_ws(c: char) -> bool {
    ||| ('\u{9}' <= c && c <= '\u{d}')
    ||| c == ' '
    ||| c == '\u{85}'
    ||| c == '\u{a0}'
    ||| c == '\u{1680}'
    ||| ('\u{2000}' <= c && c <= '\u{200a}')
    ||| c == '\u{2028}'
    ||| c == '\u{2029}'
    ||| c == '\u{202f}'
    ||| c == '\u{205f}'
    ||| c == '\u{3000}'
}

/// `s` with its leading white space removed.
pub open spec fn trim_start(s: Seq<char>) -> Seq<char>
    decreases s.len(),
{
    if s.len() > 0 && is_ws(s[0]) {
        trim_start(s.drop_first())
    } else {
        s
    }
}

/// `s` with its trailing white space removed.
pub open spec fn trim_end(s: Seq<char>) -> Seq<char>
    decreases s.len(),
{
    if s.len() > 0 && is_ws(s.last()) {
        trim_end(s.drop_last())
    } else {
        s
    }
}

/// `s` with white space removed at both ends.
pub open spec fn trim(s: Seq<char>) -> Seq<char> {
    trim_end(trim_start(s))
}

/// `s` with every leading and trailing occurrence of `c` removed.
pub open spec fn trim_matches_char(s: Seq<char>, c: char) -> Seq<char> {
    trim_end_char(trim_start_char(s, c), c)
}

pub open spec fn trim_start_char(s: Seq<char>, c: char) -> Seq<char>
    decreases s.len(),
{
    if s.len() > 0 && s[0] == c {
        trim_start_char(s.drop_first(), c)
    } else {
        s
    }
}

pub open spec fn trim_end_char(s: Seq<char>, c: char) -> Seq<char>
    decreases s.len(),
{
    if s.len() > 0 && s.last() == c {
        trim_end_char(s.drop_last(), c)
    } else {
        s
    }
}

/// Whether `s` begins with `p`.
pub open spec fn has_prefix(s: Seq<char>, p: Seq<char>) -> bool {
    p.len() <= s.len() && s.subrange(0, p.len() as int) == p
}

/// Index of the first occurrence of `c` in `s`, if any.
pub open spec fn find_char(s: Seq<char>, c: char) -> Option<int>
    decreases s.len(),
{
    if s.len() == 0 {
        None
    } else if s[0] == c {
        Some(0)
    } else {
        match find_char(s.drop_first(), c) {
            Some(i) => Some(i + 1),
            None => None,
        }
    }
}

/// Removes one trailing carriage return, as `str::lines` does before a line feed.
pub open spec fn strip_cr(s: Seq<char>) -> Seq<char> {
    if s.len() > 0 && s.last() == '\r' {
        s.drop_last()
    } else {
        s
    }
}

/// The lines of `s` as `str::lines` yields them: split at `\n`, each line
/// ended by `\n` loses one `\r` before it, and a final line ending adds no
/// empty line.
pub open spec fn lines(s: Seq<char>) -> Seq<Seq<char>>
    decreases s.len(),
{
    if s.len() == 0 {
        Seq::empty()
    } else {
        match find_char(s, '\n') {
            None => seq![s],
            Some(i) => {
                proof {
                    lemma_find_char_bounds(s, '\n');
                }
                seq![strip_cr(s.subrange(0, i))] + lines(s.subrange(i + 1, s.len() as int))
            },
        }
    }
}

/// The character sequences held by a vector of character vectors.
pub open spec fn views(v: Seq<Vec<char>>) -> Seq<Seq<char>> {
    v.map_values(|x: Vec<char>| x@)
}

/// The lines of `ls` joined by `sep`.
pub open spec fn join(ls: Seq<Seq<char>>, sep: Seq<char>) -> Seq<char>
    decreases ls.len(),
{
    if ls.len() == 0 {
        Seq::empty()
    } else if ls.len() == 1 {
        ls[0]
    } else {
        join(ls.drop_last(), sep) + sep + ls.last()
    }
}

/// The sequences of `ls` concatenated.
pub open spec fn concat(ls: Seq<Seq<char>>) -> Seq<char>
    decreases ls.len(),
{
    if ls.len() == 0 {
        Seq::empty()
    } else {
        concat(ls.drop_last()) + ls.last()
    }
}

/// Number of leading occurrences of `c` in `s`.
pub open spec fn count_leading(s: Seq<char>, c: char) -> nat
    decreases s.len(),
{
    if s.len() > 0 && s[0] == c {
        1 + count_leading(s.drop_first(), c)
    } else {
        0
    }
}

/// `n` copies of `c`.
pub open spec fn repeat_char(c: char, n: nat) -> Seq<char> {
    Seq::new(n, |i: int| c)
}

/// The pieces of `s` between occurrences of `c`, as `str::split` yields
/// them: an empty `s` gives one empty piece.
pub open spec fn split_on(s: Seq<char>, c: char) -> Seq<Seq<char>>
    decreases s.len(),
{
    match find_char(s, c) {
        None => seq![s],
        Some(i) => {
            proof {
                lemma_find_char_bounds(s, c);
            }
            seq![s.subrange(0, i)] + split_on(s.subrange(i + 1, s.len() as int), c)
        },
    }
}

/// Whether `p` occurs in `s` at position `i`.
pub open spec fn occurs_at(s: Seq<char>, p: Seq<char>, i: int) -> bool {
    0 <= i && i + p.len() <= s.len() && s.subrange(i, i + p.len()) == p
}

/// Whether `p` occurs in `s`.
pub open spec fn contains_seq(s: Seq<char>, p: Seq<char>) -> bool {
    exists|i: int| occurs_at(s, p, i)
}

/// The first position at which `p` occurs in `s`.
pub open spec fn first_occurrence(s: Seq<char>, p: Seq<char>) -> int {
    choose|i: int| occurs_at(s, p, i) && forall|j: int| 0 <= j < i ==> !occurs_at(s, p, j)
}

/// `s` with its first occurrence of `p` replaced by `r`, as `str::replacen`
/// with a count of one does.
pub open spec fn replace_first(s: Seq<char>, p: Seq<char>, r: Seq<char>) -> Seq<char> {
    if contains_seq(s, p) {
        let i = first_occurrence(s, p);
        s.subrange(0, i) + r + s.subrange(i + p.len(), s.len() as int)
    } else {
        s
    }
}

/// Whether `s` ends with a line feed.
pub open spec fn ends_with_newline(s: Seq<char>) -> bool {
    s.len() > 0 && s.last() == '\n'
}

pub proof fn lemma_find_char_bounds(s: Seq<char>, c: char)
    ensures
        match find_char(s, c) {
            Some(i) => 0 <= i < s.len() && s[i] == c && forall|j: int|
                0 <= j < i ==> s[j] != c,
            None => forall|j: int| 0 <= j < s.len() ==> s[j] != c,
        },
    decreases s.len(),
{
    if s.len() > 0 && s[0] != c {
        lemma_find_char_bounds(s.drop_first(), c);
        match find_char(s.drop_first(), c) {
            Some(i) => {
                assert forall|j: int| 0 <= j < i + 1 implies s[j] != c by {
                    if j > 0 {
                        assert(s[j] == s.drop_first()[j - 1]);
                    }
                }
            },
            None => {
                assert forall|j: int| 0 <= j < s.len() implies s[j] != c by {
                    if j > 0 {
                        assert(s[j] == s.drop_first()[j - 1]);
                    }
                }
            },
        }
    }
}

/// Characterises `find_char` by the position it finds.
pub proof fn lemma_find_char_is(s: Seq<char>, c: char, i: int)
    requires
        0 <= i < s.len(),
        s[i] == c,
        forall|j: int| 0 <= j < i ==> s[j] != c,
    ensures
        find_char(s, c) == Some(i),
{
    lemma_find_char_bounds(s, c);
}

pub proof fn lemma_find_char_none(s: Seq<char>, c: char)
    requires
        forall|j: int| 0 <= j < s.len() ==> s[j] != c,
    ensures
        find_char(s, c) == None::<int>,
{
    lemma_find_char_bounds(s, c);
}

pub proof fn lemma_trim_start_is(s: Seq<char>)
    ensures
        exists|k: int|
            0 <= k <= s.len() && trim_start(s) == s.subrange(k, s.len() as int) && (forall|j: int|
                0 <= j < k ==> is_ws(#[trigger] s[j])) && (k < s.len() ==> !is_ws(s[k])),
    decreases s.len(),
{
    if s.len() > 0 && is_ws(s[0]) {
        lemma_trim_start_is(s.drop_first());
        let k = choose|k: int|
            0 <= k <= s.drop_first().len() && trim_start(s.drop_first()) == s.drop_first().subrange(
                k,
                s.drop_first().len() as int,
            ) && (forall|j: int| 0 <= j < k ==> is_ws(#[trigger] s.drop_first()[j])) && (k
                < s.drop_first().len() ==> !is_ws(s.drop_first()[k]));
        assert(s.drop_first().subrange(k, s.drop_first().len() as int) == s.subrange(
            k + 1,
            s.len() as int,
        ));
        assert forall|j: int| 0 <= j < k + 1 implies is_ws(#[trigger] s[j]) by {
            if j > 0 {
                assert(s[j] == s.drop_first()[j - 1]);
            }
        }
    } else {
        assert(s.subrange(0, s.len() as int) == s);
    }
}

pub proof fn lemma_trim_end_is(s: Seq<char>)
    ensures
        exists|k: int|
            0 <= k <= s.len() && trim_end(s) == s.subrange(0, k) && (forall|j: int|
                k <= j < s.len() ==> is_ws(#[trigger] s[j])) && (k > 0 ==> !is_ws(s[k - 1])),
    decreases s.len(),
{
    if s.len() > 0 && is_ws(s.last()) {
        lemma_trim_end_is(s.drop_last());
        let k = choose|k: int|
            0 <= k <= s.drop_last().len() && trim_end(s.drop_last()) == s.drop_last().subrange(0, k)
                && (forall|j: int| k <= j < s.drop_last().len() ==> is_ws(#[trigger] s.drop_last()[j]))
                && (k > 0 ==> !is_ws(s.drop_last()[k - 1]));
        assert(s.drop_last().subrange(0, k) == s.subrange(0, k));
        assert forall|j: int| k <= j < s.len() implies is_ws(#[trigger] s[j]) by {
            if j < s.len() - 1 {
                assert(s[j] == s.drop_last()[j]);
            }
        }
    } else {
        assert(s.subrange(0, s.len() as int) == s);
    }
}

/// `char::is_whitespace`, as the Unicode `White_Space` list.
pub fn is_whitespace_char(c: char) -> (res: bool)
    ensures
        res == is_ws(c),
{
    ('\u{9}' <= c && c <= '\u{d}') || c == ' ' || c == '\u{85}' || c == '\u{a0}' || c
        == '\u{1680}' || ('\u{2000}' <= c && c <= '\u{200a}') || c == '\u{2028}' || c
        == '\u{2029}' || c == '\u{202f}' || c == '\u{205f}' || c == '\u{3000}'
}

/// The characters of `s`, in order.
pub fn chars_of(s: &str) -> (res: Vec<char>)
    ensures
        res@ == s@,
{
    broadcast use vstd::string::axiom_spec_iter;
    let mut out: Vec<char> = Vec::new();
    for c in it: s.chars()
        invariant
            out@ == it.seq().take(it.index() as int),
    {
        out.push(c);
    }
    out
}

/// The string made of the characters `cs`, in order.
#[verifier::external_body]
pub(crate) fn string_of(cs: &[char]) -> (res: String)
    ensures
        res@ == cs@,
{
    cs.iter().collect()
}

/// The characters `s[from..to]` as a new vector.
pub fn slice_chars(s: &[char], from: usize, to: usize) -> (res: Vec<char>)
    requires
        from <= to <= s@.len(),
    ensures
        res@ == s@.subrange(from as int, to as int),
{
    let mut res: Vec<char> = Vec::new();
    let mut i = from;
    while i < to
        invariant
            from <= i <= to <= s@.len(),
            res@ == s@.subrange(from as int, i as int),
        decreases to - i,
    {
        res.push(s[i]);
        i = i + 1;
        assert(res@ == s@.subrange(from as int, i as int));
    }
    res
}

/// `s` followed by `t`, in place.
pub fn push_all(s: &mut Vec<char>, t: &[char])
    ensures
        final(s)@ == old(s)@ + t@,
{
    let mut i: usize = 0;
    while i < t.len()
        invariant
            i <= t@.len(),
            s@ == old(s)@ + t@.subrange(0, i as int),
        decreases t@.len() - i,
    {
        s.push(t[i]);
        i = i + 1;
        assert(s@ == old(s)@ + t@.subrange(0, i as int));
    }
    assert(t@.subrange(0, t@.len() as int) == t@);
}

/// Whether the two character sequences are equal.
pub fn chars_eq(a: &[char], b: &[char]) -> (res: bool)
    ensures
        res == (a@ == b@),
{
    if a.len() != b.len() {
        return false;
    }
    let mut i: usize = 0;
    while i < a.len()
        invariant
            a@.len() == b@.len(),
            i <= a@.len(),
            forall|j: int| 0 <= j < i ==> a@[j] == b@[j],
        decreases a@.len() - i,
    {
        if a[i] != b[i] {
            return false;
        }
        i = i + 1;
    }
    assert(a@ =~= b@);
    true
}

/// Whether `s` begins with `p`.
pub fn starts_with(s: &[char], p: &[char]) -> (res: bool)
    ensures
        res == has_prefix(s@, p@),
{
    if p.len() > s.len() {
        return false;
    }
    let mut i: usize = 0;
    while i < p.len()
        invariant
            p@.len() <= s@.len(),
            i <= p@.len(),
            forall|j: int| 0 <= j < i ==> s@[j] == p@[j],
        decreases p@.len() - i,
    {
        if s[i] != p[i] {
            assert(s@.subrange(0, p@.len() as int)[i as int] != p@[i as int]);
            return false;
        }
        i = i + 1;
    }
    assert(s@.subrange(0, p@.len() as int) =~= p@);
    true
}

/// Position of the first `c` in `s`.
pub fn find_char_exec(s: &[char], c: char) -> (res: Option<usize>)
    ensures
        match res {
            Some(i) => find_char(s@, c) == Some(i as int),
            None => find_char(s@, c) == None::<int>,
        },
{
    let mut i: usize = 0;
    while i < s.len()
        invariant
            i <= s@.len(),
            forall|j: int| 0 <= j < i ==> s@[j] != c,
        decreases s@.len() - i,
    {
        if s[i] == c {
            proof {
                lemma_find_char_is(s@, c, i as int);
            }
            return Some(i);
        }
        i = i + 1;
    }
    proof {
        lemma_find_char_none(s@, c);
    }
    None
}

/// Whether `c` occurs in `s`.
pub fn contains_char(s: &[char], c: char) -> (res: bool)
    ensures
        res == s@.contains(c),
{
    let r = find_char_exec(s, c);
    proof {
        lemma_find_char_bounds(s@, c);
    }
    match r {
        Some(_) => true,
        None => false,
    }
}

/// `s` with leading white space removed.
pub fn trim_start_exec(s: &[char]) -> (res: Vec<char>)
    ensures
        res@ == trim_start(s@),
        res@.len() <= s@.len(),
{
    let mut k: usize = 0;
    assert(s@.subrange(0, s@.len() as int) == s@);
    while k < s.len() && is_whitespace_char(s[k])
        invariant
            k <= s@.len(),
            trim_start(s@) == trim_start(s@.subrange(k as int, s@.len() as int)),
        decreases s@.len() - k,
    {
        assert(s@.subrange(k as int, s@.len() as int).drop_first() == s@.subrange(
            k + 1,
            s@.len() as int,
        ));
        k = k + 1;
    }
    slice_chars(s, k, s.len())
}

/// `s` with trailing white space removed.
pub fn trim_end_exec(s: &[char]) -> (res: Vec<char>)
    ensures
        res@ == trim_end(s@),
        res@.len() <= s@.len(),
{
    let mut k: usize = s.len();
    assert(s@.subrange(0, s@.len() as int) == s@);
    while k > 0 && is_whitespace_char(s[k - 1])
        invariant
            k <= s@.len(),
            trim_end(s@) == trim_end(s@.subrange(0, k as int)),
        decreases k,
    {
        assert(s@.subrange(0, k as int).drop_last() == s@.subrange(0, k - 1));
        k = k - 1;
    }
    assert(s@.subrange(0, s@.len() as int) == s@);
    slice_chars(s, 0, k)
}

/// `s` with white space removed at both ends.
pub fn trim_exec(s: &[char]) -> (res: Vec<char>)
    ensures
        res@ == trim(s@),
        res@.len() <= s@.len(),
{
    let t = trim_start_exec(s);
    trim_end_exec(&t)
}

/// `s` with every leading and trailing `c` removed.
pub fn trim_matches_exec(s: &[char], c: char) -> (res: Vec<char>)
    ensures
        res@ == trim_matches_char(s@, c),
{
    let mut a: usize = 0;
    assert(s@.subrange(0, s@.len() as int) == s@);
    while a < s.len() && s[a] == c
        invariant
            a <= s@.len(),
            trim_start_char(s@, c) == trim_start_char(s@.subrange(a as int, s@.len() as int), c),
        decreases s@.len() - a,
    {
        assert(s@.subrange(a as int, s@.len() as int).drop_first() == s@.subrange(
            a + 1,
            s@.len() as int,
        ));
        a = a + 1;
    }
    let t = slice_chars(s, a, s.len());
    let mut b: usize = t.len();
    assert(t@.subrange(0, t@.len() as int) == t@);
    while b > 0 && t[b - 1] == c
        invariant
            b <= t@.len(),
            trim_end_char(t@, c) == trim_end_char(t@.subrange(0, b as int), c),
        decreases b,
    {
        assert(t@.subrange(0, b as int).drop_last() == t@.subrange(0, b - 1));
        b = b - 1;
    }
    assert(t@.subrange(0, t@.len() as int) == t@);
    slice_chars(&t, 0, b)
}

/// The lines of `s`, as `str::lines` yields them.
pub fn split_lines(s: &[char]) -> (res: Vec<Vec<char>>)
    ensures
        views(res@) == lines(s@),
        forall|k: int| 0 <= k < res@.len() ==> (#[trigger] res@[k])@.len() <= s@.len(),
{
    let mut res: Vec<Vec<char>> = Vec::new();
    let mut start: usize = 0;
    assert(s@.subrange(0, s@.len() as int) == s@);
    assert(views(res@) =~= Seq::<Seq<char>>::empty());
    while start < s.len()
        invariant
            start <= s@.len(),
            views(res@) + lines(s@.subrange(start as int, s@.len() as int)) == lines(s@),
            forall|k: int| 0 <= k < res@.len() ==> (#[trigger] res@[k])@.len() <= s@.len(),
        decreases s@.len() - start,
    {
        let ghost rest = s@.subrange(start as int, s@.len() as int);
        let mut i = start;
        while i < s.len() && s[i] != '\n'
            invariant
                start <= i <= s@.len(),
                forall|j: int| start <= j < i ==> s@[j] != '\n',
            decreases s@.len() - i,
        {
            i = i + 1;
        }
        let mut end = i;
        if i < s.len() && end > start && s[end - 1] == '\r' {
            end = end - 1;
        }
        let line = slice_chars(s, start, end);
        proof {
            if i < s@.len() {
                lemma_find_char_is(rest, '\n', i - start);
                assert(rest.subrange(0, i - start) == s@.subrange(start as int, i as int));
                assert(rest.subrange(i - start + 1, rest.len() as int) == s@.subrange(
                    i + 1,
                    s@.len() as int,
                ));
                assert(line@ == strip_cr(rest.subrange(0, i - start)));
            } else {
                lemma_find_char_none(rest, '\n');
                assert(line@ == rest);
            }
        }
        let ghost old_res = res@;
        res.push(line);
        assert(views(res@) =~= views(old_res).push(line@));
        if i < s.len() {
            start = i + 1;
        } else {
            start = s.len();
            assert(s@.subrange(start as int, s@.len() as int).len() == 0);
        }
        assert(views(res@) + lines(s@.subrange(start as int, s@.len() as int)) == lines(s@));
    }
    assert(s@.subrange(start as int, s@.len() as int).len() == 0);
    assert(views(res@) + lines(s@.subrange(start as int, s@.len() as int)) == views(res@));
    res
}

pub proof fn lemma_split_on_len(s: Seq<char>, c: char)
    ensures
        split_on(s, c).len() >= 1,
        s.contains(c) ==> split_on(s, c).len() >= 2,
    decreases s.len(),
{
    lemma_find_char_bounds(s, c);
    if s.contains(c) {
        let j = choose|j: int| 0 <= j < s.len() && s[j] == c;
        assert(s[j] == c);
    }
    if find_char(s, c) is Some {
        lemma_split_on_len(s.subrange(find_char(s, c)->0 + 1, s.len() as int), c);
    }
}

pub proof fn lemma_count_leading_bound(s: Seq<char>, c: char)
    ensures
        count_leading(s, c) <= s.len(),
        forall|j: int| 0 <= j < count_leading(s, c) ==> s[j] == c,
        count_leading(s, c) < s.len() ==> s[count_leading(s, c) as int] != c,
    decreases s.len(),
{
    if s.len() > 0 && s[0] == c {
        lemma_count_leading_bound(s.drop_first(), c);
        assert forall|j: int| 0 <= j < count_leading(s, c) implies s[j] == c by {
            if j > 0 {
                assert(s[j] == s.drop_first()[j - 1]);
            }
        }
    }
}

/// Number of leading `c` in `s`.
pub fn count_leading_exec(s: &[char], c: char) -> (res: usize)
    ensures
        res == count_leading(s@, c),
        res <= s@.len(),
{
    let mut k: usize = 0;
    assert(s@.subrange(0, s@.len() as int) == s@);
    while k < s.len() && s[k] == c
        invariant
            k <= s@.len(),
            count_leading(s@, c) == k + count_leading(s@.subrange(k as int, s@.len() as int), c),
        decreases s@.len() - k,
    {
        assert(s@.subrange(k as int, s@.len() as int).drop_first() == s@.subrange(
            k + 1,
            s@.len() as int,
        ));
        k = k + 1;
    }
    k
}

/// `n` copies of `c` appended to `s`.
pub fn push_repeat(s: &mut Vec<char>, c: char, n: usize)
    ensures
        final(s)@ == old(s)@ + repeat_char(c, n as nat),
{
    let mut i: usize = 0;
    while i < n
        invariant
            i <= n,
            s@ == old(s)@ + repeat_char(c, i as nat),
        decreases n - i,
    {
        s.push(c);
        i = i + 1;
        assert(s@ =~= old(s)@ + repeat_char(c, i as nat));
    }
}

/// The pieces of `s` between occurrences of `c`.
pub fn split_exec(s: &[char], c: char) -> (res: Vec<Vec<char>>)
    ensures
        views(res@) == split_on(s@, c),
        forall|k: int| 0 <= k < res@.len() ==> (#[trigger] res@[k])@.len() <= s@.len(),
{
    let mut res: Vec<Vec<char>> = Vec::new();
    let mut start: usize = 0;
    assert(s@.subrange(0, s@.len() as int) == s@);
    assert(views(res@) =~= Seq::<Seq<char>>::empty());
    loop
        invariant
            start <= s@.len(),
            views(res@) + split_on(s@.subrange(start as int, s@.len() as int), c) == split_on(s@, c),
            forall|k: int| 0 <= k < res@.len() ==> (#[trigger] res@[k])@.len() <= s@.len(),
        decreases s@.len() - start,
    {
        let ghost rest = s@.subrange(start as int, s@.len() as int);
        let mut i = start;
        while i < s.len() && s[i] != c
            invariant
                start <= i <= s@.len(),
                forall|j: int| start <= j < i ==> s@[j] != c,
            decreases s@.len() - i,
        {
            i = i + 1;
        }
        let piece = slice_chars(s, start, i);
        let ghost old_res = res@;
        res.push(piece);
        assert(views(res@) =~= views(old_res).push(piece@));
        if i < s.len() {
            proof {
                lemma_find_char_is(rest, c, i - start);
                assert(rest.subrange(0, i - start) == s@.subrange(start as int, i as int));
                assert(rest.subrange(i - start + 1, rest.len() as int) == s@.subrange(
                    i + 1,
                    s@.len() as int,
                ));
                assert(views(res@) + split_on(s@.subrange(i + 1, s@.len() as int), c) =~= views(old_res) + split_on(rest, c));
            }
            start = i + 1;
        } else {
            proof {
                lemma_find_char_none(rest, c);
                assert(piece@ == rest);
                assert(views(res@) =~= views(old_res) + split_on(rest, c));
            }
            return res;
        }
    }
}

/// Position of the first occurrence of `p` in `s`.
pub fn find_seq_exec(s: &[char], p: &[char]) -> (res: Option<usize>)
    ensures
        match res {
            Some(i) => contains_seq(s@, p@) && first_occurrence(s@, p@) == i && occurs_at(s@, p@, i as int),
            None => !contains_seq(s@, p@),
        },
{
    if p.len() > s.len() {
        assert forall|i: int| !occurs_at(s@, p@, i) by {}
        return None;
    }
    if p.len() == 0 {
        assert(s@.subrange(0, 0) =~= p@);
        assert(occurs_at(s@, p@, 0));
        let ghost f = first_occurrence(s@, p@);
        assert(occurs_at(s@, p@, f) && forall|j: int| 0 <= j < f ==> !occurs_at(s@, p@, j));
        return Some(0);
    }
    let mut i: usize = 0;
    while i <= s.len() - p.len()
        invariant
            0 < p@.len() <= s@.len(),
            i <= s@.len() - p@.len() + 1,
            forall|j: int| 0 <= j < i ==> !occurs_at(s@, p@, j),
        decreases s@.len() - p@.len() + 1 - i,
    {
        let mut k: usize = 0;
        let mut matched = true;
        while k < p.len()
            invariant
                i + p@.len() <= s@.len(),
                k <= p@.len(),
                matched ==> forall|m: int| 0 <= m < k ==> s@[i + m] == p@[m],
                !matched ==> !occurs_at(s@, p@, i as int),
            decreases p@.len() - k,
        {
            assert(i + k < s@.len());
            assert(s@.len() == s.len());
            let idx: usize = i + k;
            if matched && s[idx] != p[k] {
                matched = false;
                assert(s@.subrange(i as int, i + p@.len())[k as int] == s@[i + k]);
            }
            k = k + 1;
        }
        if matched {
            assert(s@.subrange(i as int, i + p@.len()) =~= p@);
            let ghost f = first_occurrence(s@, p@);
            assert(occurs_at(s@, p@, i as int));
            assert(occurs_at(s@, p@, f) && forall|j: int| 0 <= j < f ==> !occurs_at(s@, p@, j));
            assert(f == i) by {
                if f < i {
                } else if f > i {
                }
            }
            return Some(i);
        }
        i = i + 1;
    }
    assert forall|j: int| !occurs_at(s@, p@, j) by {
        if occurs_at(s@, p@, j) {
            assert(j < i);
        }
    }
    None
}

/// `s` with its first occurrence of `p` replaced by `r`.
#[verifier::spinoff_prover]
#[verifier::rlimit(50)]
pub fn replace_first_exec(s: &[char], p: &[char], r: &[char]) -> (res: Vec<char>)
    ensures
        res@ == replace_first(s@, p@, r@),
{
    match find_seq_exec(s, p) {
        Some(i) => {
            let n = s.len();
            assert(i + p@.len() <= n);
            let mut out = slice_chars(s, 0, i);
            push_all(&mut out, r);
            let tail = slice_chars(s, i + p.len(), s.len());
            push_all(&mut out, &tail);
            proof {
                lemma_replace_first_at(s@, p@, r@, i as int);
            }
            out
        },
        None => {
            let out = slice_chars_all(s);
            out
        },
    }
}

proof fn lemma_replace_first_at(s: Seq<char>, p: Seq<char>, r: Seq<char>, i: int)
    requires
        contains_seq(s, p),
        first_occurrence(s, p) == i,
    ensures
        replace_first(s, p, r) == s.subrange(0, i) + r + s.subrange(i + p.len(), s.len() as int),
{
}

/// A copy of `s`.
pub fn slice_chars_all(s: &[char]) -> (res: Vec<char>)
    ensures
        res@ == s@,
{
    let r = slice_chars(s, 0, s.len());
    assert(s@.subrange(0, s@.len() as int) == s@);
    r
}

/// The lines `ls` joined by `sep`.
pub fn join_exec(ls: &Vec<Vec<char>>, sep: char) -> (res: Vec<char>)
    ensures
        res@ == join(views(ls@), seq![sep]),
{
    let mut res: Vec<char> = Vec::new();
    let mut i: usize = 0;
    assert(views(ls@).subrange(0, 0) =~= Seq::<Seq<char>>::empty());
    while i < ls.len()
        invariant
            i <= ls@.len(),
            res@ == join(views(ls@).subrange(0, i as int), seq![sep]),
        decreases ls@.len() - i,
    {
        let ghost pre = views(ls@).subrange(0, i as int);
        let ghost next = views(ls@).subrange(0, i + 1);
        assert(next.drop_last() =~= pre);
        assert(next.last() == ls@[i as int]@);
        if i > 0 {
            res.push(sep);
        }
        push_all(&mut res, &ls[i]);
        proof {
            if i == 0 {
                assert(res@ =~= next[0]);
            } else {
                assert(res@ =~= join(pre, seq![sep]) + seq![sep] + next.last());
            }
        }
        i = i + 1;
    }
    assert(views(ls@).subrange(0, ls@.len() as int) =~= views(ls@));
    res
}

} // verus!
