//! Fitting a node title into at most two lines of a given width in
//! characters, ending a cut line with an ellipsis.
use vstd::prelude::*;
use crate::text::{chars_of, is_whitespace_char, is_ws, push_all, slice_chars, string_of, trim_start};

verus! {

/// The character that ends a cut line.
pub const ELLIPSIS_CHAR: char = '…';

/// `text` cut to `max` characters, the last of them an ellipsis; a limit
/// of one or none keeps the first character.
pub open spec fn truncate_spec(text: Seq<char>, max: nat) -> Seq<char> {
    if text.len() <= max {
        text
    } else if max <= 1 {
        text.subrange(0, 1)
    } else {
        text.subrange(0, max - 1).push('…')
    }
}

/// `text` cut to `max` characters with an ellipsis.
pub fn truncate_text_line(text: &[char], max_characters: usize) -> (res: Vec<char>)
    ensures
        res@ == truncate_spec(text@, max_characters as nat),
{
    if text.len() <= max_characters {
        slice_chars(text, 0, text.len())
    } else if max_characters <= 1 {
        slice_chars(text, 0, 1)
    } else {
        let mut truncated = slice_chars(text, 0, max_characters - 1);
        truncated.push(ELLIPSIS_CHAR);
        truncated
    }
}

/// The first `max` characters, a line feed, and the rest cut to `max`.
pub open spec fn split_two_spec(title: Seq<char>, max: nat) -> Seq<char> {
    let k = if title.len() < max { title.len() } else { max };
    title.subrange(0, k as int) + seq!['\n'] + truncate_spec(title.subrange(k as int, title.len() as int), max)
}

/// Breaks a title into two lines by characters.
pub fn split_characters_into_two_lines(title: &[char], max_chars_per_line: usize) -> (res: Vec<char>)
    ensures
        res@ == split_two_spec(title@, max_chars_per_line as nat),
{
    let k = if title.len() < max_chars_per_line { title.len() } else { max_chars_per_line };
    let mut out = slice_chars(title, 0, k);
    out.push('\n');
    let rest = slice_chars(title, k, title.len());
    let second = truncate_text_line(&rest, max_chars_per_line);
    push_all(&mut out, &second);
    assert(out@ =~= split_two_spec(title@, max_chars_per_line as nat));
    out
}

/// The words joined by single spaces.
pub open spec fn join_words(ws: Seq<Seq<char>>) -> Seq<char> {
    crate::text::join(ws, seq![' '])
}

/// The first line built from words `i..` while each added word keeps it
/// within `max` characters: the line and the number of words taken.
pub open spec fn first_line_scan(words: Seq<Seq<char>>, max: nat, i: int, line: Seq<char>) -> (Seq<char>, int)
    decreases words.len() - i,
{
    if i < 0 || i >= words.len() {
        (line, i)
    } else {
        let w = words[i];
        let proposed = if line.len() == 0 { w.len() } else { line.len() + 1 + w.len() };
        if proposed <= max {
            first_line_scan(words, max, i + 1, if line.len() == 0 { w } else { line + seq![' '] + w })
        } else {
            (line, i)
        }
    }
}

/// Two lines by words: as many words as fit on the first line, the rest,
/// cut to `max`, on the second; none when all or no words fit.
pub open spec fn wrap_words_spec(words: Seq<Seq<char>>, max: nat) -> Option<Seq<char>> {
    let (line, split) = first_line_scan(words, max, 0, Seq::empty());
    if 0 < split < words.len() {
        Some(line + seq!['\n'] + truncate_spec(join_words(words.subrange(split, words.len() as int)), max))
    } else {
        None
    }
}

/// Breaks words into two lines.
pub fn wrap_words_into_two_lines(words: &Vec<Vec<char>>, max_chars_per_line: usize) -> (res: Option<Vec<char>>)
    ensures
        match res {
            Some(r) => wrap_words_spec(crate::text::views(words@), max_chars_per_line as nat) == Some(r@),
            None => wrap_words_spec(crate::text::views(words@), max_chars_per_line as nat) == None::<Seq<char>>,
        },
{
    let ghost ws = crate::text::views(words@);
    let mut first_line: Vec<char> = Vec::new();
    let mut split_index: usize = 0;
    let mut done = false;
    while !done && split_index < words.len()
        invariant
            split_index <= words@.len(),
            ws == crate::text::views(words@),
            first_line_scan(ws, max_chars_per_line as nat, 0, Seq::empty()) == (if done {
                (first_line@, split_index as int)
            } else {
                first_line_scan(ws, max_chars_per_line as nat, split_index as int, first_line@)
            }),
        decreases words@.len() - split_index + (if done { 0int } else { 1int }),
    {
        let word = &words[split_index];
        assert(word@ == ws[split_index as int]);
        let fits = if first_line.len() == 0 {
            word.len() <= max_chars_per_line
        } else {
            first_line.len() < max_chars_per_line && word.len() <= max_chars_per_line - first_line.len() - 1
        };
        let ghost old_line = first_line@;
        if fits {
            if first_line.len() > 0 {
                first_line.push(' ');
            }
            push_all(&mut first_line, word);
            proof {
                let nl = if old_line.len() == 0 { word@ } else { old_line + seq![' '] + word@ };
                assert(first_line@ =~= nl);
                assert(first_line_scan(ws, max_chars_per_line as nat, split_index as int, old_line)
                    == first_line_scan(ws, max_chars_per_line as nat, split_index + 1, nl));
            }
            split_index = split_index + 1;
        } else {
            done = true;
        }
    }
    proof {
        if !done {
            assert(first_line_scan(ws, max_chars_per_line as nat, split_index as int, first_line@) == (first_line@, split_index as int));
        }
    }
    if split_index > 0 && split_index < words.len() {
        let mut rest: Vec<char> = Vec::new();
        let mut k = split_index;
        let ghost tail = ws.subrange(split_index as int, ws.len() as int);
        assert(tail.subrange(0, 0) =~= Seq::<Seq<char>>::empty());
        while k < words.len()
            invariant
                split_index <= k <= words@.len(),
                ws == crate::text::views(words@),
                tail == ws.subrange(split_index as int, ws.len() as int),
                rest@ == join_words(tail.subrange(0, k - split_index)),
            decreases words@.len() - k,
        {
            let ghost pre = tail.subrange(0, k - split_index);
            let ghost next = tail.subrange(0, k - split_index + 1);
            assert(next.drop_last() =~= pre);
            assert(next.last() == words@[k as int]@);
            if k > split_index {
                rest.push(' ');
            }
            push_all(&mut rest, &words[k]);
            proof {
                if k == split_index {
                    assert(rest@ =~= next[0]);
                } else {
                    assert(rest@ =~= join_words(pre) + seq![' '] + next.last());
                }
            }
            k = k + 1;
        }
        assert(tail.subrange(0, k - split_index) =~= tail);
        let second = truncate_text_line(&rest, max_chars_per_line);
        first_line.push('\n');
        push_all(&mut first_line, &second);
        Some(first_line)
    } else {
        None
    }
}

/// The words of `s`: its maximal runs of characters that are not white
/// space, as `str::split_whitespace` yields them.
pub open spec fn words_of(s: Seq<char>) -> Seq<Seq<char>>
    decreases s.len(),
{
    let t = trim_start(s);
    if t.len() == 0 {
        Seq::empty()
    } else {
        proof {
            crate::text::lemma_trim_start_is(s);
            lemma_word_len_pos(t);
        }
        let w = t.subrange(0, word_len(t) as int);
        seq![w] + words_of(t.subrange(word_len(t) as int, t.len() as int))
    }
}

/// The number of leading characters of `t` that are not white space.
pub open spec fn word_len(t: Seq<char>) -> nat
    decreases t.len(),
{
    if t.len() > 0 && !is_ws(t[0]) {
        1 + word_len(t.drop_first())
    } else {
        0
    }
}

pub proof fn lemma_word_len_pos(t: Seq<char>)
    requires
        t.len() > 0,
        !is_ws(t[0]),
    ensures
        0 < word_len(t) <= t.len(),
{
    lemma_word_len_bound(t);
}

pub proof fn lemma_word_len_bound(t: Seq<char>)
    ensures
        word_len(t) <= t.len(),
        forall|j: int| 0 <= j < word_len(t) ==> !is_ws(#[trigger] t[j]),
        word_len(t) < t.len() ==> is_ws(t[word_len(t) as int]),
    decreases t.len(),
{
    if t.len() > 0 && !is_ws(t[0]) {
        lemma_word_len_bound(t.drop_first());
        assert forall|j: int| 0 <= j < word_len(t) implies !is_ws(#[trigger] t[j]) by {
            if j > 0 {
                assert(t[j] == t.drop_first()[j - 1]);
            }
        }
    }
}

/// The words of `s`.
pub fn split_whitespace(s: &[char]) -> (res: Vec<Vec<char>>)
    ensures
        crate::text::views(res@) == words_of(s@),
{
    let mut res: Vec<Vec<char>> = Vec::new();
    let mut i: usize = 0;
    assert(s@.subrange(0, s@.len() as int) =~= s@);
    assert(crate::text::views(res@) =~= Seq::<Seq<char>>::empty());
    while i < s.len()
        invariant
            i <= s@.len(),
            crate::text::views(res@) + words_of(s@.subrange(i as int, s@.len() as int)) == words_of(s@),
        decreases s@.len() - i,
    {
        let ghost rest = s@.subrange(i as int, s@.len() as int);
        let mut a = i;
        while a < s.len() && is_whitespace_char(s[a])
            invariant
                i <= a <= s@.len(),
                trim_start(rest) == trim_start(s@.subrange(a as int, s@.len() as int)),
            decreases s@.len() - a,
        {
            assert(s@.subrange(a as int, s@.len() as int).drop_first() =~= s@.subrange(a + 1, s@.len() as int));
            a = a + 1;
        }
        assert(trim_start(s@.subrange(a as int, s@.len() as int)) == s@.subrange(a as int, s@.len() as int)) by {
            if a < s@.len() {
                assert(s@.subrange(a as int, s@.len() as int)[0] == s@[a as int]);
            }
        }
        if a == s.len() {
            assert(trim_start(rest).len() == 0);
            assert(words_of(rest) =~= Seq::<Seq<char>>::empty());
            i = a;
            assert(s@.subrange(i as int, s@.len() as int).len() == 0);
            assert(words_of(s@.subrange(i as int, s@.len() as int)) =~= Seq::<Seq<char>>::empty());
        } else {
            let mut b = a;
            let ghost t = s@.subrange(a as int, s@.len() as int);
            assert(t.subrange(0, 0) =~= Seq::<char>::empty());
            while b < s.len() && !is_whitespace_char(s[b])
                invariant
                    a <= b <= s@.len(),
                    t == s@.subrange(a as int, s@.len() as int),
                    word_len(t) == (b - a) + word_len(s@.subrange(b as int, s@.len() as int)),
                decreases s@.len() - b,
            {
                assert(s@.subrange(b as int, s@.len() as int).drop_first() =~= s@.subrange(b + 1, s@.len() as int));
                b = b + 1;
            }
            assert(word_len(s@.subrange(b as int, s@.len() as int)) == 0);
            let w = slice_chars(s, a, b);
            proof {
                assert(w@ =~= t.subrange(0, word_len(t) as int));
                assert(t.subrange(word_len(t) as int, t.len() as int) =~= s@.subrange(b as int, s@.len() as int));
            }
            let ghost before = crate::text::views(res@);
            res.push(w);
            assert(crate::text::views(res@) =~= before.push(w@));
            i = b;
        }
    }
    assert(s@.subrange(i as int, s@.len() as int).len() == 0);
    assert(words_of(s@.subrange(i as int, s@.len() as int)) =~= Seq::<Seq<char>>::empty());
    assert(crate::text::views(res@) + Seq::<Seq<char>>::empty() =~= crate::text::views(res@));
    res
}

/// A title laid out in at most two lines of `max` characters: kept when
/// it fits, else broken at words when that works, else by characters.
pub open spec fn title_lines_spec(title: Seq<char>, max: nat) -> Seq<char> {
    if title.len() <= max {
        title
    } else {
        let words = words_of(title);
        if words.len() > 1 && wrap_words_spec(words, max) is Some {
            wrap_words_spec(words, max)->0
        } else {
            split_two_spec(title, max)
        }
    }
}

/// A title laid out in at most two lines of `max_chars` characters.
pub fn format_title_into_lines(title: &str, max_chars: usize) -> (res: String)
    ensures
        res@ == title_lines_spec(title@, max_chars as nat),
{
    let cs = chars_of(title);
    if cs.len() <= max_chars {
        return string_of(&cs);
    }
    let words = split_whitespace(&cs);
    if words.len() > 1 {
        if let Some(wrapped) = wrap_words_into_two_lines(&words, max_chars) {
            return string_of(&wrapped);
        }
    }
    string_of(&split_characters_into_two_lines(&cs, max_chars))
}

/// Every word is at least one character long.
pub proof fn lemma_words_nonempty(s: Seq<char>)
    ensures
        forall|k: int| 0 <= k < words_of(s).len() ==> (#[trigger] words_of(s)[k]).len() > 0,
    decreases s.len(),
{
    let t = trim_start(s);
    if t.len() > 0 {
        crate::text::lemma_trim_start_is(s);
        crate::org_round_trip::lemma_trim_start_first(s);
        lemma_word_len_pos(t);
        let rest = t.subrange(word_len(t) as int, t.len() as int);
        lemma_words_nonempty(rest);
        assert forall|k: int| 0 <= k < words_of(s).len() implies (#[trigger] words_of(s)[k]).len() > 0 by {
            if k > 0 {
                assert(words_of(s)[k] == words_of(rest)[k - 1]);
            }
        }
    }
}

/// Words joined by spaces, one more word on the end.
proof fn lemma_join_words_push(ws: Seq<Seq<char>>, i: int)
    requires
        1 <= i < ws.len(),
    ensures
        join_words(ws.subrange(0, i + 1)) == join_words(ws.subrange(0, i)) + seq![' '] + ws[i],
        join_words(ws.subrange(0, i + 1)).len() == join_words(ws.subrange(0, i)).len() + 1 + ws[i].len(),
{
    let a = ws.subrange(0, i + 1);
    assert(a.drop_last() =~= ws.subrange(0, i));
    assert(a.last() == ws[i]);
}

/// Words joined by spaces: the first `i` of them, `i` at least one, are
/// no shorter than the first.
proof fn lemma_join_words_nonempty(ws: Seq<Seq<char>>, i: int)
    requires
        1 <= i <= ws.len(),
        ws[0].len() > 0,
    ensures
        join_words(ws.subrange(0, i)).len() > 0,
    decreases i,
{
    if i == 1 {
        assert(ws.subrange(0, 1) =~= seq![ws[0]]);
    } else {
        lemma_join_words_nonempty(ws, i - 1);
        lemma_join_words_push(ws, i - 1);
    }
}

/// Filling the first line from word `i` on, holding the first `i` words:
/// it ends holding the first `k` words, as many as fit.
proof fn lemma_first_line_scan_words(words: Seq<Seq<char>>, max: nat, i: int)
    requires
        1 <= i <= words.len(),
        words[0].len() > 0,
        join_words(words.subrange(0, i)).len() <= max,
    ensures
        ({
            let (line, k) = first_line_scan(words, max, i, join_words(words.subrange(0, i)));
            &&& i <= k <= words.len()
            &&& line == join_words(words.subrange(0, k))
            &&& line.len() <= max
            &&& k < words.len() ==> join_words(words.subrange(0, k + 1)).len() > max
        }),
    decreases words.len() - i,
{
    if i < words.len() {
        let line = join_words(words.subrange(0, i));
        lemma_join_words_nonempty(words, i);
        lemma_join_words_push(words, i);
        if line.len() + 1 + words[i].len() <= max {
            lemma_first_line_scan_words(words, max, i + 1);
        }
    }
}

/// A title too long for one line, with at least two words, whose first
/// word fits and whose words do not all fit on one line, is broken only
/// between words: its first line holds the first `k` words, as many as
/// fit, and the second line the remaining words, cut to the width.
pub proof fn lemma_title_breaks_at_words(title: Seq<char>, max: nat)
    requires
        title.len() > max,
        words_of(title).len() >= 2,
        words_of(title)[0].len() <= max,
        join_words(words_of(title)).len() > max,
    ensures
        exists|k: int|
            0 < k < words_of(title).len() && join_words(words_of(title).subrange(0, k)).len() <= max
                && join_words(words_of(title).subrange(0, k + 1)).len() > max && title_lines_spec(title, max)
                == join_words(words_of(title).subrange(0, k)) + seq!['\n'] + truncate_spec(
                join_words(words_of(title).subrange(k, words_of(title).len() as int)),
                max,
            ),
{
    let ws = words_of(title);
    lemma_words_nonempty(title);
    assert(ws[0].len() > 0);
    assert(ws.subrange(0, 1) =~= seq![ws[0]]);
    assert(join_words(ws.subrange(0, 1)) == ws[0]);
    assert(first_line_scan(ws, max, 0, Seq::empty()) == first_line_scan(ws, max, 1, ws[0]));
    lemma_first_line_scan_words(ws, max, 1);
    let (line, k) = first_line_scan(ws, max, 1, ws[0]);
    assert(ws.subrange(0, ws.len() as int) =~= ws);
    assert(k < ws.len());
    assert(wrap_words_spec(ws, max) == Some(line + seq!['\n'] + truncate_spec(join_words(ws.subrange(k, ws.len() as int)), max)));
}

} // verus!
