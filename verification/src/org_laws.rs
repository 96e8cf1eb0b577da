//! What reading a stored note back gives of storing it.
use vstd::prelude::*;
use crate::md_laws::{lemma_lines_terminated, no_breaks};
use crate::orgmode::{
    byte_boundary, decode_line, decode_line_ok, decode_ok, decode_spec, drop_bytes, encode_line, encode_spec,
    four_stars, six_spaces, three_stars, utf8_len,
};
use crate::records::terminated;
use crate::text::{find_char, has_prefix, is_ws, join, lemma_find_char_bounds, lines, strip_cr, trim_start};

verus! {

/// A line whose text starts with a star starts with it: the note's
/// headings are not indented.
pub open spec fn heading_flush(l: Seq<char>) -> bool {
    let t = trim_start(l);
    t.len() > 0 && t[0] == '*' ==> l.len() > 0 && l[0] == '*'
}

/// A note that storing and reading back leaves as it is: no carriage
/// return, no line feed at its end, and no indented heading.
pub open spec fn storable_note(s: Seq<char>) -> bool {
    &&& forall|i: int| 0 <= i < s.len() ==> s[i] != '\r'
    &&& (s.len() == 0 || s.last() != '\n')
    &&& forall|k: int| 0 <= k < lines(s).len() ==> heading_flush(#[trigger] lines(s)[k])
}

pub proof fn lemma_terminated_join(ls: Seq<Seq<char>>)
    requires
        ls.len() > 0,
    ensures
        terminated(ls) == join(ls, seq!['\n']) + seq!['\n'],
    decreases ls.len(),
{
    let f = |l: Seq<char>| l.push('\n');
    let dl = ls.drop_last();
    assert(ls.map_values(f) =~= dl.map_values(f).push(ls.last().push('\n')));
    dl.map_values(f).lemma_flatten_push(ls.last().push('\n'));
    if ls.len() == 1 {
        assert(dl.map_values(f) =~= Seq::<Seq<char>>::empty());
        assert(Seq::<Seq<char>>::empty().flatten() =~= Seq::<char>::empty());
        assert(terminated(ls) =~= join(ls, seq!['\n']) + seq!['\n']);
    } else {
        lemma_terminated_join(dl);
        assert(terminated(ls) =~= join(ls, seq!['\n']) + seq!['\n']);
    }
}

proof fn lemma_lines_newline_end(x: Seq<char>)
    requires
        x.len() > 0,
        x.last() != '\n',
        x.last() != '\r',
    ensures
        lines(x.push('\n')) == lines(x),
    decreases x.len(),
{
    let y = x.push('\n');
    lemma_find_char_bounds(x, '\n');
    match find_char(x, '\n') {
        None => {
            assert forall|j: int| 0 <= j < x.len() implies y[j] != '\n' by {
                assert(y[j] == x[j]);
            }
            crate::text::lemma_find_char_is(y, '\n', x.len() as int);
            assert(y.subrange(0, x.len() as int) =~= x);
            assert(y.subrange(x.len() as int + 1, y.len() as int) =~= Seq::<char>::empty());
            assert(strip_cr(x) == x);
            assert(lines(x) == seq![x]);
            assert(lines(Seq::<char>::empty()) == Seq::<Seq<char>>::empty());
            assert(lines(y) == seq![strip_cr(y.subrange(0, x.len() as int))] + lines(y.subrange(x.len() as int + 1, y.len() as int)));
            assert(lines(y) =~= seq![x]);
        },
        Some(i) => {
            assert(i < x.len() - 1);
            assert forall|j: int| 0 <= j < i implies y[j] != '\n' by {
                assert(y[j] == x[j]);
            }
            assert(y[i] == x[i]);
            crate::text::lemma_find_char_is(y, '\n', i);
            let b = x.subrange(i + 1, x.len() as int);
            assert(y.subrange(0, i) =~= x.subrange(0, i));
            assert(y.subrange(i + 1, y.len() as int) =~= b.push('\n'));
            assert(b.last() == x.last());
            lemma_lines_newline_end(b);
            assert(lines(y) == seq![strip_cr(y.subrange(0, i))] + lines(y.subrange(i + 1, y.len() as int)));
            assert(lines(x) == seq![strip_cr(x.subrange(0, i))] + lines(b));
        },
    }
}

/// Lines on one line each, the last not empty, read back from their join.
pub proof fn lemma_lines_join(ls: Seq<Seq<char>>)
    requires
        forall|k: int| 0 <= k < ls.len() ==> no_breaks(#[trigger] ls[k]),
        ls.len() > 0 ==> ls.last().len() > 0,
    ensures
        lines(join(ls, seq!['\n'])) == ls,
    decreases ls.len(),
{
    if ls.len() == 0 {
        assert(join(ls, seq!['\n']) =~= Seq::<char>::empty());
    } else {
        lemma_terminated_join(ls);
        lemma_lines_terminated(ls);
        let x = join(ls, seq!['\n']);
        lemma_join_last(ls);
        assert(no_breaks(ls.last()));
        assert(ls.last().last() == ls.last()[ls.last().len() - 1]);
        assert(x.push('\n') =~= x + seq!['\n']);
        lemma_lines_newline_end(x);
    }
}

pub proof fn lemma_join_last(ls: Seq<Seq<char>>)
    requires
        ls.len() > 0,
        ls.last().len() > 0,
    ensures
        join(ls, seq!['\n']).len() > 0,
        join(ls, seq!['\n']).last() == ls.last().last(),
{
    if ls.len() > 1 {
        let x = join(ls, seq!['\n']);
        assert(x == join(ls.drop_last(), seq!['\n']) + seq!['\n'] + ls.last());
    }
}

pub proof fn lemma_join_cons(a: Seq<char>, ls: Seq<Seq<char>>)
    requires
        ls.len() > 0,
    ensures
        join(seq![a] + ls, seq!['\n']) == a + seq!['\n'] + join(ls, seq!['\n']),
    decreases ls.len(),
{
    let all = seq![a] + ls;
    if ls.len() == 1 {
        assert(all.drop_last() =~= seq![a]);
        assert(join(seq![a], seq!['\n']) == a);
        assert(all.last() == ls[0]);
        assert(join(all, seq!['\n']) == join(all.drop_last(), seq!['\n']) + seq!['\n'] + all.last());
        assert(join(all, seq!['\n']) =~= a + seq!['\n'] + ls[0]);
    } else {
        lemma_join_cons(a, ls.drop_last());
        assert(all.drop_last() =~= seq![a] + ls.drop_last());
        assert(all.last() == ls.last());
        assert(join(all, seq!['\n']) =~= a + seq!['\n'] + join(ls, seq!['\n']));
    }
}

/// A note without carriage returns and without a final line feed is the
/// join of its lines, each on one line, the last not empty.
pub proof fn lemma_join_lines(s: Seq<char>)
    requires
        forall|i: int| 0 <= i < s.len() ==> s[i] != '\r',
        s.len() == 0 || s.last() != '\n',
    ensures
        join(lines(s), seq!['\n']) == s,
        forall|k: int| 0 <= k < lines(s).len() ==> no_breaks(#[trigger] lines(s)[k]),
        lines(s).len() > 0 ==> lines(s).last().len() > 0,
    decreases s.len(),
{
    if s.len() > 0 {
        lemma_find_char_bounds(s, '\n');
        match find_char(s, '\n') {
            None => {
                assert(lines(s) == seq![s]);
                assert(no_breaks(s));
            },
            Some(i) => {
                let a = s.subrange(0, i);
                let b = s.subrange(i + 1, s.len() as int);
                assert(i < s.len() - 1);
                assert(b.last() == s.last());
                assert(strip_cr(a) == a) by {
                    if a.len() > 0 {
                        assert(a.last() == s[i - 1]);
                    }
                }
                assert(lines(s) == seq![a] + lines(b));
                lemma_join_lines(b);
                lemma_join_cons(a, lines(b));
                assert(s =~= a + seq!['\n'] + b);
                assert(no_breaks(a)) by {
                    assert forall|j: int| 0 <= j < a.len() implies a[j] != '\n' && a[j] != '\r' by {
                        assert(a[j] == s[j]);
                    }
                }
                assert forall|k: int| 0 <= k < lines(s).len() implies no_breaks(#[trigger] lines(s)[k]) by {
                    if k > 0 {
                        assert(lines(s)[k] == lines(b)[k - 1]);
                    }
                }
                assert(lines(s).last() == lines(b).last());
            },
        }
    }
}

pub proof fn lemma_trim_start_skip(p: Seq<char>, l: Seq<char>)
    requires
        forall|i: int| 0 <= i < p.len() ==> is_ws(p[i]),
    ensures
        trim_start(p + l) == trim_start(l),
    decreases p.len(),
{
    if p.len() > 0 {
        assert((p + l)[0] == p[0]);
        assert((p + l).drop_first() =~= p.drop_first() + l);
        lemma_trim_start_skip(p.drop_first(), l);
    } else {
        assert(p + l =~= l);
    }
}

/// One line stored and read back is itself.
pub proof fn lemma_line_round_trip(l: Seq<char>)
    requires
        no_breaks(l),
        heading_flush(l),
    ensures
        decode_line(encode_line(l)) == l,
        decode_line_ok(encode_line(l)),
        no_breaks(encode_line(l)),
        encode_line(l).len() == 0 <==> l.len() == 0,
{
    let t = trim_start(l);
    let e = encode_line(l);
    if t.len() > 0 && t[0] == '*' {
        assert(e == three_stars() + l);
        assert(e[0] == '*');
        assert(trim_start(e) == e);
        assert(e.subrange(0, 4) =~= four_stars()) by {
            assert(e[3] == l[0]);
        }
        assert(utf8_len('*') == 1) by {
            assert(('*' as u32) < 0x80);
        }
        let e1 = e.drop_first();
        let e2 = e1.drop_first();
        let e3 = e2.drop_first();
        assert(e3 =~= l);
        assert(drop_bytes(e, 3) == drop_bytes(e1, 2));
        assert(drop_bytes(e1, 2) == drop_bytes(e2, 1));
        assert(drop_bytes(e2, 1) == drop_bytes(e3, 0));
        assert(byte_boundary(e, 3) == byte_boundary(e1, 2));
        assert(byte_boundary(e1, 2) == byte_boundary(e2, 1));
        assert(byte_boundary(e2, 1) == byte_boundary(e3, 0));
        assert forall|i: int| 0 <= i < e.len() implies e[i] != '\n' && e[i] != '\r' by {
            if i >= 3 {
                assert(e[i] == l[i - 3]);
            }
        }
    } else if l.len() > 0 {
        assert(e == six_spaces() + l);
        lemma_trim_start_skip(six_spaces(), l);
        assert(!has_prefix(trim_start(e), four_stars())) by {
            if has_prefix(trim_start(e), four_stars()) {
                assert(t.subrange(0, 4)[0] == four_stars()[0]);
            }
        }
        assert(e.subrange(0, 6) =~= six_spaces());
        assert(e.subrange(6, e.len() as int) =~= l);
        assert forall|i: int| 0 <= i < e.len() implies e[i] != '\n' && e[i] != '\r' by {
            if i >= 6 {
                assert(e[i] == l[i - 6]);
            }
        }
    } else {
        assert(e.len() == 0);
        assert(trim_start(e) == e);
    }
}

/// Storing a note in the org document and reading it back gives the note:
/// for a note without carriage returns, without a final line feed and
/// without indented headings (`storable_note`), reading back is possible
/// (`decode_ok`) and gives the note again.
pub proof fn lemma_org_note_round_trip(s: Seq<char>)
    requires
        storable_note(s),
    ensures
        decode_ok(encode_spec(s)),
        decode_spec(encode_spec(s)) == s,
{
    let ls = lines(s);
    lemma_join_lines(s);
    let enc = |l: Seq<char>| encode_line(l);
    let dec = |l: Seq<char>| decode_line(l);
    let es = ls.map_values(enc);
    assert forall|k: int| 0 <= k < ls.len() implies decode_line(#[trigger] es[k]) == ls[k] && decode_line_ok(es[k])
        && no_breaks(es[k]) && (es[k].len() == 0 <==> ls[k].len() == 0) by {
        assert(no_breaks(ls[k]));
        assert(heading_flush(ls[k]));
        lemma_line_round_trip(ls[k]);
    }
    assert forall|k: int| 0 <= k < es.len() implies no_breaks(#[trigger] es[k]) by {
        assert(decode_line(es[k]) == ls[k]);
    }
    if es.len() > 0 {
        assert(es.last() == es[es.len() - 1]);
        assert(decode_line(es[es.len() - 1]) == ls[ls.len() - 1]);
    }
    lemma_lines_join(es);
    assert(encode_spec(s) == join(es, seq!['\n']));
    assert(lines(encode_spec(s)) == es);
    assert forall|i: int| 0 <= i < lines(encode_spec(s)).len() implies decode_line_ok(#[trigger] lines(encode_spec(s))[i]) by {
        assert(decode_line(es[i]) == ls[i]);
    }
    assert(es.map_values(dec) =~= ls) by {
        assert forall|k: int| 0 <= k < ls.len() implies es.map_values(dec)[k] == ls[k] by {
            assert(decode_line(es[k]) == ls[k]);
        }
    }
}

} // verus!
