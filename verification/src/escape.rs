//! Quoting of text values in the Markdown format: escaping, unescaping,
//! and the test for a quoted value that continues on the next line.
use vstd::prelude::*;
use crate::text::{slice_chars_all, trim, trim_exec};

verus! {

/// The escaped form of one character.
pub open spec fn escape_char(c: char) -> Seq<char> {
    if c == '\\' {
        seq!['\\', '\\']
    } else if c == '"' {
        seq!['\\', '"']
    } else if c == '\n' {
        seq!['\\', 'n']
    } else if c == '\r' {
        seq!['\\', 'r']
    } else {
        seq![c]
    }
}

/// `s` with backslashes, double quotes, line feeds and carriage returns
/// written as two-character escapes.
pub open spec fn escape(s: Seq<char>) -> Seq<char>
    decreases s.len(),
{
    if s.len() == 0 {
        Seq::empty()
    } else {
        escape_char(s[0]) + escape(s.drop_first())
    }
}

/// What a backslash followed by `d` stands for.
pub open spec fn unescape_pair(d: char) -> Seq<char> {
    if d == 'n' {
        seq!['\n']
    } else if d == 'r' {
        seq!['\r']
    } else if d == 't' {
        seq!['\t']
    } else if d == '"' {
        seq!['"']
    } else if d == '\\' {
        seq!['\\']
    } else {
        seq!['\\', d]
    }
}

/// `s` with the escapes `\n`, `\r`, `\t`, `\"` and `\\` replaced by what
/// they stand for; any other backslash is kept.
pub open spec fn unescape(s: Seq<char>) -> Seq<char>
    decreases s.len(),
{
    if s.len() == 0 {
        Seq::empty()
    } else if s[0] == '\\' {
        if s.len() == 1 {
            seq!['\\']
        } else {
            unescape_pair(s[1]) + unescape(s.subrange(2, s.len() as int))
        }
    } else {
        seq![s[0]] + unescape(s.drop_first())
    }
}

/// The number of double quotes in `s` that no backslash escapes, reading
/// from the front with the escape state `escaped`.
pub open spec fn count_quotes(s: Seq<char>, escaped: bool) -> nat
    decreases s.len(),
{
    if s.len() == 0 {
        0
    } else if escaped {
        count_quotes(s.drop_first(), false)
    } else if s[0] == '\\' {
        count_quotes(s.drop_first(), true)
    } else if s[0] == '"' {
        1 + count_quotes(s.drop_first(), false)
    } else {
        count_quotes(s.drop_first(), false)
    }
}

/// Whether a value opens a quoted text that is not closed: after trimming
/// it starts with a double quote and holds an odd number of unescaped ones.
pub open spec fn unclosed_spec(s: Seq<char>) -> bool {
    let t = trim(s);
    t.len() > 0 && t[0] == '"' && count_quotes(t, false) % 2 == 1
}

pub proof fn lemma_escape_push(s: Seq<char>, c: char)
    ensures
        escape(s.push(c)) == escape(s) + escape_char(c),
    decreases s.len(),
{
    if s.len() == 0 {
        assert(s.push(c).drop_first() =~= Seq::<char>::empty());
        assert(escape(s.push(c)) == escape_char(c) + escape(s.push(c).drop_first()));
        assert(escape(Seq::<char>::empty()) =~= Seq::<char>::empty());
        assert(escape(s) =~= Seq::<char>::empty());
        assert(escape(s.push(c)) =~= escape(s) + escape_char(c));
    } else {
        lemma_escape_push(s.drop_first(), c);
        assert(s.push(c).drop_first() =~= s.drop_first().push(c));
        assert(escape(s.push(c)) =~= escape(s) + escape_char(c));
    }
}

/// Unescaping undoes escaping.
pub proof fn lemma_unescape_escape(s: Seq<char>)
    ensures
        unescape(escape(s)) == s,
    decreases s.len(),
{
    if s.len() > 0 {
        lemma_unescape_escape(s.drop_first());
        let e = escape(s);
        let c = s[0];
        let r = escape(s.drop_first());
        assert(e == escape_char(c) + r);
        if c == '\\' || c == '"' || c == '\n' || c == '\r' {
            assert(e[0] == '\\');
            assert(e.subrange(2, e.len() as int) =~= r);
        } else {
            assert(e.drop_first() =~= r);
        }
        assert(unescape(e) =~= s);
    }
}

/// Escaped text holds no unescaped quote and ends outside an escape.
pub proof fn lemma_count_quotes_escape(s: Seq<char>, tail: Seq<char>)
    ensures
        count_quotes(escape(s) + tail, false) == count_quotes(tail, false),
    decreases s.len(),
{
    if s.len() > 0 {
        lemma_count_quotes_escape(s.drop_first(), tail);
        let c = s[0];
        let r = escape(s.drop_first()) + tail;
        let e = escape(s) + tail;
        assert(e =~= escape_char(c) + r);
        if c == '\\' || c == '"' || c == '\n' || c == '\r' {
            assert(e[0] == '\\');
            assert(e.drop_first().drop_first() =~= r);
            assert(count_quotes(e, false) == count_quotes(e.drop_first(), true));
            assert(count_quotes(e.drop_first(), true) == count_quotes(e.drop_first().drop_first(), false));
        } else {
            assert(e[0] == c);
            assert(e.drop_first() =~= r);
            assert(count_quotes(e, false) == count_quotes(e.drop_first(), false));
        }
    }
}

/// Escaped text holds no line feed and no carriage return.
pub proof fn lemma_escape_no_breaks(s: Seq<char>)
    ensures
        forall|i: int| 0 <= i < escape(s).len() ==> escape(s)[i] != '\n' && escape(s)[i] != '\r',
    decreases s.len(),
{
    if s.len() > 0 {
        lemma_escape_no_breaks(s.drop_first());
        let e = escape(s);
        let r = escape(s.drop_first());
        assert(e == escape_char(s[0]) + r);
        assert forall|i: int| 0 <= i < e.len() implies e[i] != '\n' && e[i] != '\r' by {
            if i >= escape_char(s[0]).len() {
                assert(e[i] == r[i - escape_char(s[0]).len()]);
            }
        }
    }
}

/// `s` escaped.
pub fn escape_string(s: &[char]) -> (res: Vec<char>)
    ensures
        res@ == escape(s@),
{
    let mut out: Vec<char> = Vec::new();
    let mut i: usize = 0;
    assert(s@.subrange(0, 0) =~= Seq::<char>::empty());
    while i < s.len()
        invariant
            i <= s@.len(),
            out@ == escape(s@.subrange(0, i as int)),
        decreases s@.len() - i,
    {
        let c = s[i];
        if c == '\\' {
            out.push('\\');
            out.push('\\');
        } else if c == '"' {
            out.push('\\');
            out.push('"');
        } else if c == '\n' {
            out.push('\\');
            out.push('n');
        } else if c == '\r' {
            out.push('\\');
            out.push('r');
        } else {
            out.push(c);
        }
        proof {
            lemma_escape_push(s@.subrange(0, i as int), c);
            assert(s@.subrange(0, i + 1) =~= s@.subrange(0, i as int).push(c));
        }
        i = i + 1;
        assert(out@ =~= escape(s@.subrange(0, i as int)));
    }
    assert(s@.subrange(0, s@.len() as int) =~= s@);
    out
}

/// `s` unescaped.
pub fn unescape_string(s: &[char]) -> (res: Vec<char>)
    ensures
        res@ == unescape(s@),
{
    let mut out: Vec<char> = Vec::new();
    let mut i: usize = 0;
    assert(s@.subrange(0, s@.len() as int) =~= s@);
    while i < s.len()
        invariant
            i <= s@.len(),
            out@ + unescape(s@.subrange(i as int, s@.len() as int)) == unescape(s@),
        decreases s@.len() - i,
    {
        let ghost rest = s@.subrange(i as int, s@.len() as int);
        let ghost before = out@;
        let c = s[i];
        if c == '\\' {
            if i + 1 < s.len() {
                let d = s[i + 1];
                if d == 'n' {
                    out.push('\n');
                } else if d == 'r' {
                    out.push('\r');
                } else if d == 't' {
                    out.push('\t');
                } else if d == '"' {
                    out.push('"');
                } else if d == '\\' {
                    out.push('\\');
                } else {
                    out.push('\\');
                    out.push(d);
                }
                proof {
                    assert(rest.subrange(2, rest.len() as int) =~= s@.subrange(i + 2, s@.len() as int));
                    assert(out@ =~= before + unescape_pair(d));
                }
                i = i + 2;
            } else {
                out.push('\\');
                proof {
                    assert(rest =~= seq!['\\']);
                    assert(s@.subrange(i + 1, s@.len() as int) =~= Seq::<char>::empty());
                }
                i = i + 1;
            }
        } else {
            out.push(c);
            proof {
                assert(rest.drop_first() =~= s@.subrange(i + 1, s@.len() as int));
                assert(out@ =~= before + seq![c]);
            }
            i = i + 1;
        }
    }
    assert(s@.subrange(i as int, s@.len() as int) =~= Seq::<char>::empty());
    assert(out@ + Seq::<char>::empty() =~= out@);
    out
}

/// Whether a value opens a quoted text that is not closed on its line.
pub fn is_value_unclosed_multiline(s: &[char]) -> (res: bool)
    ensures
        res == unclosed_spec(s@),
{
    let t = trim_exec(s);
    if t.len() == 0 || t[0] != '"' {
        return false;
    }
    let mut quote_count: usize = 0;
    let mut escaped = false;
    let mut i: usize = 0;
    assert(t@.subrange(0, t@.len() as int) =~= t@);
    while i < t.len()
        invariant
            i <= t@.len(),
            quote_count <= i,
            quote_count + count_quotes(t@.subrange(i as int, t@.len() as int), escaped) == count_quotes(t@, false),
        decreases t@.len() - i,
    {
        let ghost rest = t@.subrange(i as int, t@.len() as int);
        assert(rest.drop_first() =~= t@.subrange(i + 1, t@.len() as int));
        let c = t[i];
        if escaped {
            escaped = false;
        } else if c == '\\' {
            escaped = true;
        } else if c == '"' {
            quote_count = quote_count + 1;
        }
        i = i + 1;
    }
    assert(t@.subrange(i as int, t@.len() as int) =~= Seq::<char>::empty());
    quote_count % 2 == 1
}

} // verus!
