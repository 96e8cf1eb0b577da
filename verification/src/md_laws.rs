//! What reading a written Markdown document gives back.
use vstd::prelude::*;
use crate::escape::{
    count_quotes, escape, escape_char, lemma_count_quotes_escape, lemma_escape_no_breaks, lemma_unescape_escape,
    unclosed_spec, unescape,
};
use crate::ids::uuid_hyphenated;
use crate::markdown::{
    is_ignorable, md_finalize, md_finish, md_header_lines, md_init, md_kv_step, md_node_lines, md_records, md_render_spec,
    md_doc_lines, md_scan, md_step, section_prefix, MdState,
};
use crate::records::{
    bool_spec, clean_string_spec, kv_get, non_empty_trimmed, prereq_spec, quoted_uuid, requests_of, status_text_spec,
    trim_brackets, trim_bracket_end, trim_bracket_start, uuid_entry, uuid_list_spec, eq_ignore_ascii_case,
    bool_text, description_key, entry_line, id_key, image_id_key, is_collapsed_key, is_frozen_key, parent_list,
    position_key, position_text, prerequisites_key, progress_notes_key, quoted, status_key, terminated, true_text,
};
use crate::models::{has_node, parents_spec, Edge, FocusGraph, FocusNode};
use crate::rebuild::{graph_requests, lemma_added_nodes_distinct, lemma_parents_spec_members, lemma_rebuild_links};
use crate::records::{added_nodes, all_requests, item_nodes, link_all, link_ok, processed_matches, ProcessedNode};
use crate::reach::is_edge;
use crate::ids::{hex_char, uuid_nibble, uuid_simple};
use crate::text::{split_on, trim_matches_char, trim_start_char, trim_end_char, join, find_char, has_prefix, is_ws, lemma_find_char_bounds, lemma_find_char_is, lines, strip_cr, trim, trim_end, trim_start};

verus! {

/// No line feed and no carriage return in `l`.
pub open spec fn no_breaks(l: Seq<char>) -> bool {
    forall|i: int| 0 <= i < l.len() ==> l[i] != '\n' && l[i] != '\r'
}

pub proof fn lemma_terminated_cons(ls: Seq<Seq<char>>)
    requires
        ls.len() > 0,
    ensures
        terminated(ls) == ls[0] + seq!['\n'] + terminated(ls.drop_first()),
{
    let f = |l: Seq<char>| l.push('\n');
    let m = ls.map_values(f);
    assert(m.drop_first() =~= ls.drop_first().map_values(f));
    assert(m.first() == ls[0].push('\n'));
    assert(m.flatten() == m.first() + m.drop_first().flatten());
    assert(ls[0].push('\n') =~= ls[0] + seq!['\n']);
}

/// Lines written one per line feed read back as the same lines.
pub proof fn lemma_lines_terminated(ls: Seq<Seq<char>>)
    requires
        forall|k: int| 0 <= k < ls.len() ==> no_breaks(#[trigger] ls[k]),
    ensures
        lines(terminated(ls)) == ls,
    decreases ls.len(),
{
    if ls.len() == 0 {
        assert(terminated(ls) =~= Seq::<char>::empty());
    } else {
        lemma_terminated_cons(ls);
        let t = terminated(ls);
        let a = ls[0];
        let rest = terminated(ls.drop_first());
        assert(no_breaks(a));
        assert(t[a.len() as int] == '\n');
        assert forall|j: int| 0 <= j < a.len() implies t[j] != '\n' by {
            assert(t[j] == a[j]);
        }
        lemma_find_char_is(t, '\n', a.len() as int);
        assert(t.subrange(0, a.len() as int) =~= a);
        assert(t.subrange(a.len() as int + 1, t.len() as int) =~= rest);
        assert(strip_cr(a) == a) by {
            if a.len() > 0 {
                assert(a.last() == a[a.len() - 1]);
            }
        }
        assert forall|k: int| 0 <= k < ls.drop_first().len() implies no_breaks(#[trigger] ls.drop_first()[k]) by {
            assert(ls.drop_first()[k] == ls[k + 1]);
        }
        lemma_lines_terminated(ls.drop_first());
        assert(lines(t) == seq![strip_cr(t.subrange(0, a.len() as int))] + lines(t.subrange(a.len() as int + 1, t.len() as int)));
        assert(lines(t) =~= ls);
    }
}

/// Reading two runs of lines is reading the first, then the second.
pub proof fn lemma_md_scan_append(st: MdState, a: Seq<Seq<char>>, b: Seq<Seq<char>>)
    ensures
        md_scan(st, a + b) == md_scan(md_scan(st, a), b),
    decreases b.len(),
{
    if b.len() == 0 {
        assert(a + b =~= a);
    } else {
        lemma_md_scan_append(st, a, b.drop_last());
        assert((a + b).drop_last() =~= a + b.drop_last());
        assert((a + b).last() == b.last());
    }
}

/// Text without white space at its ends is its own trim.
pub proof fn lemma_trim_noop(s: Seq<char>)
    requires
        s.len() > 0,
        !is_ws(s[0]),
        !is_ws(s.last()),
    ensures
        trim(s) == s,
{
    assert(trim_start(s) == s);
    assert(trim_end(s) == s);
}

/// Text that starts with a space, then has no white space at its ends.
pub proof fn lemma_trim_space(s: Seq<char>)
    requires
        s.len() > 0,
        !is_ws(s[0]),
        !is_ws(s.last()),
    ensures
        trim(seq![' '] + s) == s,
{
    let t = seq![' '] + s;
    assert(t.drop_first() =~= s);
    assert(trim_start(t) == trim_start(s));
    lemma_trim_noop(s);
    assert(trim_start(s) == s);
    assert(trim_end(s) == s);
}

/// A key or value that a written entry line carries through reading.
pub open spec fn plain_ends(v: Seq<char>) -> bool {
    v.len() > 0 && !is_ws(v[0]) && !is_ws(v.last()) && no_breaks(v)
}

/// An entry that reads back as written.
pub open spec fn readable_entry(key: Seq<char>, val: Seq<char>) -> bool {
    &&& plain_ends(key)
    &&& forall|i: int| 0 <= i < key.len() ==> key[i] != ':'
    &&& plain_ends(val)
    &&& !unclosed_spec(val)
}

proof fn lemma_md_scan_one(st: MdState, l: Seq<char>)
    ensures
        md_scan(st, seq![l]) == md_step(st, l),
{
    assert(seq![l].drop_last() =~= Seq::<Seq<char>>::empty());
    assert(md_scan(st, Seq::<Seq<char>>::empty()) == st);
    assert(seq![l].last() == l);
    assert(md_scan(st, seq![l]) == md_step(md_scan(st, seq![l].drop_last()), seq![l].last()));
}

/// An entry line adds its entry.
pub proof fn lemma_entry_step(st: MdState, key: Seq<char>, val: Seq<char>)
    requires
        st.ml_key is None,
        readable_entry(key, val),
    ensures
        md_step(st, entry_line(key, val)) == (MdState { kv: st.kv.push((key, val)), ..st }),
{
    let l = entry_line(key, val);
    assert(l[0] == '-');
    assert(l.last() == val.last());
    lemma_trim_noop(l);
    assert(!is_ignorable(l));
    assert(!has_prefix(l, section_prefix())) by {
        assert(l.subrange(0, 3)[0] == '-');
    }
    let item = l.drop_first();
    let body = key + seq![':', ' '] + val;
    assert(item =~= seq![' '] + body);
    assert(body[0] == key[0]);
    assert(body.last() == val.last());
    lemma_trim_space(body);
    assert forall|j: int| 0 <= j < key.len() implies body[j] != ':' by {
        assert(body[j] == key[j]);
    }
    assert(body[key.len() as int] == ':');
    lemma_find_char_is(body, ':', key.len() as int);
    assert(body.subrange(0, key.len() as int) =~= key);
    assert(body.subrange(key.len() as int + 1, body.len() as int) =~= seq![' '] + val);
    lemma_trim_noop(key);
    lemma_trim_space(val);
}

/// The lines of a run of entries.
pub open spec fn entry_lines(kv: Seq<(Seq<char>, Seq<char>)>) -> Seq<Seq<char>> {
    kv.map_values(|e: (Seq<char>, Seq<char>)| entry_line(e.0, e.1))
}

/// A run of entry lines adds its entries, in order.
pub proof fn lemma_entries_scan(st: MdState, kv: Seq<(Seq<char>, Seq<char>)>)
    requires
        st.ml_key is None,
        forall|k: int| 0 <= k < kv.len() ==> readable_entry(#[trigger] kv[k].0, kv[k].1),
    ensures
        md_scan(st, entry_lines(kv)) == (MdState { kv: st.kv + kv, ..st }),
    decreases kv.len(),
{
    if kv.len() == 0 {
        assert(entry_lines(kv) =~= Seq::<Seq<char>>::empty());
        assert(st.kv + kv =~= st.kv);
    } else {
        let pre = kv.drop_last();
        assert forall|k: int| 0 <= k < pre.len() implies readable_entry(#[trigger] pre[k].0, pre[k].1) by {
            assert(pre[k] == kv[k]);
        }
        lemma_entries_scan(st, pre);
        assert(entry_lines(kv).drop_last() =~= entry_lines(pre));
        let mid = MdState { kv: st.kv + pre, ..st };
        assert(readable_entry(kv[kv.len() - 1].0, kv[kv.len() - 1].1));
        lemma_entry_step(mid, kv.last().0, kv.last().1);
        assert(st.kv + pre + seq![kv.last()] =~= st.kv + kv);
        assert((st.kv + pre).push(kv.last()) =~= st.kv + kv);
    }
}

/// An empty line changes nothing.
pub proof fn lemma_blank_step(st: MdState)
    requires
        st.ml_key is None,
    ensures
        md_step(st, Seq::<char>::empty()) == st,
{
    assert(trim(Seq::<char>::empty()) =~= Seq::<char>::empty());
}

/// The document heading changes nothing.
pub proof fn lemma_header_scan()
    ensures
        md_scan(md_init(), md_header_lines()) == md_init(),
{
    let h = md_header_lines()[0];
    assert(h[0] == '#');
    assert(h.last() == 'e');
    lemma_trim_noop(h);
    assert(!has_prefix(h, section_prefix())) by {
        assert(h.subrange(0, 3)[1] == ' ');
    }
    assert(md_step(md_init(), h) == md_init());
    lemma_blank_step(md_init());
    assert(md_header_lines() =~= seq![h] + seq![Seq::<char>::empty()]);
    lemma_md_scan_append(md_init(), seq![h], seq![Seq::<char>::empty()]);
    lemma_md_scan_one(md_init(), h);
    lemma_md_scan_one(md_init(), Seq::<char>::empty());
}

pub proof fn lemma_escape_last(s: Seq<char>)
    requires
        s.len() > 0,
    ensures
        escape(s) == escape(s.drop_last()) + escape_char(s.last()),
{
    crate::escape::lemma_escape_push(s.drop_last(), s.last());
    assert(s.drop_last().push(s.last()) =~= s);
}

/// Escaped text keeps ends that are not white space.
pub proof fn lemma_escape_ends(s: Seq<char>)
    requires
        s.len() > 0,
        !is_ws(s[0]),
        !is_ws(s.last()),
    ensures
        escape(s).len() > 0,
        !is_ws(escape(s)[0]),
        !is_ws(escape(s).last()),
        escape(s)[0] != '"',
        s.last() != '"' ==> escape(s).last() != '"',
{
    assert(escape(s) == escape_char(s[0]) + escape(s.drop_first()));
    lemma_escape_last(s);
}

/// A section heading closes the open section and opens a new one.
pub proof fn lemma_title_step(st: MdState, title: Seq<char>)
    requires
        st.ml_key is None,
        title.len() > 0,
        !is_ws(title[0]),
        !is_ws(title.last()),
    ensures
        md_step(st, section_prefix() + escape(title)) == (MdState { title: Some(title), ..md_finalize(st) }),
{
    let e = escape(title);
    lemma_escape_ends(title);
    let l = section_prefix() + e;
    assert(l[0] == '#');
    assert(l.last() == e.last());
    lemma_trim_noop(l);
    assert(has_prefix(l, section_prefix())) by {
        assert(l.subrange(0, 3) =~= section_prefix());
    }
    assert(l.subrange(3, l.len() as int) =~= e);
    lemma_trim_noop(e);
    lemma_unescape_escape(title);
}

/// A number text that reads back as written: not empty, without white
/// space and without double quotes.
pub open spec fn plain_token(v: Seq<char>) -> bool {
    v.len() > 0 && forall|i: int| 0 <= i < v.len() ==> !is_ws(#[trigger] v[i]) && v[i] != '"'
}

/// A character of a hyphenated UUID text.
pub open spec fn uuid_char(c: char) -> bool {
    ('0' <= c && c <= '9') || ('a' <= c && c <= 'f') || c == '-'
}

pub proof fn lemma_uuid_chars(id: u128)
    ensures
        uuid_hyphenated(id).len() == 36,
        forall|i: int| 0 <= i < uuid_hyphenated(id).len() ==> uuid_char(#[trigger] uuid_hyphenated(id)[i]),
{
    let s = uuid_simple(id);
    assert forall|i: int| 0 <= i < 32 implies uuid_char(#[trigger] s[i]) by {
        let d = uuid_nibble(id, i);
        assert(0 <= d < 16) by {
            vstd::arithmetic::power::lemma_pow_positive(16, (31 - i) as nat);
        }
        assert(s[i] == hex_char(d));
        if d < 10 {
            assert(('0' as int) + d <= '9' as int);
        } else {
            assert(('a' as int) + d - 10 <= 'f' as int);
        }
    }
    let u = uuid_hyphenated(id);
    assert forall|i: int| 0 <= i < u.len() implies uuid_char(#[trigger] u[i]) by {
        if i < 8 {
            assert(u[i] == s[i]);
        } else if i == 8 || i == 13 || i == 18 || i == 23 {
            assert(u[i] == '-');
        } else if i < 13 {
            assert(u[i] == s[i - 1]);
        } else if i < 18 {
            assert(u[i] == s[i - 2]);
        } else if i < 23 {
            assert(u[i] == s[i - 3]);
        } else {
            assert(u[i] == s[i - 4]);
        }
    }
}

/// Text without backslashes or quotes adds no quote to the count.
pub proof fn lemma_count_quotes_plain(u: Seq<char>, tail: Seq<char>)
    requires
        forall|i: int| 0 <= i < u.len() ==> u[i] != '\\' && u[i] != '"',
    ensures
        count_quotes(u + tail, false) == count_quotes(tail, false),
    decreases u.len(),
{
    if u.len() > 0 {
        assert((u + tail).drop_first() =~= u.drop_first() + tail);
        assert((u + tail)[0] == u[0]);
        lemma_count_quotes_plain(u.drop_first(), tail);
    }
}

/// A quoted text whose inner quotes are all escaped is closed on its line.
pub proof fn lemma_quoted_closed(x: Seq<char>)
    requires
        count_quotes(x + seq!['"'], false) == 1,
        no_breaks(x),
    ensures
        plain_ends(quoted(x)),
        !unclosed_spec(quoted(x)),
{
    let q = quoted(x);
    assert(q[0] == '"');
    assert(q.last() == '"');
    lemma_trim_noop(q);
    assert(q.drop_first() =~= x + seq!['"']);
    assert(count_quotes(q, false) == 1 + count_quotes(q.drop_first(), false));
    assert forall|i: int| 0 <= i < q.len() implies q[i] != '\n' && q[i] != '\r' by {
        if 0 < i < q.len() - 1 {
            assert(q[i] == x[i - 1]);
        }
    }
}

pub proof fn lemma_count_one_quote()
    ensures
        count_quotes(seq!['"'], false) == 1,
{
    let q = seq!['"'];
    assert(q.drop_first() =~= Seq::<char>::empty());
    assert(count_quotes(Seq::<char>::empty(), false) == 0);
    assert(q[0] == '"');
    assert(count_quotes(q, false) == 1 + count_quotes(q.drop_first(), false));
}

pub proof fn lemma_quoted_escape_readable(x: Seq<char>)
    ensures
        plain_ends(quoted(escape(x))),
        !unclosed_spec(quoted(escape(x))),
{
    lemma_count_quotes_escape(x, seq!['"']);
    lemma_count_one_quote();
    lemma_escape_no_breaks(x);
    lemma_quoted_closed(escape(x));
}

pub proof fn lemma_quoted_uuid_readable(id: u128)
    ensures
        plain_ends(quoted(uuid_hyphenated(id))),
        !unclosed_spec(quoted(uuid_hyphenated(id))),
{
    let u = uuid_hyphenated(id);
    lemma_uuid_chars(id);
    assert forall|i: int| 0 <= i < u.len() implies u[i] != '\\' && u[i] != '"' by {
        assert(uuid_char(u[i]));
    }
    lemma_count_quotes_plain(u, seq!['"']);
    lemma_count_one_quote();
    assert forall|i: int| 0 <= i < u.len() implies u[i] != '\n' && u[i] != '\r' by {
        assert(uuid_char(u[i]));
    }
    lemma_quoted_closed(u);
}

/// Text without double quotes adds nothing to the count, after anything.
proof fn lemma_count_quotes_tail(a: Seq<char>, b: Seq<char>, escaped: bool)
    requires
        forall|i: int| 0 <= i < b.len() ==> b[i] != '"',
    ensures
        count_quotes(a + b, escaped) == count_quotes(a, escaped),
    decreases a.len() + b.len(),
{
    if a.len() == 0 {
        assert(a + b =~= b);
        if b.len() > 0 {
            assert forall|i: int| 0 <= i < b.drop_first().len() implies b.drop_first()[i] != '"' by {
                assert(b.drop_first()[i] == b[i + 1]);
            }
            lemma_count_quotes_tail(a, b.drop_first(), false);
            lemma_count_quotes_tail(a, b.drop_first(), true);
            assert(a + b.drop_first() =~= b.drop_first());
        }
    } else {
        assert((a + b).drop_first() =~= a.drop_first() + b);
        assert((a + b)[0] == a[0]);
        lemma_count_quotes_tail(a.drop_first(), b, false);
        lemma_count_quotes_tail(a.drop_first(), b, true);
    }
}

/// Trimming white space at the end leaves the count of quotes.
proof fn lemma_count_quotes_trim_end(x: Seq<char>)
    ensures
        count_quotes(trim_end(x), false) == count_quotes(x, false),
    decreases x.len(),
{
    if x.len() > 0 && is_ws(x.last()) {
        lemma_count_quotes_trim_end(x.drop_last());
        assert(x =~= x.drop_last() + seq![x.last()]);
        lemma_count_quotes_tail(x.drop_last(), seq![x.last()], false);
    }
}

/// Which values read as a quoted text that goes on past its line: an
/// escaped text between two quotes is closed, an escaped text after an
/// opening quote alone is not, and a value whose trimmed text does not
/// start with a quote never is.
pub proof fn lemma_unclosed_values(s: Seq<char>, v: Seq<char>)
    ensures
        !unclosed_spec(quoted(escape(s))),
        unclosed_spec(seq!['"'] + escape(s)),
        (trim(v).len() == 0 || trim(v)[0] != '"') ==> !unclosed_spec(v),
{
    let q = quoted(escape(s));
    lemma_count_quotes_escape(s, seq!['"']);
    lemma_count_one_quote();
    assert(q.drop_first() =~= escape(s) + seq!['"']);
    assert(q[0] == '"' && q.last() == '"');
    lemma_trim_noop(q);
    assert(count_quotes(q, false) == 1 + count_quotes(q.drop_first(), false));
    let o = seq!['"'] + escape(s);
    assert(o[0] == '"');
    assert(trim_start(o) == o);
    crate::org_round_trip::lemma_trim_end_keeps(o, 0);
    lemma_count_quotes_trim_end(o);
    lemma_count_quotes_escape(s, Seq::<char>::empty());
    assert(escape(s) + Seq::<char>::empty() =~= escape(s));
    assert(o.drop_first() =~= escape(s));
    assert(count_quotes(o, false) == 1 + count_quotes(o.drop_first(), false));
    assert(count_quotes(Seq::<char>::empty(), false) == 0);
    assert(trim(o) == trim_end(o));
}

/// Joining lines without breaks by a separator without breaks.
pub proof fn lemma_join_no_breaks(ls: Seq<Seq<char>>, sep: Seq<char>)
    requires
        forall|k: int| 0 <= k < ls.len() ==> no_breaks(#[trigger] ls[k]),
        no_breaks(sep),
    ensures
        no_breaks(crate::text::join(ls, sep)),
    decreases ls.len(),
{
    if ls.len() >= 2 {
        let pre = ls.drop_last();
        assert forall|k: int| 0 <= k < pre.len() implies no_breaks(#[trigger] pre[k]) by {
            assert(pre[k] == ls[k]);
        }
        lemma_join_no_breaks(pre, sep);
        let j = crate::text::join(pre, sep);
        let r = crate::text::join(ls, sep);
        assert(r == j + sep + ls.last());
        assert(no_breaks(ls[ls.len() - 1]));
        assert forall|i: int| 0 <= i < r.len() implies r[i] != '\n' && r[i] != '\r' by {
            if i < j.len() {
                assert(r[i] == j[i]);
            } else if i < j.len() + sep.len() {
                assert(r[i] == sep[i - j.len()]);
            } else {
                assert(r[i] == ls.last()[i - j.len() - sep.len()]);
            }
        }
    } else if ls.len() == 1 {
        assert(no_breaks(ls[0]));
    }
}

/// The entries written for one node, in order.
pub open spec fn md_node_kv(n: FocusNode, parents: Seq<u128>, num: (Seq<char>, Seq<char>, Seq<char>)) -> Seq<(Seq<char>, Seq<char>)> {
    seq![
        (id_key(), quoted(uuid_hyphenated(n.id))),
        (description_key(), quoted(escape(n.description@))),
        (progress_notes_key(), quoted(escape(n.progress_notes@))),
    ] + match n.image_id {
        Some(i) => seq![(image_id_key(), quoted(uuid_hyphenated(i)))],
        None => Seq::empty(),
    } + seq![
        (status_key(), num.0),
        (is_collapsed_key(), bool_text(n.is_collapsed)),
        (is_frozen_key(), bool_text(n.is_frozen)),
        (prerequisites_key(), seq!['['] + parent_list(parents) + seq![']']),
        (position_key(), position_text(num.1, num.2)),
    ]
}

/// The lines of a node's section are its heading, an empty line, its
/// entries and an empty line.
pub proof fn lemma_node_lines_shape(n: FocusNode, parents: Seq<u128>, num: (Seq<char>, Seq<char>, Seq<char>))
    ensures
        md_node_lines(n, parents, num) == seq![section_prefix() + escape(n.title@), Seq::<char>::empty()]
            + entry_lines(md_node_kv(n, parents, num)) + seq![Seq::<char>::empty()],
{
    let kv = md_node_kv(n, parents, num);
    let el = entry_lines(kv);
    let lhs = md_node_lines(n, parents, num);
    let rhs = seq![section_prefix() + escape(n.title@), Seq::<char>::empty()] + el + seq![Seq::<char>::empty()];
    assert(lhs.len() == rhs.len());
    assert forall|i: int| 0 <= i < lhs.len() implies lhs[i] == rhs[i] by {
        if 2 <= i < lhs.len() - 1 {
            assert(rhs[i] == el[i - 2]);
            assert(el[i - 2] == entry_line(kv[i - 2].0, kv[i - 2].1));
        }
    }
    assert(lhs =~= rhs);
}

/// A node whose section reads back as written, with the number texts
/// written for it.
pub open spec fn md_exportable(n: FocusNode, num: (Seq<char>, Seq<char>, Seq<char>)) -> bool {
    &&& n.title@.len() > 0
    &&& !is_ws(n.title@[0])
    &&& !is_ws(n.title@.last())
    &&& (n.description@.len() == 0 || n.description@.last() != '"')
    &&& (n.progress_notes@.len() == 0 || n.progress_notes@.last() != '"')
    &&& plain_token(num.0)
    &&& plain_token(num.1)
    &&& plain_token(num.2)
}

pub proof fn lemma_plain_token(v: Seq<char>)
    requires
        plain_token(v),
    ensures
        plain_ends(v),
        !unclosed_spec(v),
{
    assert(!is_ws(v[0]) && v[0] != '"');
    assert(!is_ws(v[v.len() - 1]));
    lemma_trim_noop(v);
    assert forall|i: int| 0 <= i < v.len() implies v[i] != '\n' && v[i] != '\r' by {
        assert(!is_ws(v[i]));
    }
}

pub proof fn lemma_key_readable(key: Seq<char>, val: Seq<char>)
    requires
        key.len() > 0,
        forall|i: int| 0 <= i < key.len() ==> ('a' <= #[trigger] key[i] && key[i] <= 'z') || key[i] == '_',
        plain_ends(val),
        !unclosed_spec(val),
    ensures
        readable_entry(key, val),
{
    assert('a' <= key[0] <= 'z' || key[0] == '_');
    assert('a' <= key[key.len() - 1] <= 'z' || key[key.len() - 1] == '_');
    assert forall|i: int| 0 <= i < key.len() implies key[i] != '\n' && key[i] != '\r' && key[i] != ':' by {
        assert('a' <= key[i] <= 'z' || key[i] == '_');
    }
}

pub proof fn lemma_bracketed_readable(inner: Seq<char>)
    requires
        no_breaks(inner),
    ensures
        plain_ends(seq!['['] + inner + seq![']']),
        !unclosed_spec(seq!['['] + inner + seq![']']),
{
    let v = seq!['['] + inner + seq![']'];
    assert(v[0] == '[');
    assert(v.last() == ']');
    lemma_trim_noop(v);
    assert forall|i: int| 0 <= i < v.len() implies v[i] != '\n' && v[i] != '\r' by {
        if 0 < i < v.len() - 1 {
            assert(v[i] == inner[i - 1]);
        }
    }
}

pub proof fn lemma_bool_readable(b: bool)
    ensures
        plain_ends(bool_text(b)),
        !unclosed_spec(bool_text(b)),
{
    let v = bool_text(b);
    assert(v[0] == 't' || v[0] == 'f');
    assert(v.last() == 'e');
    lemma_trim_noop(v);
}

/// Every entry written for an exportable node reads back as written.
pub proof fn lemma_node_kv_readable(n: FocusNode, parents: Seq<u128>, num: (Seq<char>, Seq<char>, Seq<char>))
    requires
        md_exportable(n, num),
    ensures
        forall|k: int| 0 <= k < md_node_kv(n, parents, num).len() ==> readable_entry(
            #[trigger] md_node_kv(n, parents, num)[k].0,
            md_node_kv(n, parents, num)[k].1,
        ),
{
    let kv = md_node_kv(n, parents, num);
    lemma_quoted_uuid_readable(n.id);
    lemma_quoted_escape_readable(n.description@);
    lemma_quoted_escape_readable(n.progress_notes@);
    if let Some(i) = n.image_id {
        lemma_quoted_uuid_readable(i);
    }
    lemma_plain_token(num.0);
    lemma_plain_token(num.1);
    lemma_plain_token(num.2);
    lemma_bool_readable(n.is_collapsed);
    lemma_bool_readable(n.is_frozen);
    let pl = parents.map_values(|p: u128| quoted(uuid_hyphenated(p)));
    assert forall|k: int| 0 <= k < pl.len() implies no_breaks(#[trigger] pl[k]) by {
        lemma_quoted_uuid_readable(parents[k]);
    }
    lemma_join_no_breaks(pl, seq![',', ' ']);
    lemma_bracketed_readable(parent_list(parents));
    let pos_inner = num.1 + seq![',', ' '] + num.2;
    assert(position_text(num.1, num.2) =~= seq!['['] + pos_inner + seq![']']);
    assert forall|i: int| 0 <= i < pos_inner.len() implies pos_inner[i] != '\n' && pos_inner[i] != '\r' by {
        if i < num.1.len() {
            assert(pos_inner[i] == num.1[i]);
        } else if i >= num.1.len() + 2 {
            assert(pos_inner[i] == num.2[i - num.1.len() - 2]);
        }
    }
    lemma_bracketed_readable(pos_inner);
    assert forall|k: int| 0 <= k < kv.len() implies readable_entry(#[trigger] kv[k].0, kv[k].1) by {
        let key = kv[k].0;
        assert(key == id_key() || key == description_key() || key == progress_notes_key() || key == image_id_key()
            || key == status_key() || key == is_collapsed_key() || key == is_frozen_key() || key == prerequisites_key()
            || key == position_key());
        assert forall|i: int| 0 <= i < key.len() implies ('a' <= #[trigger] key[i] && key[i] <= 'z') || key[i] == '_' by {
        }
        lemma_key_readable(key, kv[k].1);
    }
}

/// Reading a node's section closes the open section and leaves the new
/// one open with exactly the node's entries.
pub proof fn lemma_node_block_scan(st: MdState, n: FocusNode, parents: Seq<u128>, num: (Seq<char>, Seq<char>, Seq<char>))
    requires
        st.ml_key is None,
        st.title is Some || st.kv.len() == 0,
        md_exportable(n, num),
    ensures
        md_scan(st, md_node_lines(n, parents, num)) == (MdState {
            title: Some(n.title@),
            kv: md_node_kv(n, parents, num),
            ..md_finalize(st)
        }),
{
    let kv = md_node_kv(n, parents, num);
    let tl = section_prefix() + escape(n.title@);
    let e = Seq::<char>::empty();
    lemma_node_lines_shape(n, parents, num);
    lemma_node_kv_readable(n, parents, num);
    let s1 = MdState { title: Some(n.title@), ..md_finalize(st) };
    lemma_title_step(st, n.title@);
    lemma_md_scan_one(st, tl);
    lemma_md_scan_append(st, seq![tl], seq![e]);
    lemma_md_scan_one(s1, e);
    lemma_blank_step(s1);
    assert(seq![tl] + seq![e] =~= seq![tl, e]);
    assert(s1.kv =~= Seq::<(Seq<char>, Seq<char>)>::empty());
    lemma_entries_scan(s1, kv);
    let s3 = MdState { kv: s1.kv + kv, ..s1 };
    assert(s1.kv + kv =~= kv);
    lemma_md_scan_append(st, seq![tl, e], entry_lines(kv));
    lemma_md_scan_append(st, seq![tl, e] + entry_lines(kv), seq![e]);
    lemma_md_scan_one(s3, e);
    lemma_blank_step(s3);
}

/// The records a written document is expected to read back as.
pub open spec fn md_expected_records(
    nodes: Seq<FocusNode>,
    edges: Seq<Edge>,
    nums: Seq<(Seq<char>, Seq<char>, Seq<char>)>,
) -> Seq<(Seq<char>, Seq<(Seq<char>, Seq<char>)>)> {
    Seq::new(nodes.len(), |i: int| (nodes[i].title@, md_node_kv(nodes[i], parents_spec(edges, nodes[i].id), nums[i])))
}

pub open spec fn all_exportable(nodes: Seq<FocusNode>, nums: Seq<(Seq<char>, Seq<char>, Seq<char>)>) -> bool {
    nums.len() == nodes.len() && forall|i: int| 0 <= i < nodes.len() ==> md_exportable(#[trigger] nodes[i], nums[i])
}

pub open spec fn doc_blocks(
    nodes: Seq<FocusNode>,
    edges: Seq<Edge>,
    nums: Seq<(Seq<char>, Seq<char>, Seq<char>)>,
    k: nat,
) -> Seq<Seq<char>> {
    Seq::new(k, |i: int| md_node_lines(nodes[i], parents_spec(edges, nodes[i].id), nums[i])).flatten()
}

proof fn lemma_doc_scan(
    nodes: Seq<FocusNode>,
    edges: Seq<Edge>,
    nums: Seq<(Seq<char>, Seq<char>, Seq<char>)>,
    k: nat,
)
    requires
        all_exportable(nodes, nums),
        1 <= k <= nodes.len(),
    ensures
        md_scan(md_init(), doc_blocks(nodes, edges, nums, k)) == (MdState {
            nodes: md_expected_records(nodes, edges, nums).subrange(0, k - 1),
            title: Some(nodes[k - 1].title@),
            kv: md_node_kv(nodes[k - 1], parents_spec(edges, nodes[k - 1].id), nums[k - 1]),
            ml_key: None,
            ml_val: Seq::empty(),
        }),
    decreases k,
{
    let f = |i: int| md_node_lines(nodes[i], parents_spec(edges, nodes[i].id), nums[i]);
    let i = k - 1;
    assert(Seq::new(k, f) =~= Seq::new(i as nat, f).push(f(i)));
    Seq::new(i as nat, f).lemma_flatten_push(f(i));
    assert(doc_blocks(nodes, edges, nums, k) =~= doc_blocks(nodes, edges, nums, i as nat) + f(i));
    lemma_md_scan_append(md_init(), doc_blocks(nodes, edges, nums, i as nat), f(i));
    assert(md_exportable(nodes[i], nums[i]));
    if i == 0 {
        assert(doc_blocks(nodes, edges, nums, 0) =~= Seq::<Seq<char>>::empty());
        assert(md_scan(md_init(), Seq::<Seq<char>>::empty()) == md_init());
        lemma_node_block_scan(md_init(), nodes[0], parents_spec(edges, nodes[0].id), nums[0]);
        assert(md_expected_records(nodes, edges, nums).subrange(0, 0) =~= Seq::<(Seq<char>, Seq<(Seq<char>, Seq<char>)>)>::empty());
    } else {
        lemma_doc_scan(nodes, edges, nums, i as nat);
        let st = md_scan(md_init(), doc_blocks(nodes, edges, nums, i as nat));
        lemma_node_block_scan(st, nodes[i], parents_spec(edges, nodes[i].id), nums[i]);
        let recs = md_expected_records(nodes, edges, nums);
        assert(recs.subrange(0, i - 1).push((nodes[i - 1].title@, md_node_kv(nodes[i - 1], parents_spec(edges, nodes[i - 1].id), nums[i - 1]))) =~= recs.subrange(0, i));
    }
}

/// Every line of a node's section is free of line breaks.
proof fn lemma_node_lines_no_breaks(n: FocusNode, parents: Seq<u128>, num: (Seq<char>, Seq<char>, Seq<char>))
    requires
        md_exportable(n, num),
    ensures
        forall|k: int| 0 <= k < md_node_lines(n, parents, num).len() ==> no_breaks(#[trigger] md_node_lines(n, parents, num)[k]),
{
    lemma_node_lines_shape(n, parents, num);
    lemma_node_kv_readable(n, parents, num);
    let kv = md_node_kv(n, parents, num);
    let ls = md_node_lines(n, parents, num);
    lemma_escape_no_breaks(n.title@);
    let tl = section_prefix() + escape(n.title@);
    assert forall|i: int| 0 <= i < tl.len() implies tl[i] != '\n' && tl[i] != '\r' by {
        if i >= 3 {
            assert(tl[i] == escape(n.title@)[i - 3]);
        }
    }
    assert forall|k: int| 0 <= k < ls.len() implies no_breaks(#[trigger] ls[k]) by {
        if 2 <= k < ls.len() - 1 {
            let (key, val) = kv[k - 2];
            assert(readable_entry(kv[k - 2].0, kv[k - 2].1));
            let l = entry_line(key, val);
            assert(ls[k] == l);
            assert forall|i: int| 0 <= i < l.len() implies l[i] != '\n' && l[i] != '\r' by {
                if 2 <= i < 2 + key.len() {
                    assert(l[i] == key[i - 2]);
                } else if i >= 4 + key.len() {
                    assert(l[i] == val[i - 4 - key.len()]);
                }
            }
        }
    }
}

proof fn lemma_blocks_no_breaks(
    nodes: Seq<FocusNode>,
    edges: Seq<Edge>,
    nums: Seq<(Seq<char>, Seq<char>, Seq<char>)>,
    k: nat,
)
    requires
        all_exportable(nodes, nums),
        k <= nodes.len(),
    ensures
        forall|j: int| 0 <= j < doc_blocks(nodes, edges, nums, k).len() ==> no_breaks(#[trigger] doc_blocks(nodes, edges, nums, k)[j]),
    decreases k,
{
    if k == 0 {
        assert(doc_blocks(nodes, edges, nums, 0) =~= Seq::<Seq<char>>::empty());
    } else {
        let f = |i: int| md_node_lines(nodes[i], parents_spec(edges, nodes[i].id), nums[i]);
        let i = k - 1;
        assert(Seq::new(k, f) =~= Seq::new(i as nat, f).push(f(i)));
        Seq::new(i as nat, f).lemma_flatten_push(f(i));
        lemma_blocks_no_breaks(nodes, edges, nums, i as nat);
        assert(md_exportable(nodes[i], nums[i]));
        lemma_node_lines_no_breaks(nodes[i], parents_spec(edges, nodes[i].id), nums[i]);
        let a = doc_blocks(nodes, edges, nums, i as nat);
        let b = f(i);
        assert forall|j: int| 0 <= j < (a + b).len() implies no_breaks(#[trigger] (a + b)[j]) by {
            if j < a.len() {
                assert((a + b)[j] == a[j]);
            } else {
                assert((a + b)[j] == b[j - a.len()]);
            }
        }
    }
}

/// Reading a written document gives one record per node, in order: the
/// node's title and the entries written for it.
pub proof fn lemma_md_records_of_render(
    nodes: Seq<FocusNode>,
    edges: Seq<Edge>,
    nums: Seq<(Seq<char>, Seq<char>, Seq<char>)>,
)
    requires
        all_exportable(nodes, nums),
    ensures
        md_records(md_render_spec(nodes, edges, nums)) == md_expected_records(nodes, edges, nums),
{
    let blocks = doc_blocks(nodes, edges, nums, nodes.len());
    let doc = md_doc_lines(nodes, edges, nums);
    assert(doc == md_header_lines() + blocks);
    lemma_blocks_no_breaks(nodes, edges, nums, nodes.len());
    let h = md_header_lines();
    assert(no_breaks(h[0]));
    assert(no_breaks(h[1]));
    assert forall|j: int| 0 <= j < doc.len() implies no_breaks(#[trigger] doc[j]) by {
        if j >= 2 {
            assert(doc[j] == blocks[j - 2]);
        } else {
            assert(doc[j] == h[j]);
        }
    }
    lemma_lines_terminated(doc);
    lemma_md_scan_append(md_init(), h, blocks);
    lemma_header_scan();
    let recs = md_expected_records(nodes, edges, nums);
    if nodes.len() == 0 {
        assert(blocks =~= Seq::<Seq<char>>::empty());
        assert(md_scan(md_init(), blocks) == md_init());
        assert(recs =~= Seq::<(Seq<char>, Seq<(Seq<char>, Seq<char>)>)>::empty());
    } else {
        lemma_doc_scan(nodes, edges, nums, nodes.len());
        let last = nodes.len() - 1;
        assert(recs.subrange(0, last).push(recs[last]) =~= recs);
    }
}

/// The last entry for a key decides its value.
pub proof fn lemma_kv_get_at(kv: Seq<(Seq<char>, Seq<char>)>, j: int)
    requires
        0 <= j < kv.len(),
        forall|i: int| j < i < kv.len() ==> (#[trigger] kv[i]).0 != kv[j].0,
    ensures
        kv_get(kv, kv[j].0) == Some(kv[j].1),
    decreases kv.len(),
{
    if j < kv.len() - 1 {
        let pre = kv.drop_last();
        assert(kv[kv.len() - 1].0 != kv[j].0);
        assert forall|i: int| j < i < pre.len() implies (#[trigger] pre[i]).0 != pre[j].0 by {
            assert(pre[i] == kv[i]);
        }
        lemma_kv_get_at(pre, j);
    }
}

/// A key without an entry has no value.
pub proof fn lemma_kv_get_absent(kv: Seq<(Seq<char>, Seq<char>)>, key: Seq<char>)
    requires
        forall|i: int| 0 <= i < kv.len() ==> (#[trigger] kv[i]).0 != key,
    ensures
        kv_get(kv, key) == None::<Seq<char>>,
    decreases kv.len(),
{
    if kv.len() > 0 {
        let pre = kv.drop_last();
        assert(kv[kv.len() - 1].0 != key);
        assert forall|i: int| 0 <= i < pre.len() implies (#[trigger] pre[i]).0 != key by {
            assert(pre[i] == kv[i]);
        }
        lemma_kv_get_absent(pre, key);
    }
}

/// Quotes around text that neither starts nor ends with a quote come off.
pub proof fn lemma_unquote(e: Seq<char>)
    requires
        e.len() == 0 || (e[0] != '"' && e.last() != '"'),
    ensures
        trim_matches_char(quoted(e), '"') == e,
{
    let q = quoted(e);
    assert(q.drop_first() =~= e + seq!['"']);
    let r = e + seq!['"'];
    if e.len() == 0 {
        assert(r =~= seq!['"']);
        assert(r.drop_first() =~= Seq::<char>::empty());
        assert(trim_start_char(r, '"') == trim_start_char(r.drop_first(), '"'));
        assert(trim_start_char(q, '"') =~= Seq::<char>::empty());
        assert(trim_end_char(Seq::<char>::empty(), '"') =~= Seq::<char>::empty());
    } else {
        assert(r[0] == e[0]);
        assert(q[0] == '"');
        assert(trim_start_char(q, '"') == trim_start_char(q.drop_first(), '"'));
        assert(trim_start_char(r, '"') == r);
        assert(trim_start_char(q, '"') == r);
        assert(r.drop_last() =~= e);
        assert(trim_end_char(r, '"') == trim_end_char(e, '"'));
        assert(e.last() != '"');
    }
}

/// The fields a node's entries carry.
pub proof fn lemma_md_node_fields(n: FocusNode, parents: Seq<u128>, num: (Seq<char>, Seq<char>, Seq<char>))
    requires
        md_exportable(n, num),
    ensures
        ({
            let kv = md_node_kv(n, parents, num);
            &&& uuid_entry(kv, id_key()) == crate::ids::uuid_parse(uuid_hyphenated(n.id))
            &&& clean_string_spec(kv, description_key()) == n.description@
            &&& clean_string_spec(kv, progress_notes_key()) == n.progress_notes@
            &&& uuid_entry(kv, image_id_key()) == (match n.image_id {
                Some(i) => crate::ids::uuid_parse(uuid_hyphenated(i)),
                None => None,
            })
            &&& bool_spec(kv, is_collapsed_key()) == n.is_collapsed
            &&& bool_spec(kv, is_frozen_key()) == n.is_frozen
            &&& status_text_spec(kv) == Some(num.0)
            &&& kv_get(kv, position_key()) == Some(position_text(num.1, num.2))
            &&& kv_get(kv, prerequisites_key()) == Some(seq!['['] + parent_list(parents) + seq![']'])
        }),
{
    let kv = md_node_kv(n, parents, num);
    let off: int = if n.image_id is Some { 1 } else { 0 };
    assert(kv.len() == 8 + off);
    assert(kv[0].0 == id_key());
    assert(kv[1].0 == description_key());
    assert(kv[2].0 == progress_notes_key());
    assert(kv[3 + off].0 == status_key());
    assert(kv[4 + off].0 == is_collapsed_key());
    assert(kv[5 + off].0 == is_frozen_key());
    assert(kv[6 + off].0 == prerequisites_key());
    assert(kv[7 + off].0 == position_key());
    assert forall|i: int| 0 <= i < kv.len() implies
        (#[trigger] kv[i]).0 == id_key() || kv[i].0 == description_key() || kv[i].0 == progress_notes_key()
        || kv[i].0 == image_id_key() || kv[i].0 == status_key() || kv[i].0 == is_collapsed_key()
        || kv[i].0 == is_frozen_key() || kv[i].0 == prerequisites_key() || kv[i].0 == position_key() by {
    }
    lemma_kv_get_at(kv, 0);
    lemma_kv_get_at(kv, 1);
    lemma_kv_get_at(kv, 2);
    lemma_kv_get_at(kv, 3 + off);
    lemma_kv_get_at(kv, 4 + off);
    lemma_kv_get_at(kv, 5 + off);
    lemma_kv_get_at(kv, 6 + off);
    lemma_kv_get_at(kv, 7 + off);
    match n.image_id {
        Some(i) => {
            assert(kv[3].0 == image_id_key());
            lemma_kv_get_at(kv, 3);
        },
        None => {
            lemma_kv_get_absent(kv, image_id_key());
        },
    }
    lemma_kv_get_absent(kv, crate::records::progress_key());
    // identifiers
    lemma_uuid_chars(n.id);
    let u = uuid_hyphenated(n.id);
    assert(u[0] != '"' && u.last() != '"') by {
        assert(uuid_char(u[0]));
        assert(uuid_char(u[u.len() - 1]));
    }
    lemma_unquote(u);
    if let Some(i) = n.image_id {
        lemma_uuid_chars(i);
        let v = uuid_hyphenated(i);
        assert(v[0] != '"' && v.last() != '"') by {
            assert(uuid_char(v[0]));
            assert(uuid_char(v[v.len() - 1]));
        }
        lemma_unquote(v);
    }
    // texts
    let d = n.description@;
    if d.len() > 0 {
        assert(escape(d) == escape_char(d[0]) + escape(d.drop_first()));
        lemma_escape_last(d);
    } else {
        assert(escape(d) =~= Seq::<char>::empty());
    }
    lemma_unquote(escape(d));
    lemma_unescape_escape(d);
    let p = n.progress_notes@;
    if p.len() > 0 {
        assert(escape(p) == escape_char(p[0]) + escape(p.drop_first()));
        lemma_escape_last(p);
    } else {
        assert(escape(p) =~= Seq::<char>::empty());
    }
    lemma_unquote(escape(p));
    lemma_unescape_escape(p);
    // flags
    let t = bool_text(true);
    let f = bool_text(false);
    assert(t[0] == 't' && t.last() == 'e');
    assert(f[0] == 'f' && f.last() == 'e');
    lemma_trim_noop(t);
    lemma_trim_noop(f);
    assert(eq_ignore_ascii_case(t, true_text()));
    assert(!eq_ignore_ascii_case(f, true_text()));
}

/// Splitting text joined at a separator splits each side.
pub proof fn lemma_split_concat(a: Seq<char>, c: char, b: Seq<char>)
    ensures
        split_on(a + seq![c] + b, c) == split_on(a, c) + split_on(b, c),
    decreases a.len(),
{
    let s = a + seq![c] + b;
    lemma_find_char_bounds(a, c);
    match find_char(a, c) {
        None => {
            assert forall|j: int| 0 <= j < a.len() implies s[j] != c by {
                assert(s[j] == a[j]);
            }
            assert(s[a.len() as int] == c);
            lemma_find_char_is(s, c, a.len() as int);
            assert(s.subrange(0, a.len() as int) =~= a);
            assert(s.subrange(a.len() as int + 1, s.len() as int) =~= b);
            assert(split_on(a, c) == seq![a]);
        },
        Some(i) => {
            assert forall|j: int| 0 <= j < i implies s[j] != c by {
                assert(s[j] == a[j]);
            }
            assert(s[i] == a[i]);
            lemma_find_char_is(s, c, i);
            let a2 = a.subrange(i + 1, a.len() as int);
            lemma_split_concat(a2, c, b);
            assert(s.subrange(0, i) =~= a.subrange(0, i));
            assert(s.subrange(i + 1, s.len() as int) =~= a2 + seq![c] + b);
        },
    }
}

/// A text without the separator is one piece.
pub proof fn lemma_split_single(a: Seq<char>, c: char)
    requires
        forall|j: int| 0 <= j < a.len() ==> a[j] != c,
    ensures
        split_on(a, c) == seq![a],
{
    crate::text::lemma_find_char_none(a, c);
}

/// A list entry: a quoted identifier.
pub open spec fn list_entry_ok(q: Seq<char>) -> bool {
    &&& q.len() > 0
    &&& q[0] == '"'
    &&& q.last() == '"'
    &&& forall|j: int| 0 <= j < q.len() ==> q[j] != ','
}

/// The entries of a list written with `, ` between them read back.
pub proof fn lemma_list_read_back(qs: Seq<Seq<char>>)
    requires
        forall|k: int| 0 <= k < qs.len() ==> list_entry_ok(#[trigger] qs[k]),
    ensures
        non_empty_trimmed(split_on(join(qs, seq![',', ' ']), ',')) == qs,
    decreases qs.len(),
{
    let sep = seq![',', ' '];
    let f = |p: Seq<char>| trim(p);
    let g = |p: Seq<char>| p.len() > 0;
    if qs.len() == 0 {
        assert(join(qs, sep) =~= Seq::<char>::empty());
        lemma_split_single(Seq::<char>::empty(), ',');
        let m = seq![Seq::<char>::empty()].map_values(f);
        assert(trim(Seq::<char>::empty()) =~= Seq::<char>::empty());
        assert(m =~= Seq::<Seq<char>>::empty().push(Seq::<char>::empty()));
        Seq::<Seq<char>>::empty().lemma_filter_push(Seq::<char>::empty(), g);
        assert(Seq::<Seq<char>>::empty().filter(g) =~= Seq::<Seq<char>>::empty()) by {
            reveal(Seq::filter);
        }
    } else {
        let last = qs.last();
        assert(list_entry_ok(qs[qs.len() - 1]));
        lemma_trim_noop(last);
        let pieces_last: Seq<char>;
        if qs.len() == 1 {
            assert(join(qs, sep) == qs[0]);
            lemma_split_single(last, ',');
            assert(split_on(join(qs, sep), ',') == seq![last]);
            let m = seq![last].map_values(f);
            assert(m =~= Seq::<Seq<char>>::empty().push(last));
            Seq::<Seq<char>>::empty().lemma_filter_push(last, g);
            assert(Seq::<Seq<char>>::empty().filter(g) =~= Seq::<Seq<char>>::empty()) by {
                reveal(Seq::filter);
            }
            assert(qs =~= seq![last]);
        } else {
            let pre = qs.drop_last();
            assert forall|k: int| 0 <= k < pre.len() implies list_entry_ok(#[trigger] pre[k]) by {
                assert(pre[k] == qs[k]);
            }
            lemma_list_read_back(pre);
            let jp = join(pre, sep);
            assert(join(qs, sep) == jp + sep + last);
            let tail = seq![' '] + last;
            assert(jp + sep + last =~= jp + seq![','] + tail);
            lemma_split_concat(jp, ',', tail);
            assert forall|j: int| 0 <= j < tail.len() implies tail[j] != ',' by {
                if j > 0 {
                    assert(tail[j] == last[j - 1]);
                }
            }
            lemma_split_single(tail, ',');
            lemma_trim_space(last);
            let sp = split_on(jp, ',');
            assert(split_on(join(qs, sep), ',') == sp + seq![tail]);
            assert((sp + seq![tail]).map_values(f) =~= sp.map_values(f).push(last));
            sp.map_values(f).lemma_filter_push(last, g);
            assert(qs =~= pre.push(last));
        }
    }
}

/// Leading `[` and trailing `]` come off a list whose entries are quoted.
pub proof fn lemma_unbracket(pl: Seq<char>)
    requires
        pl.len() == 0 || (pl[0] == '"' && pl.last() == '"'),
    ensures
        trim_brackets(seq!['['] + pl + seq![']']) == pl,
{
    let v = seq!['['] + pl + seq![']'];
    let r = pl + seq![']'];
    assert(v.drop_first() =~= r);
    assert(trim_bracket_start(v) == trim_bracket_start(r));
    if pl.len() == 0 {
        assert(r =~= seq![']']);
        assert(r[0] == ']');
        assert(r.drop_first() =~= Seq::<char>::empty());
        assert(trim_bracket_start(r) == trim_bracket_start(r.drop_first()));
        assert(trim_bracket_start(Seq::<char>::empty()) =~= Seq::<char>::empty());
        assert(trim_bracket_start(r) =~= Seq::<char>::empty());
        assert(trim_bracket_end(Seq::<char>::empty()) =~= Seq::<char>::empty());
    } else {
        assert(r[0] == '"');
        assert(trim_bracket_start(r) == r);
        assert(r.drop_last() =~= pl);
        assert(trim_bracket_end(r) == trim_bracket_end(pl));
        assert(pl.last() == '"');
    }
}

/// The prerequisite entries written for a node read back as its quoted
/// parent identifiers.
pub proof fn lemma_prereq_read_back(parents: Seq<u128>)
    ensures
        uuid_list_spec(seq!['['] + parent_list(parents) + seq![']'])
            == parents.map_values(|p: u128| quoted(uuid_hyphenated(p))),
{
    let qs = parents.map_values(|p: u128| quoted(uuid_hyphenated(p)));
    assert forall|k: int| 0 <= k < qs.len() implies list_entry_ok(#[trigger] qs[k]) by {
        let u = uuid_hyphenated(parents[k]);
        lemma_uuid_chars(parents[k]);
        let q = qs[k];
        assert(q == quoted(u));
        assert forall|j: int| 0 <= j < q.len() implies q[j] != ',' by {
            if 0 < j < q.len() - 1 {
                assert(q[j] == u[j - 1]);
                assert(uuid_char(u[j - 1]));
            }
        }
    }
    let pl = parent_list(parents);
    assert(pl == join(qs, seq![',', ' ']));
    if qs.len() > 0 {
        lemma_join_ends(qs, seq![',', ' ']);
    } else {
        assert(pl =~= Seq::<char>::empty());
    }
    lemma_unbracket(pl);
    lemma_list_read_back(qs);
}

/// A join of quoted entries starts and ends with a quote.
pub proof fn lemma_join_ends(qs: Seq<Seq<char>>, sep: Seq<char>)
    requires
        qs.len() > 0,
        forall|k: int| 0 <= k < qs.len() ==> list_entry_ok(#[trigger] qs[k]),
    ensures
        join(qs, sep).len() > 0,
        join(qs, sep)[0] == '"',
        join(qs, sep).last() == '"',
    decreases qs.len(),
{
    assert(list_entry_ok(qs[0]));
    assert(list_entry_ok(qs[qs.len() - 1]));
    if qs.len() > 1 {
        let pre = qs.drop_last();
        assert forall|k: int| 0 <= k < pre.len() implies list_entry_ok(#[trigger] pre[k]) by {
            assert(pre[k] == qs[k]);
        }
        lemma_join_ends(pre, sep);
        let j = join(pre, sep);
        assert(join(qs, sep) == j + sep + qs.last());
        assert((j + sep + qs.last())[0] == j[0]);
    }
}

/// The identifier parser reads the written form of `id` back as `id`, as
/// `crate::ids::parse_uuid` guarantees for every value.
pub open spec fn reads_back(id: u128) -> bool {
    crate::ids::uuid_parse(uuid_hyphenated(id)) == Some(id)
}

pub open spec fn ids_read_back(nodes: Seq<FocusNode>) -> bool {
    forall|i: int|
        0 <= i < nodes.len() ==> reads_back(#[trigger] nodes[i].id) && (nodes[i].image_id matches Some(m) ==> reads_back(m))
}

/// Nodes built from the records `recs`, one per record, each with the
/// progress and position that were read for it.
pub open spec fn md_items_of(items: Seq<ProcessedNode>, recs: Seq<(Seq<char>, Seq<(Seq<char>, Seq<char>)>)>) -> bool {
    &&& items.len() == recs.len()
    &&& forall|i: int|
        0 <= i < items.len() ==> processed_matches(
            #[trigger] items[i],
            recs[i].0,
            clean_string_spec(recs[i].1, description_key()),
            clean_string_spec(recs[i].1, progress_notes_key()),
            recs[i].1,
            items[i].node.status,
            items[i].node.x_bits,
            items[i].node.y_bits,
        )
}

/// Two nodes agree on everything but progress and position.
pub open spec fn same_content(a: FocusNode, b: FocusNode) -> bool {
    &&& a.id == b.id
    &&& a.title@ == b.title@
    &&& a.description@ == b.description@
    &&& a.progress_notes@ == b.progress_notes@
    &&& a.image_id == b.image_id
    &&& a.is_collapsed == b.is_collapsed
    &&& a.is_frozen == b.is_frozen
}

pub proof fn lemma_requests_of_parents(c: u128, ps: Seq<u128>)
    requires
        forall|k: int| 0 <= k < ps.len() ==> reads_back(#[trigger] ps[k]),
    ensures
        requests_of(c, ps.map_values(|p: u128| quoted(uuid_hyphenated(p)))) == ps.map_values(|p: u128| (p, c)),
    decreases ps.len(),
{
    let qs = ps.map_values(|p: u128| quoted(uuid_hyphenated(p)));
    if ps.len() == 0 {
        assert(qs =~= Seq::<Seq<char>>::empty());
        assert(ps.map_values(|p: u128| (p, c)) =~= Seq::<(u128, u128)>::empty());
    } else {
        let pre = ps.drop_last();
        assert forall|k: int| 0 <= k < pre.len() implies reads_back(#[trigger] pre[k]) by {
            assert(pre[k] == ps[k]);
        }
        lemma_requests_of_parents(c, pre);
        assert(qs.drop_last() =~= pre.map_values(|p: u128| quoted(uuid_hyphenated(p))));
        let last = ps.last();
        assert(reads_back(ps[ps.len() - 1]));
        lemma_uuid_chars(last);
        let u = uuid_hyphenated(last);
        assert(u[0] != '"' && u.last() != '"') by {
            assert(uuid_char(u[0]));
            assert(uuid_char(u[u.len() - 1]));
        }
        lemma_unquote(u);
        assert(qs.last() == quoted(u));
        assert(quoted_uuid(qs.last()) == Some(last));
        assert(ps.map_values(|p: u128| (p, c)) =~= pre.map_values(|p: u128| (p, c)).push((last, c)));
    }
}

pub proof fn lemma_link_all_same_ids(a: Seq<FocusNode>, b: Seq<FocusNode>, reqs: Seq<(u128, u128)>)
    requires
        a.len() == b.len(),
        forall|i: int| 0 <= i < a.len() ==> (#[trigger] a[i]).id == b[i].id,
    ensures
        link_all(a, reqs) == link_all(b, reqs),
    decreases reqs.len(),
{
    if reqs.len() > 0 {
        lemma_link_all_same_ids(a, b, reqs.drop_last());
        assert forall|x: u128| has_node(a, x) <==> has_node(b, x) by {
            if has_node(a, x) {
                let i = choose|i: int| 0 <= i < a.len() && a[i].id == x;
                assert(b[i].id == x);
            }
            if has_node(b, x) {
                let i = choose|i: int| 0 <= i < b.len() && b[i].id == x;
                assert(a[i].id == x);
            }
        }
    }
}

/// Writing a valid graph as Markdown and reading it back gives the same
/// tasks, in the same order and with the same texts, flags and
/// identifiers, and exactly the same prerequisite links, as many as before. (Progress and
/// canvas position travel as the number texts the caller writes and
/// reads.)
pub proof fn lemma_markdown_round_trip(
    g: FocusGraph,
    nums: Seq<(Seq<char>, Seq<char>, Seq<char>)>,
    items: Seq<ProcessedNode>,
)
    requires
        g.wf(),
        all_exportable(g.nodes@, nums),
        ids_read_back(g.nodes@),
        md_items_of(items, md_records(md_render_spec(g.nodes@, g.edges@, nums))),
    ensures
        items.len() == g.nodes@.len(),
        forall|i: int| 0 <= i < items.len() ==> same_content((#[trigger] items[i]).node, g.nodes@[i]),
        added_nodes(item_nodes(items)) == item_nodes(items),
        forall|p: u128, c: u128|
            is_edge(link_all(item_nodes(items), all_requests(items)), p, c) <==> is_edge(g.edges@, p, c),
        link_all(item_nodes(items), all_requests(items)).len() == g.edges@.len(),
{
    let nodes = g.nodes@;
    let edges = g.edges@;
    let recs = md_records(md_render_spec(nodes, edges, nums));
    lemma_md_records_of_render(nodes, edges, nums);
    assert(recs == md_expected_records(nodes, edges, nums));
    assert forall|i: int| 0 <= i < items.len() implies same_content((#[trigger] items[i]).node, nodes[i]) by {
        let n = nodes[i];
        assert(md_exportable(nodes[i], nums[i]));
        lemma_md_node_fields(n, parents_spec(edges, n.id), nums[i]);
        assert(recs[i] == (n.title@, md_node_kv(n, parents_spec(edges, n.id), nums[i])));
        assert(processed_matches(items[i], recs[i].0, clean_string_spec(recs[i].1, description_key()),
            clean_string_spec(recs[i].1, progress_notes_key()), recs[i].1, items[i].node.status,
            items[i].node.x_bits, items[i].node.y_bits));
        assert(reads_back(nodes[i].id));
    }
    let inodes = item_nodes(items);
    assert forall|i: int, j: int| 0 <= i < inodes.len() && 0 <= j < inodes.len() && i != j implies inodes[i].id != inodes[j].id by {
        assert(same_content(items[i].node, nodes[i]));
        assert(same_content(items[j].node, nodes[j]));
    }
    lemma_added_nodes_distinct(inodes);
    // the links asked for are the graph's own, node by node
    assert forall|k: int| 0 <= k <= items.len() implies all_requests(#[trigger] items.subrange(0, k)) == graph_requests(nodes.subrange(0, k), edges) by {
        lemma_requests_prefix(g, nums, items, k);
    }
    assert(items.subrange(0, items.len() as int) =~= items);
    assert(nodes.subrange(0, nodes.len() as int) =~= nodes);
    assert(all_requests(items) == graph_requests(nodes, edges));
    assert forall|i: int| 0 <= i < inodes.len() implies (#[trigger] inodes[i]).id == nodes[i].id by {
        assert(same_content(items[i].node, nodes[i]));
    }
    lemma_link_all_same_ids(inodes, nodes, all_requests(items));
    lemma_rebuild_links(g);
    crate::rebuild::lemma_link_all_distinct(item_nodes(items), all_requests(items));
    assert(g.edges@.no_duplicates()) by {
        assert forall|a: int, b: int| 0 <= a < g.edges@.len() && 0 <= b < g.edges@.len() && a != b implies g.edges@[a] != g.edges@[b] by {
            assert(g.distinct_edges());
        }
    }
    crate::rebuild::lemma_same_links_same_count(link_all(item_nodes(items), all_requests(items)), g.edges@);
}

proof fn lemma_requests_prefix(
    g: FocusGraph,
    nums: Seq<(Seq<char>, Seq<char>, Seq<char>)>,
    items: Seq<ProcessedNode>,
    k: int,
)
    requires
        g.wf(),
        all_exportable(g.nodes@, nums),
        ids_read_back(g.nodes@),
        md_items_of(items, md_records(md_render_spec(g.nodes@, g.edges@, nums))),
        0 <= k <= items.len(),
    ensures
        all_requests(items.subrange(0, k)) == graph_requests(g.nodes@.subrange(0, k), g.edges@),
    decreases k,
{
    let nodes = g.nodes@;
    let edges = g.edges@;
    lemma_md_records_of_render(nodes, edges, nums);
    let recs = md_records(md_render_spec(nodes, edges, nums));
    if k == 0 {
        assert(items.subrange(0, 0) =~= Seq::<ProcessedNode>::empty());
        assert(nodes.subrange(0, 0) =~= Seq::<FocusNode>::empty());
    } else {
        lemma_requests_prefix(g, nums, items, k - 1);
        let i = k - 1;
        let n = nodes[i];
        let ps = parents_spec(edges, n.id);
        assert(md_exportable(nodes[i], nums[i]));
        lemma_md_node_fields(n, ps, nums[i]);
        lemma_prereq_read_back(ps);
        assert(recs[i] == (n.title@, md_node_kv(n, ps, nums[i])));
        assert(processed_matches(items[i], recs[i].0, clean_string_spec(recs[i].1, description_key()),
            clean_string_spec(recs[i].1, progress_notes_key()), recs[i].1, items[i].node.status,
            items[i].node.x_bits, items[i].node.y_bits));
        assert(reads_back(nodes[i].id));
        assert(items[i].node.id == n.id);
        lemma_parents_spec_members(edges, n.id);
        assert forall|j: int| 0 <= j < ps.len() implies reads_back(#[trigger] ps[j]) by {
            assert(ps.contains(ps[j]));
            assert(is_edge(edges, ps[j], n.id));
            let e = choose|e: int| 0 <= e < edges.len() && edges[e].parent_id == ps[j] && edges[e].child_id == n.id;
            assert(has_node(nodes, edges[e].parent_id));
            let m = choose|m: int| 0 <= m < nodes.len() && nodes[m].id == ps[j];
            assert(reads_back(nodes[m].id));
        }
        lemma_requests_of_parents(n.id, ps);
        let isub = items.subrange(0, k);
        let nsub = nodes.subrange(0, k);
        assert(isub.drop_last() =~= items.subrange(0, i));
        assert(isub.last() == items[i]);
        assert(nsub.drop_last() =~= nodes.subrange(0, i));
        assert(nsub.last() == n);
    }
}

} // verus!
