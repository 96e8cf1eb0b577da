//! What reading a written Org document gives back.
use vstd::prelude::*;
use crate::ids::uuid_hyphenated;
use crate::md_laws::{
    entry_lines, lemma_bool_readable, lemma_bracketed_readable, lemma_join_no_breaks, lemma_key_readable,
    lemma_plain_token, lemma_quoted_uuid_readable, lemma_trim_noop, lemma_trim_space, no_breaks, plain_ends,
    plain_token, readable_entry,
};
use crate::models::{has_node, parents_spec, Edge, FocusGraph, FocusNode};
use crate::md_laws::{
    ids_read_back, lemma_kv_get_absent, lemma_kv_get_at, lemma_link_all_same_ids, lemma_prereq_read_back,
    lemma_requests_of_parents, lemma_unquote, lemma_uuid_chars, reads_back, same_content, uuid_char,
};
use crate::rebuild::{graph_requests, lemma_added_nodes_distinct, lemma_parents_spec_members, lemma_rebuild_links};
use crate::reach::is_edge;
use crate::notebox::{checked_lower_box, checked_upper_box, unchecked_box};
use crate::orgmode::{
    desc_header, is_node_metadata_spec, node_prefix, notes_header, org_content_ok, org_finalize, org_finalize_ok,
    org_header_lines, org_init, org_records, org_render_spec, org_scan, org_scan_ok, org_step, OrgRecord, OrgState,
};
use crate::org_laws::{
    heading_flush, lemma_join_cons, lemma_join_last, lemma_join_lines, lemma_line_round_trip, lemma_lines_join,
    lemma_org_note_round_trip, lemma_terminated_join, lemma_trim_start_skip, storable_note,
};
use crate::orgmode::{
    block_text, decode_ok, decode_spec, encode_line, encode_spec, opt_line, org_node_text, org_tail_lines,
    six_spaces, three_stars,
};
use crate::records::{
    added_nodes, all_requests, bool_spec, eq_ignore_ascii_case, item_nodes, kv_get, link_all, processed_matches,
    true_text, uuid_entry, ProcessedNode,
};
use crate::records::{
    bool_text, entry_line, id_key, image_id_key, is_collapsed_key, is_frozen_key, parent_list, position_key,
    position_text, prerequisites_key, quoted, status_key, terminated,
};
use crate::text::{
    find_char, has_prefix, is_ws, join, lemma_find_char_bounds, lemma_find_char_is, lines, strip_cr, trim,
    trim_end, trim_end_char, trim_matches_char, trim_start, trim_start_char,
};

verus! {

/// Reading two runs of lines is reading the first, then the second.
pub proof fn lemma_org_scan_append(st: OrgState, a: Seq<Seq<char>>, b: Seq<Seq<char>>)
    ensures
        org_scan(st, a + b) == org_scan(org_scan(st, a), b),
        org_scan_ok(st, a + b) == (org_scan_ok(st, a) && org_scan_ok(org_scan(st, a), b)),
    decreases b.len(),
{
    if b.len() == 0 {
        assert(a + b =~= a);
    } else {
        lemma_org_scan_append(st, a, b.drop_last());
        assert((a + b).drop_last() =~= a + b.drop_last());
        assert((a + b).last() == b.last());
    }
}

/// Reading one line.
pub proof fn lemma_org_scan_one(st: OrgState, l: Seq<char>)
    ensures
        org_scan(st, seq![l]) == org_step(st, l),
        org_scan_ok(st, seq![l]) == (has_prefix(trim(l), node_prefix()) ==> org_finalize_ok(st)),
{
    assert(seq![l].drop_last() =~= Seq::<Seq<char>>::empty());
    assert(org_scan(st, Seq::<Seq<char>>::empty()) == st);
    assert(org_scan_ok(st, Seq::<Seq<char>>::empty()));
    assert(seq![l].last() == l);
    assert(org_scan(st, seq![l]) == org_step(org_scan(st, seq![l].drop_last()), seq![l].last()));
}

/// A line that opens nothing: neither a heading, a block header nor an
/// entry.
pub open spec fn quiet_line(l: Seq<char>) -> bool {
    let t = trim(l);
    &&& !has_prefix(t, node_prefix())
    &&& !has_prefix(t, desc_header())
    &&& !has_prefix(t, notes_header())
    &&& !is_node_metadata_spec(t)
}

/// The reader after a quiet line: the line joins the open block, if any.
pub open spec fn org_take(st: OrgState, l: Seq<char>) -> OrgState {
    if st.active == 1 {
        OrgState { desc: st.desc.push(l), ..st }
    } else if st.active == 2 {
        OrgState { notes: st.notes.push(l), ..st }
    } else {
        st
    }
}

pub proof fn lemma_quiet_step(st: OrgState, l: Seq<char>)
    requires
        quiet_line(l),
    ensures
        org_step(st, l) == org_take(st, l),
        org_scan(st, seq![l]) == org_take(st, l),
        org_scan_ok(st, seq![l]),
{
    lemma_org_scan_one(st, l);
}

/// A run of quiet lines joins the open block.
pub proof fn lemma_quiet_run(st: OrgState, ls: Seq<Seq<char>>)
    requires
        st.active == 1 || st.active == 2,
        forall|k: int| 0 <= k < ls.len() ==> quiet_line(#[trigger] ls[k]),
    ensures
        org_scan(st, ls) == (if st.active == 1 {
            OrgState { desc: st.desc + ls, ..st }
        } else {
            OrgState { notes: st.notes + ls, ..st }
        }),
        org_scan_ok(st, ls),
    decreases ls.len(),
{
    if ls.len() == 0 {
        assert(st.desc + ls =~= st.desc);
        assert(st.notes + ls =~= st.notes);
    } else {
        let pre = ls.drop_last();
        assert forall|k: int| 0 <= k < pre.len() implies quiet_line(#[trigger] pre[k]) by {
            assert(pre[k] == ls[k]);
        }
        lemma_org_scan_append(st, pre, seq![ls.last()]);
        assert(pre + seq![ls.last()] =~= ls);
        lemma_quiet_run(st, pre);
        assert(quiet_line(ls[ls.len() - 1]));
        lemma_quiet_step(org_scan(st, pre), ls.last());
        assert((st.desc + pre).push(ls.last()) =~= st.desc + ls);
        assert((st.notes + pre).push(ls.last()) =~= st.notes + ls);
    }
}

/// The empty line is quiet.
pub proof fn lemma_blank_quiet()
    ensures
        quiet_line(Seq::<char>::empty()),
{
    assert(trim(Seq::<char>::empty()) =~= Seq::<char>::empty());
}

/// A heading line closes the open section and opens a new one.
pub proof fn lemma_org_title_step(st: OrgState, title: Seq<char>)
    requires
        plain_ends(title),
    ensures
        org_step(st, node_prefix() + title) == (OrgState { title: Some(title), active: 0, ..org_finalize(st) }),
        has_prefix(trim(node_prefix() + title), node_prefix()),
        no_breaks(node_prefix() + title),
{
    let l = node_prefix() + title;
    assert(l[0] == '*');
    assert(l.last() == title.last());
    lemma_trim_noop(l);
    assert(l.subrange(0, 3) =~= node_prefix());
    assert(l.subrange(3, l.len() as int) =~= title);
    lemma_trim_noop(title);
    assert forall|i: int| 0 <= i < l.len() implies l[i] != '\n' && l[i] != '\r' by {
        if i >= 3 {
            assert(l[i] == title[i - 3]);
        }
    }
}

/// The description header opens the description block.
pub proof fn lemma_desc_header_step(st: OrgState)
    ensures
        org_step(st, desc_header()) == (OrgState { active: 1, ..st }),
        !has_prefix(trim(desc_header()), node_prefix()),
        no_breaks(desc_header()),
{
    let l = desc_header();
    assert(l[0] == '*' && l.last() == ':');
    lemma_trim_noop(l);
    assert(l.subrange(0, l.len() as int) =~= l);
    assert(!has_prefix(l, node_prefix())) by {
        assert(l.subrange(0, 3)[2] == '*');
    }
}

/// The progress-notes header opens the notes block.
pub proof fn lemma_notes_header_step(st: OrgState)
    ensures
        org_step(st, notes_header()) == (OrgState { active: 2, ..st }),
        !has_prefix(trim(notes_header()), node_prefix()),
        no_breaks(notes_header()),
{
    let l = notes_header();
    assert(l[0] == '*' && l.last() == ':');
    lemma_trim_noop(l);
    assert(l.subrange(0, l.len() as int) =~= l);
    assert(!has_prefix(l, node_prefix())) by {
        assert(l.subrange(0, 3)[2] == '*');
    }
    assert(!has_prefix(l, desc_header())) by {
        assert(l.subrange(0, 16)[4] == 'p');
    }
}

/// An entry whose line reads back as written in a section.
pub open spec fn org_entry_ok(key: Seq<char>, val: Seq<char>) -> bool {
    readable_entry(key, val) && key[0] != '['
}

/// An entry line adds its entry and closes the open block.
pub proof fn lemma_org_entry_step(st: OrgState, key: Seq<char>, val: Seq<char>)
    requires
        org_entry_ok(key, val),
    ensures
        org_step(st, entry_line(key, val)) == (OrgState { kv: st.kv.push((key, val)), active: 0, ..st }),
        !has_prefix(trim(entry_line(key, val)), node_prefix()),
        no_breaks(entry_line(key, val)),
{
    let l = entry_line(key, val);
    assert(l[0] == '-');
    assert(l.last() == val.last());
    lemma_trim_noop(l);
    assert(!has_prefix(l, node_prefix())) by {
        assert(l.subrange(0, 3)[0] == '-');
    }
    assert(!has_prefix(l, desc_header())) by {
        if l.len() >= 16 {
            assert(l.subrange(0, 16)[0] == '-');
        }
    }
    assert(!has_prefix(l, notes_header())) by {
        if l.len() >= 19 {
            assert(l.subrange(0, 19)[0] == '-');
        }
    }
    assert(l[2] == key[0]);
    assert(!has_prefix(l, unchecked_box())) by {
        if l.len() >= 5 {
            assert(l.subrange(0, 5)[2] == key[0]);
        }
    }
    assert(!has_prefix(l, checked_lower_box())) by {
        if l.len() >= 5 {
            assert(l.subrange(0, 5)[2] == key[0]);
        }
    }
    assert(!has_prefix(l, checked_upper_box())) by {
        if l.len() >= 5 {
            assert(l.subrange(0, 5)[2] == key[0]);
        }
    }
    assert(l[key.len() as int + 2] == ':');
    assert(l.contains(':'));
    assert(is_node_metadata_spec(l));
    let item = l.drop_first();
    let body = key + seq![':', ' '] + val;
    assert(item =~= seq![' '] + body);
    assert(body[0] == key[0]);
    assert(body.last() == val.last());
    lemma_trim_space(body);
    assert forall|j: int| 0 <= j < key.len() implies body[j] != ':' by {
        assert(body[j] == key[j]);
    }
    assert(body[key.len() as int] == ':');
    lemma_find_char_is(body, ':', key.len() as int);
    assert(body.subrange(0, key.len() as int) =~= key);
    assert(body.subrange(key.len() as int + 1, body.len() as int) =~= seq![' '] + val);
    lemma_trim_noop(key);
    lemma_trim_space(val);
    assert forall|i: int| 0 <= i < l.len() implies l[i] != '\n' && l[i] != '\r' by {
        if 2 <= i < 2 + key.len() {
            assert(l[i] == key[i - 2]);
        } else if i >= 4 + key.len() {
            assert(l[i] == val[i - 4 - key.len()]);
        }
    }
}

/// Trimmed text that is not empty starts with a character that is not
/// white space.
pub proof fn lemma_trim_start_first(s: Seq<char>)
    ensures
        trim_start(s).len() > 0 ==> !is_ws(trim_start(s)[0]),
    decreases s.len(),
{
    if s.len() > 0 && is_ws(s[0]) {
        lemma_trim_start_first(s.drop_first());
    }
}

/// Trimming the end keeps every character up to the last one that is not
/// white space.
pub proof fn lemma_trim_end_keeps(s: Seq<char>, j: int)
    requires
        0 <= j < s.len(),
        !is_ws(s[j]),
    ensures
        j < trim_end(s).len() <= s.len(),
        forall|i: int| 0 <= i < trim_end(s).len() ==> trim_end(s)[i] == s[i],
    decreases s.len(),
{
    if is_ws(s.last()) {
        assert(j < s.len() - 1);
        lemma_trim_end_keeps(s.drop_last(), j);
        assert(trim_end(s) == trim_end(s.drop_last()));
        assert forall|i: int| 0 <= i < trim_end(s).len() implies trim_end(s)[i] == s[i] by {
            assert(s.drop_last()[i] == s[i]);
        }
    }
}

/// A stored line of a note that has no entry line opens nothing.
pub proof fn lemma_encoded_quiet(l: Seq<char>)
    requires
        no_breaks(l),
        heading_flush(l),
        !is_node_metadata_spec(trim(l)),
    ensures
        quiet_line(encode_line(l)),
{
    let t = trim_start(l);
    let e = encode_line(l);
    lemma_trim_start_first(l);
    if t.len() > 0 && t[0] == '*' {
        assert(e == three_stars() + l);
        assert(e[0] == '*' && e[1] == '*' && e[2] == '*' && e[3] == '*');
        assert(trim_start(e) == e);
        lemma_trim_end_keeps(e, 3);
        let te = trim(e);
        assert(te[0] == '*' && te[2] == '*' && te[3] == '*');
        assert(!has_prefix(te, node_prefix())) by {
            assert(te.subrange(0, 3)[2] == '*');
        }
        assert(!has_prefix(te, desc_header())) by {
            if te.len() >= 16 {
                assert(te.subrange(0, 16)[3] == '*');
            }
        }
        assert(!has_prefix(te, notes_header())) by {
            if te.len() >= 19 {
                assert(te.subrange(0, 19)[3] == '*');
            }
        }
    } else if l.len() > 0 {
        assert(e == six_spaces() + l);
        lemma_trim_start_skip(six_spaces(), l);
        assert(trim(e) == trim(l));
        let tl = trim(l);
        if tl.len() > 0 {
            lemma_trim_end_keeps(t, 0);
            assert(tl[0] == t[0]);
            assert(!has_prefix(tl, node_prefix())) by {
                if tl.len() >= 3 {
                    assert(tl.subrange(0, 3)[0] == t[0]);
                }
            }
            assert(!has_prefix(tl, desc_header())) by {
                if tl.len() >= 16 {
                    assert(tl.subrange(0, 16)[0] == t[0]);
                }
            }
            assert(!has_prefix(tl, notes_header())) by {
                if tl.len() >= 19 {
                    assert(tl.subrange(0, 19)[0] == t[0]);
                }
            }
        }
    } else {
        assert(e.len() == 0);
        assert(trim(e) =~= Seq::<char>::empty());
    }
}

/// A note that the Org document stores and reads back as it is: storable,
/// not starting with a line feed, and without lines that read as entries.
pub open spec fn org_storable(s: Seq<char>) -> bool {
    &&& storable_note(s)
    &&& (s.len() == 0 || s[0] != '\n')
    &&& forall|k: int| 0 <= k < lines(s).len() ==> !is_node_metadata_spec(trim(#[trigger] lines(s)[k]))
}

/// The stored lines of a note are its own lines, stored one by one.
pub proof fn lemma_encoded_lines(s: Seq<char>)
    requires
        storable_note(s),
    ensures
        lines(encode_spec(s)) == lines(s).map_values(|l: Seq<char>| encode_line(l)),
        forall|k: int| 0 <= k < lines(s).len() ==> no_breaks(#[trigger] lines(s)[k]),
        forall|k: int| 0 <= k < lines(s).len() ==> no_breaks(#[trigger] lines(encode_spec(s))[k]),
        forall|k: int| 0 <= k < lines(s).len() ==> (lines(encode_spec(s))[k].len() == 0 <==> #[trigger] lines(s)[k].len() == 0),
        lines(s).len() > 0 ==> lines(s).last().len() > 0,
{
    let ls = lines(s);
    lemma_join_lines(s);
    let es = ls.map_values(|l: Seq<char>| encode_line(l));
    assert forall|k: int| 0 <= k < ls.len() implies no_breaks(#[trigger] es[k]) && (es[k].len() == 0 <==> ls[k].len() == 0) by {
        assert(no_breaks(ls[k]));
        assert(heading_flush(ls[k]));
        lemma_line_round_trip(ls[k]);
    }
    if es.len() > 0 {
        assert(es.last() == es[es.len() - 1]);
        assert(ls.last() == ls[ls.len() - 1]);
    }
    lemma_lines_join(es);
}

/// The first line of text that does not start with a line feed is not
/// empty.
pub proof fn lemma_first_line(s: Seq<char>)
    requires
        s.len() > 0,
        s[0] != '\n',
        forall|i: int| 0 <= i < s.len() ==> s[i] != '\r',
    ensures
        lines(s).len() > 0,
        lines(s)[0].len() > 0,
{
    lemma_find_char_bounds(s, '\n');
    match find_char(s, '\n') {
        None => {},
        Some(i) => {
            assert(i > 0);
            let a = s.subrange(0, i);
            assert(a.last() == s[i - 1]);
            assert(strip_cr(a) == a);
            assert(lines(s) == seq![a] + lines(s.subrange(i + 1, s.len() as int)));
        },
    }
}

/// A note's block in the document: its stored lines open nothing, the
/// block reads back as the stored note, and the stored note as the note.
pub proof fn lemma_note_block(s: Seq<char>)
    requires
        org_storable(s),
    ensures
        forall|k: int| 0 <= k < lines(encode_spec(s)).len() ==> quiet_line(#[trigger] lines(encode_spec(s))[k]),
        forall|k: int| 0 <= k < lines(encode_spec(s)).len() ==> no_breaks(#[trigger] lines(encode_spec(s))[k]),
        block_text(lines(encode_spec(s)).push(Seq::<char>::empty())) == encode_spec(s),
        opt_line(encode_spec(s)) == terminated(lines(encode_spec(s))),
        decode_ok(encode_spec(s)),
        decode_spec(encode_spec(s)) == s,
{
    let e = encode_spec(s);
    let ls = lines(s);
    let es = lines(e);
    lemma_encoded_lines(s);
    lemma_org_note_round_trip(s);
    assert(es.len() == ls.len());
    assert forall|k: int| 0 <= k < es.len() implies quiet_line(#[trigger] es[k]) by {
        assert(es[k] == encode_line(ls[k]));
        assert(no_breaks(ls[k]));
        assert(heading_flush(ls[k]));
        assert(!is_node_metadata_spec(trim(ls[k])));
        lemma_encoded_quiet(ls[k]);
    }
    let bl = es.push(Seq::<char>::empty());
    if s.len() == 0 {
        assert(ls =~= Seq::<Seq<char>>::empty());
        assert(es =~= Seq::<Seq<char>>::empty());
        assert(e =~= Seq::<char>::empty());
        assert(bl =~= seq![Seq::<char>::empty()]);
        assert(join(bl, seq!['\n']) == bl[0]);
        assert(trim_start_char(Seq::<char>::empty(), '\n') =~= Seq::<char>::empty());
        assert(trim_end_char(Seq::<char>::empty(), '\n') =~= Seq::<char>::empty());
        assert(terminated(es) =~= Seq::<char>::empty());
    } else {
        lemma_first_line(s);
        assert(es[0] == encode_line(ls[0]));
        assert(es[0].len() > 0);
        assert(es.last() == es[es.len() - 1]);
        assert(ls.last() == ls[ls.len() - 1]);
        assert(es.last().len() > 0);
        assert(e == join(es, seq!['\n'])) by {
            assert(encode_spec(s) == join(ls.map_values(|l: Seq<char>| encode_line(l)), seq!['\n']));
        }
        lemma_join_last(es);
        if es.len() > 1 {
            assert(es =~= seq![es[0]] + es.drop_first());
            lemma_join_cons(es[0], es.drop_first());
        }
        assert(e[0] == es[0][0]);
        assert(no_breaks(es[0]));
        assert(no_breaks(es[es.len() - 1]));
        assert(e[0] != '\n');
        assert(e.last() == es.last().last());
        assert(e.last() != '\n');
        assert(bl.drop_last() =~= es);
        assert(join(bl, seq!['\n']) =~= e + seq!['\n'] + Seq::<char>::empty());
        let x = e.push('\n');
        assert(join(bl, seq!['\n']) =~= x);
        assert(trim_start_char(x, '\n') == x);
        assert(x.drop_last() =~= e);
        assert(trim_end_char(x, '\n') == trim_end_char(e, '\n'));
        assert(trim_end_char(e, '\n') == e);
        lemma_terminated_join(es);
        assert(opt_line(e) == e.push('\n'));
        assert(terminated(es) =~= e.push('\n'));
    }
}

/// Reading one more line.
pub proof fn lemma_org_scan_push(st: OrgState, ls: Seq<Seq<char>>, l: Seq<char>)
    ensures
        org_scan(st, ls.push(l)) == org_step(org_scan(st, ls), l),
        org_scan_ok(st, ls.push(l)) == (org_scan_ok(st, ls) && (has_prefix(trim(l), node_prefix())
            ==> org_finalize_ok(org_scan(st, ls)))),
{
    assert(ls.push(l).drop_last() =~= ls);
    assert(ls.push(l).last() == l);
}

/// A run of entry lines adds its entries, in order, and closes the open
/// block.
pub proof fn lemma_org_entries_run(st: OrgState, kv: Seq<(Seq<char>, Seq<char>)>)
    requires
        forall|k: int| 0 <= k < kv.len() ==> org_entry_ok(#[trigger] kv[k].0, kv[k].1),
    ensures
        org_scan(st, entry_lines(kv)) == (OrgState {
            kv: st.kv + kv,
            active: if kv.len() > 0 { 0 } else { st.active },
            ..st
        }),
        org_scan_ok(st, entry_lines(kv)),
        forall|k: int| 0 <= k < kv.len() ==> no_breaks(#[trigger] entry_lines(kv)[k]),
    decreases kv.len(),
{
    if kv.len() == 0 {
        assert(entry_lines(kv) =~= Seq::<Seq<char>>::empty());
        assert(st.kv + kv =~= st.kv);
    } else {
        let pre = kv.drop_last();
        assert forall|k: int| 0 <= k < pre.len() implies org_entry_ok(#[trigger] pre[k].0, pre[k].1) by {
            assert(pre[k] == kv[k]);
        }
        lemma_org_entries_run(st, pre);
        assert(entry_lines(kv) =~= entry_lines(pre).push(entry_line(kv.last().0, kv.last().1)));
        lemma_org_scan_push(st, entry_lines(pre), entry_line(kv.last().0, kv.last().1));
        assert(org_entry_ok(kv[kv.len() - 1].0, kv[kv.len() - 1].1));
        lemma_org_entry_step(org_scan(st, entry_lines(pre)), kv.last().0, kv.last().1);
        assert((st.kv + pre).push(kv.last()) =~= st.kv + kv);
        assert forall|k: int| 0 <= k < kv.len() implies no_breaks(#[trigger] entry_lines(kv)[k]) by {
            if k < pre.len() {
                assert(entry_lines(kv)[k] == entry_lines(pre)[k]);
            }
        }
    }
}

/// Lines written one per line feed, in two runs.
pub proof fn lemma_terminated_append(a: Seq<Seq<char>>, b: Seq<Seq<char>>)
    ensures
        terminated(a + b) == terminated(a) + terminated(b),
{
    let f = |l: Seq<char>| l.push('\n');
    assert((a + b).map_values(f) =~= a.map_values(f) + b.map_values(f));
    vstd::seq_lib::lemma_flatten_concat(a.map_values(f), b.map_values(f));
}

/// The entries written after a node's notes.
pub open spec fn org_tail_kv(n: FocusNode, parents: Seq<u128>, num: (Seq<char>, Seq<char>, Seq<char>)) -> Seq<(Seq<char>, Seq<char>)> {
    (match n.image_id {
        Some(i) => seq![(image_id_key(), quoted(uuid_hyphenated(i)))],
        None => Seq::empty(),
    }) + seq![
        (status_key(), num.0),
        (is_collapsed_key(), bool_text(n.is_collapsed)),
        (is_frozen_key(), bool_text(n.is_frozen)),
        (prerequisites_key(), seq!['['] + parent_list(parents) + seq![']']),
        (position_key(), position_text(num.1, num.2)),
    ]
}

/// The entries written for one node, in order.
pub open spec fn org_node_kv(n: FocusNode, parents: Seq<u128>, num: (Seq<char>, Seq<char>, Seq<char>)) -> Seq<(Seq<char>, Seq<char>)> {
    seq![(id_key(), quoted(uuid_hyphenated(n.id)))] + org_tail_kv(n, parents, num)
}

/// The lines written for one node.
pub open spec fn org_node_lines(n: FocusNode, parents: Seq<u128>, num: (Seq<char>, Seq<char>, Seq<char>)) -> Seq<Seq<char>> {
    seq![node_prefix() + n.title@, Seq::empty(), entry_line(id_key(), quoted(uuid_hyphenated(n.id))), desc_header()]
        + lines(encode_spec(n.description@))
        + seq![Seq::empty(), notes_header()]
        + lines(encode_spec(n.progress_notes@))
        + org_tail_lines(n, parents, num)
}

/// A node whose section reads back as written, with the number texts
/// written for it.
pub open spec fn org_exportable(n: FocusNode, num: (Seq<char>, Seq<char>, Seq<char>)) -> bool {
    &&& plain_ends(n.title@)
    &&& org_storable(n.description@)
    &&& org_storable(n.progress_notes@)
    &&& plain_token(num.0)
    &&& plain_token(num.1)
    &&& plain_token(num.2)
}

/// The tail lines are an empty line, the tail entries and an empty line.
pub proof fn lemma_tail_shape(n: FocusNode, parents: Seq<u128>, num: (Seq<char>, Seq<char>, Seq<char>))
    ensures
        org_tail_lines(n, parents, num) == seq![Seq::<char>::empty()] + entry_lines(org_tail_kv(n, parents, num))
            + seq![Seq::<char>::empty()],
{
    let kv = org_tail_kv(n, parents, num);
    let el = entry_lines(kv);
    let lhs = org_tail_lines(n, parents, num);
    let rhs = seq![Seq::<char>::empty()] + el + seq![Seq::<char>::empty()];
    assert(lhs.len() == rhs.len());
    assert forall|i: int| 0 <= i < lhs.len() implies lhs[i] == rhs[i] by {
        if 1 <= i < lhs.len() - 1 {
            assert(rhs[i] == el[i - 1]);
            assert(el[i - 1] == entry_line(kv[i - 1].0, kv[i - 1].1));
        }
    }
    assert(lhs =~= rhs);
}

/// Every entry written for an exportable node reads back as written.
pub proof fn lemma_org_kv_ok(n: FocusNode, parents: Seq<u128>, num: (Seq<char>, Seq<char>, Seq<char>))
    requires
        org_exportable(n, num),
    ensures
        forall|k: int| 0 <= k < org_node_kv(n, parents, num).len() ==> org_entry_ok(
            #[trigger] org_node_kv(n, parents, num)[k].0,
            org_node_kv(n, parents, num)[k].1,
        ),
        forall|k: int| 0 <= k < org_tail_kv(n, parents, num).len() ==> org_entry_ok(
            #[trigger] org_tail_kv(n, parents, num)[k].0,
            org_tail_kv(n, parents, num)[k].1,
        ),
{
    let kv = org_node_kv(n, parents, num);
    let tk = org_tail_kv(n, parents, num);
    lemma_quoted_uuid_readable(n.id);
    if let Some(i) = n.image_id {
        lemma_quoted_uuid_readable(i);
    }
    lemma_plain_token(num.0);
    lemma_plain_token(num.1);
    lemma_plain_token(num.2);
    lemma_bool_readable(n.is_collapsed);
    lemma_bool_readable(n.is_frozen);
    let pl = parents.map_values(|p: u128| quoted(uuid_hyphenated(p)));
    assert forall|k: int| 0 <= k < pl.len() implies no_breaks(#[trigger] pl[k]) by {
        lemma_quoted_uuid_readable(parents[k]);
    }
    lemma_join_no_breaks(pl, seq![',', ' ']);
    lemma_bracketed_readable(parent_list(parents));
    let pos_inner = num.1 + seq![',', ' '] + num.2;
    assert(position_text(num.1, num.2) =~= seq!['['] + pos_inner + seq![']']);
    assert forall|i: int| 0 <= i < pos_inner.len() implies pos_inner[i] != '\n' && pos_inner[i] != '\r' by {
        if i < num.1.len() {
            assert(pos_inner[i] == num.1[i]);
        } else if i >= num.1.len() + 2 {
            assert(pos_inner[i] == num.2[i - num.1.len() - 2]);
        }
    }
    lemma_bracketed_readable(pos_inner);
    assert forall|k: int| 0 <= k < kv.len() implies org_entry_ok(#[trigger] kv[k].0, kv[k].1) by {
        let key = kv[k].0;
        assert(key == id_key() || key == image_id_key() || key == status_key() || key == is_collapsed_key()
            || key == is_frozen_key() || key == prerequisites_key() || key == position_key());
        assert forall|i: int| 0 <= i < key.len() implies ('a' <= #[trigger] key[i] && key[i] <= 'z') || key[i] == '_' by {
        }
        lemma_key_readable(key, kv[k].1);
        assert(key[0] != '[');
    }
    assert forall|k: int| 0 <= k < tk.len() implies org_entry_ok(#[trigger] tk[k].0, tk[k].1) by {
        assert(tk[k] == kv[k + 1]);
    }
}

/// The text written for a node is its lines, each ended by a line feed.
pub proof fn lemma_org_node_text(n: FocusNode, parents: Seq<u128>, num: (Seq<char>, Seq<char>, Seq<char>))
    requires
        org_exportable(n, num),
    ensures
        org_node_text(n, parents, num) == terminated(org_node_lines(n, parents, num)),
{
    let a = seq![node_prefix() + n.title@, Seq::empty(), entry_line(id_key(), quoted(uuid_hyphenated(n.id))), desc_header()];
    let b = lines(encode_spec(n.description@));
    let c = seq![Seq::<char>::empty(), notes_header()];
    let d = lines(encode_spec(n.progress_notes@));
    let e = org_tail_lines(n, parents, num);
    lemma_note_block(n.description@);
    lemma_note_block(n.progress_notes@);
    lemma_terminated_append(a, b);
    lemma_terminated_append(a + b, c);
    lemma_terminated_append(a + b + c, d);
    lemma_terminated_append(a + b + c + d, e);
    assert(org_node_lines(n, parents, num) == a + b + c + d + e);
}

/// The reader after a node's section, with the records `nodes` closed
/// before it.
pub open spec fn org_block_state(
    nodes: Seq<OrgRecord>,
    n: FocusNode,
    parents: Seq<u128>,
    num: (Seq<char>, Seq<char>, Seq<char>),
) -> OrgState {
    OrgState {
        nodes: nodes,
        title: Some(n.title@),
        kv: org_node_kv(n, parents, num),
        desc: lines(encode_spec(n.description@)).push(Seq::empty()),
        notes: lines(encode_spec(n.progress_notes@)).push(Seq::empty()),
        active: 0,
    }
}

/// The first four lines of a node's section: its heading, an empty line,
/// its identifier and the description header.
proof fn lemma_org_head_scan(st: OrgState, n: FocusNode)
    requires
        plain_ends(n.title@),
        st.title is Some || (st.kv.len() == 0 && st.desc.len() == 0 && st.notes.len() == 0),
    ensures
        ({
            let a = seq![node_prefix() + n.title@, Seq::empty(), entry_line(id_key(), quoted(uuid_hyphenated(n.id))), desc_header()];
            &&& org_scan(st, a) == (OrgState {
                nodes: org_finalize(st).nodes,
                title: Some(n.title@),
                kv: seq![(id_key(), quoted(uuid_hyphenated(n.id)))],
                desc: Seq::empty(),
                notes: Seq::empty(),
                active: 1,
            })
            &&& (org_finalize_ok(st) ==> org_scan_ok(st, a))
            &&& forall|k: int| 0 <= k < a.len() ==> no_breaks(#[trigger] a[k])
        }),
{
    let t = node_prefix() + n.title@;
    let e = Seq::<char>::empty();
    let id = entry_line(id_key(), quoted(uuid_hyphenated(n.id)));
    let dh = desc_header();
    let a = seq![t, e, id, dh];
    let e0 = Seq::<Seq<char>>::empty();
    assert(a =~= e0.push(t).push(e).push(id).push(dh));
    assert(org_scan(st, e0) == st);
    assert(org_scan_ok(st, e0));
    lemma_org_scan_push(st, e0, t);
    lemma_org_title_step(st, n.title@);
    let s1 = OrgState { title: Some(n.title@), active: 0, ..org_finalize(st) };
    assert(s1.kv.len() == 0 && s1.desc.len() == 0 && s1.notes.len() == 0);
    lemma_org_scan_push(st, e0.push(t), e);
    lemma_blank_quiet();
    lemma_quiet_step(s1, e);
    lemma_org_scan_push(st, e0.push(t).push(e), id);
    lemma_quoted_uuid_readable(n.id);
    let key = id_key();
    assert forall|i: int| 0 <= i < key.len() implies ('a' <= #[trigger] key[i] && key[i] <= 'z') || key[i] == '_' by {
    }
    lemma_key_readable(key, quoted(uuid_hyphenated(n.id)));
    lemma_org_entry_step(s1, key, quoted(uuid_hyphenated(n.id)));
    let s3 = OrgState { kv: s1.kv.push((key, quoted(uuid_hyphenated(n.id)))), active: 0, ..s1 };
    lemma_org_scan_push(st, e0.push(t).push(e).push(id), dh);
    lemma_desc_header_step(s3);
    assert(s1.kv.push((key, quoted(uuid_hyphenated(n.id)))) =~= seq![(id_key(), quoted(uuid_hyphenated(n.id)))]);
    assert(s1.desc =~= Seq::<Seq<char>>::empty());
    assert(s1.notes =~= Seq::<Seq<char>>::empty());
    assert(trim(e) =~= Seq::<char>::empty());
    assert(no_breaks(e));
}

/// The lines after a node's notes: an empty line that ends the notes
/// block, the tail entries, and an empty line.
proof fn lemma_org_tail_scan(st: OrgState, n: FocusNode, parents: Seq<u128>, num: (Seq<char>, Seq<char>, Seq<char>))
    requires
        org_exportable(n, num),
        st.active == 2,
    ensures
        org_scan(st, org_tail_lines(n, parents, num)) == (OrgState {
            notes: st.notes.push(Seq::empty()),
            kv: st.kv + org_tail_kv(n, parents, num),
            active: 0,
            ..st
        }),
        org_scan_ok(st, org_tail_lines(n, parents, num)),
        forall|k: int| 0 <= k < org_tail_lines(n, parents, num).len() ==> no_breaks(#[trigger] org_tail_lines(n, parents, num)[k]),
{
    let e = Seq::<char>::empty();
    let tk = org_tail_kv(n, parents, num);
    let el = entry_lines(tk);
    let t = org_tail_lines(n, parents, num);
    lemma_tail_shape(n, parents, num);
    lemma_org_kv_ok(n, parents, num);
    lemma_blank_quiet();
    lemma_quiet_step(st, e);
    let s9 = org_take(st, e);
    lemma_org_entries_run(s9, tk);
    lemma_org_scan_append(st, seq![e], el);
    let s10 = OrgState { kv: s9.kv + tk, active: 0, ..s9 };
    lemma_org_scan_push(st, seq![e] + el, e);
    lemma_quiet_step(s10, e);
    assert(t == (seq![e] + el).push(e));
    assert(no_breaks(e));
    assert forall|k: int| 0 <= k < t.len() implies no_breaks(#[trigger] t[k]) by {
        if 1 <= k < t.len() - 1 {
            assert(t[k] == el[k - 1]);
        }
    }
}

/// The lines from a node's description to its end, read from the state
/// right after the description header.
proof fn lemma_org_blocks_scan(st: OrgState, n: FocusNode, parents: Seq<u128>, num: (Seq<char>, Seq<char>, Seq<char>))
    requires
        org_exportable(n, num),
        st.active == 1,
        st.desc.len() == 0,
        st.notes.len() == 0,
    ensures
        ({
            let rest = lines(encode_spec(n.description@)) + seq![Seq::<char>::empty(), notes_header()]
                + lines(encode_spec(n.progress_notes@)) + org_tail_lines(n, parents, num);
            &&& org_scan(st, rest) == (OrgState {
                kv: st.kv + org_tail_kv(n, parents, num),
                desc: lines(encode_spec(n.description@)).push(Seq::empty()),
                notes: lines(encode_spec(n.progress_notes@)).push(Seq::empty()),
                active: 0,
                ..st
            })
            &&& org_scan_ok(st, rest)
        }),
{
    let b = lines(encode_spec(n.description@));
    let e = Seq::<char>::empty();
    let c = seq![e, notes_header()];
    let d = lines(encode_spec(n.progress_notes@));
    let t = org_tail_lines(n, parents, num);
    lemma_note_block(n.description@);
    lemma_note_block(n.progress_notes@);
    lemma_blank_quiet();
    lemma_quiet_run(st, b);
    let s5 = org_scan(st, b);
    assert(st.desc + b =~= b);
    lemma_org_scan_push(st, b, e);
    lemma_quiet_step(s5, e);
    let s6 = org_take(s5, e);
    lemma_org_scan_push(st, b.push(e), notes_header());
    lemma_notes_header_step(s6);
    let s7 = OrgState { active: 2, ..s6 };
    assert(b.push(e).push(notes_header()) =~= b + c);
    lemma_quiet_run(s7, d);
    lemma_org_scan_append(st, b + c, d);
    let s8 = org_scan(st, b + c + d);
    assert(s7.notes + d =~= d);
    lemma_org_tail_scan(s8, n, parents, num);
    lemma_org_scan_append(st, b + c + d, t);
}

/// Every line written for an exportable node is free of line breaks.
proof fn lemma_org_node_lines_no_breaks(n: FocusNode, parents: Seq<u128>, num: (Seq<char>, Seq<char>, Seq<char>))
    requires
        org_exportable(n, num),
    ensures
        forall|k: int| 0 <= k < org_node_lines(n, parents, num).len() ==> no_breaks(#[trigger] org_node_lines(n, parents, num)[k]),
{
    let a = seq![node_prefix() + n.title@, Seq::empty(), entry_line(id_key(), quoted(uuid_hyphenated(n.id))), desc_header()];
    let b = lines(encode_spec(n.description@));
    let e = Seq::<char>::empty();
    let c = seq![e, notes_header()];
    let d = lines(encode_spec(n.progress_notes@));
    let t = org_tail_lines(n, parents, num);
    let ls = org_node_lines(n, parents, num);
    assert(ls == a + b + c + d + t);
    let st = crate::orgmode::org_init();
    lemma_org_head_scan(st, n);
    lemma_note_block(n.description@);
    lemma_note_block(n.progress_notes@);
    lemma_notes_header_step(st);
    let s2 = OrgState { active: 2, ..st };
    lemma_org_tail_scan(s2, n, parents, num);
    assert(no_breaks(e));
    assert forall|k: int| 0 <= k < ls.len() implies no_breaks(#[trigger] ls[k]) by {
        if k < a.len() {
            assert(ls[k] == a[k]);
        } else if k < a.len() + b.len() {
            assert(ls[k] == b[k - a.len()]);
        } else if k < a.len() + b.len() + c.len() {
            assert(ls[k] == c[k - a.len() - b.len()]);
        } else if k < a.len() + b.len() + c.len() + d.len() {
            assert(ls[k] == d[k - a.len() - b.len() - c.len()]);
        } else {
            assert(ls[k] == t[k - a.len() - b.len() - c.len() - d.len()]);
        }
    }
}

/// Reading a node's section closes the open section and leaves the new
/// one open with exactly the node's entries and blocks.
pub proof fn lemma_org_block_scan(st: OrgState, n: FocusNode, parents: Seq<u128>, num: (Seq<char>, Seq<char>, Seq<char>))
    requires
        org_exportable(n, num),
        st.title is Some || (st.kv.len() == 0 && st.desc.len() == 0 && st.notes.len() == 0),
    ensures
        org_scan(st, org_node_lines(n, parents, num)) == org_block_state(org_finalize(st).nodes, n, parents, num),
        org_finalize_ok(st) ==> org_scan_ok(st, org_node_lines(n, parents, num)),
        forall|k: int| 0 <= k < org_node_lines(n, parents, num).len() ==> no_breaks(#[trigger] org_node_lines(n, parents, num)[k]),
{
    let a = seq![node_prefix() + n.title@, Seq::empty(), entry_line(id_key(), quoted(uuid_hyphenated(n.id))), desc_header()];
    let rest = lines(encode_spec(n.description@)) + seq![Seq::<char>::empty(), notes_header()]
        + lines(encode_spec(n.progress_notes@)) + org_tail_lines(n, parents, num);
    lemma_org_head_scan(st, n);
    lemma_org_blocks_scan(org_scan(st, a), n, parents, num);
    lemma_org_scan_append(st, a, rest);
    assert(org_node_lines(n, parents, num) =~= a + rest);
    assert(seq![(id_key(), quoted(uuid_hyphenated(n.id)))] + org_tail_kv(n, parents, num) == org_node_kv(n, parents, num));
    lemma_org_node_lines_no_breaks(n, parents, num);
}

/// The record a node's section is expected to read back as.
pub open spec fn org_expected_record(n: FocusNode, parents: Seq<u128>, num: (Seq<char>, Seq<char>, Seq<char>)) -> OrgRecord {
    OrgRecord {
        title: n.title@,
        description: n.description@,
        progress_notes: n.progress_notes@,
        kv: org_node_kv(n, parents, num),
    }
}

/// Closing a node's section reads its blocks back as the node's texts.
pub proof fn lemma_org_block_close(nodes: Seq<OrgRecord>, n: FocusNode, parents: Seq<u128>, num: (Seq<char>, Seq<char>, Seq<char>))
    requires
        org_exportable(n, num),
    ensures
        org_finalize_ok(org_block_state(nodes, n, parents, num)),
        org_finalize(org_block_state(nodes, n, parents, num)).nodes == nodes.push(org_expected_record(n, parents, num)),
{
    lemma_note_block(n.description@);
    lemma_note_block(n.progress_notes@);
}

/// The records the written document is expected to read back as.
pub open spec fn org_expected_records(
    nodes: Seq<FocusNode>,
    edges: Seq<Edge>,
    nums: Seq<(Seq<char>, Seq<char>, Seq<char>)>,
) -> Seq<OrgRecord> {
    Seq::new(nodes.len(), |i: int| org_expected_record(nodes[i], parents_spec(edges, nodes[i].id), nums[i]))
}

pub open spec fn org_all_exportable(nodes: Seq<FocusNode>, nums: Seq<(Seq<char>, Seq<char>, Seq<char>)>) -> bool {
    nums.len() == nodes.len() && forall|i: int| 0 <= i < nodes.len() ==> org_exportable(#[trigger] nodes[i], nums[i])
}

/// The lines of the first `k` nodes' sections.
pub open spec fn org_doc_blocks(
    nodes: Seq<FocusNode>,
    edges: Seq<Edge>,
    nums: Seq<(Seq<char>, Seq<char>, Seq<char>)>,
    k: nat,
) -> Seq<Seq<char>> {
    Seq::new(k, |i: int| org_node_lines(nodes[i], parents_spec(edges, nodes[i].id), nums[i])).flatten()
}

proof fn lemma_org_doc_scan(
    nodes: Seq<FocusNode>,
    edges: Seq<Edge>,
    nums: Seq<(Seq<char>, Seq<char>, Seq<char>)>,
    k: nat,
)
    requires
        org_all_exportable(nodes, nums),
        1 <= k <= nodes.len(),
    ensures
        org_scan(org_init(), org_doc_blocks(nodes, edges, nums, k)) == org_block_state(
            org_expected_records(nodes, edges, nums).subrange(0, k - 1),
            nodes[k - 1],
            parents_spec(edges, nodes[k - 1].id),
            nums[k - 1],
        ),
        org_scan_ok(org_init(), org_doc_blocks(nodes, edges, nums, k)),
        forall|j: int| 0 <= j < org_doc_blocks(nodes, edges, nums, k).len() ==> no_breaks(#[trigger] org_doc_blocks(nodes, edges, nums, k)[j]),
    decreases k,
{
    let f = |i: int| org_node_lines(nodes[i], parents_spec(edges, nodes[i].id), nums[i]);
    let i = k - 1;
    assert(Seq::new(k, f) =~= Seq::new(i as nat, f).push(f(i)));
    Seq::new(i as nat, f).lemma_flatten_push(f(i));
    let pre = org_doc_blocks(nodes, edges, nums, i as nat);
    assert(org_doc_blocks(nodes, edges, nums, k) =~= pre + f(i));
    lemma_org_scan_append(org_init(), pre, f(i));
    assert(org_exportable(nodes[i], nums[i]));
    let recs = org_expected_records(nodes, edges, nums);
    if i == 0 {
        assert(pre =~= Seq::<Seq<char>>::empty());
        assert(org_scan(org_init(), Seq::<Seq<char>>::empty()) == org_init());
        assert(org_scan_ok(org_init(), Seq::<Seq<char>>::empty()));
        lemma_org_block_scan(org_init(), nodes[0], parents_spec(edges, nodes[0].id), nums[0]);
        assert(recs.subrange(0, 0) =~= Seq::<OrgRecord>::empty());
        assert(org_init().nodes =~= Seq::<OrgRecord>::empty());
        assert(pre + f(i) =~= f(i));
    } else {
        lemma_org_doc_scan(nodes, edges, nums, i as nat);
        let st = org_scan(org_init(), pre);
        let j = i - 1;
        assert(org_exportable(nodes[j], nums[j]));
        lemma_org_block_close(recs.subrange(0, j), nodes[j], parents_spec(edges, nodes[j].id), nums[j]);
        lemma_org_block_scan(st, nodes[i], parents_spec(edges, nodes[i].id), nums[i]);
        assert(recs.subrange(0, j).push(org_expected_record(nodes[j], parents_spec(edges, nodes[j].id), nums[j])) =~= recs.subrange(0, i));
        let b = f(i);
        assert forall|m: int| 0 <= m < (pre + b).len() implies no_breaks(#[trigger] (pre + b)[m]) by {
            if m < pre.len() {
                assert((pre + b)[m] == pre[m]);
            } else {
                assert((pre + b)[m] == b[m - pre.len()]);
            }
        }
    }
}

/// The document heading changes nothing.
proof fn lemma_org_header_scan()
    ensures
        org_scan(org_init(), org_header_lines()) == org_init(),
        org_scan_ok(org_init(), org_header_lines()),
        forall|j: int| 0 <= j < org_header_lines().len() ==> no_breaks(#[trigger] org_header_lines()[j]),
{
    let h = org_header_lines()[0];
    let e = Seq::<char>::empty();
    assert(h[0] == '#');
    assert(h.last() == 'e');
    lemma_trim_noop(h);
    assert(!has_prefix(h, node_prefix())) by {
        assert(h.subrange(0, 3)[0] == '#');
    }
    assert(!has_prefix(h, desc_header())) by {
        assert(h.subrange(0, 16)[0] == '#');
    }
    assert(!has_prefix(h, notes_header())) by {
        assert(h.subrange(0, 19)[0] == '#');
    }
    assert(quiet_line(h));
    lemma_blank_quiet();
    let e0 = Seq::<Seq<char>>::empty();
    assert(org_header_lines() =~= e0.push(h).push(e));
    assert(org_scan(org_init(), e0) == org_init());
    assert(org_scan_ok(org_init(), e0));
    lemma_org_scan_push(org_init(), e0, h);
    lemma_quiet_step(org_init(), h);
    lemma_org_scan_push(org_init(), e0.push(h), e);
    lemma_quiet_step(org_init(), e);
    assert(no_breaks(e));
}

/// The written document is the heading and the nodes' sections, each line
/// ended by a line feed.
proof fn lemma_org_render_lines(
    nodes: Seq<FocusNode>,
    edges: Seq<Edge>,
    nums: Seq<(Seq<char>, Seq<char>, Seq<char>)>,
    k: nat,
)
    requires
        org_all_exportable(nodes, nums),
        k <= nodes.len(),
    ensures
        Seq::new(k, |i: int| org_node_text(nodes[i], parents_spec(edges, nodes[i].id), nums[i])).flatten()
            == terminated(org_doc_blocks(nodes, edges, nums, k)),
    decreases k,
{
    let g = |i: int| org_node_text(nodes[i], parents_spec(edges, nodes[i].id), nums[i]);
    let f = |i: int| org_node_lines(nodes[i], parents_spec(edges, nodes[i].id), nums[i]);
    if k == 0 {
        assert(Seq::new(0, g) =~= Seq::<Seq<char>>::empty());
        assert(Seq::new(0, f) =~= Seq::<Seq<Seq<char>>>::empty());
        assert(org_doc_blocks(nodes, edges, nums, 0) =~= Seq::<Seq<char>>::empty());
        assert(terminated(Seq::<Seq<char>>::empty()) =~= Seq::<char>::empty());
    } else {
        let i = k - 1;
        lemma_org_render_lines(nodes, edges, nums, i as nat);
        assert(Seq::new(k, g) =~= Seq::new(i as nat, g).push(g(i)));
        Seq::new(i as nat, g).lemma_flatten_push(g(i));
        assert(Seq::new(k, f) =~= Seq::new(i as nat, f).push(f(i)));
        Seq::new(i as nat, f).lemma_flatten_push(f(i));
        assert(org_exportable(nodes[i], nums[i]));
        lemma_org_node_text(nodes[i], parents_spec(edges, nodes[i].id), nums[i]);
        lemma_terminated_append(org_doc_blocks(nodes, edges, nums, i as nat), f(i));
    }
}

/// Reading a written document succeeds and gives one record per node, in
/// order: the node's title, description and progress notes, and the
/// entries written for it.
pub proof fn lemma_org_records_of_render(
    nodes: Seq<FocusNode>,
    edges: Seq<Edge>,
    nums: Seq<(Seq<char>, Seq<char>, Seq<char>)>,
)
    requires
        org_all_exportable(nodes, nums),
    ensures
        org_content_ok(org_render_spec(nodes, edges, nums)),
        org_records(org_render_spec(nodes, edges, nums)) == org_expected_records(nodes, edges, nums),
{
    let h = org_header_lines();
    let blocks = org_doc_blocks(nodes, edges, nums, nodes.len());
    lemma_org_render_lines(nodes, edges, nums, nodes.len());
    lemma_terminated_append(h, blocks);
    let content = org_render_spec(nodes, edges, nums);
    assert(content == terminated(h + blocks));
    lemma_org_header_scan();
    let recs = org_expected_records(nodes, edges, nums);
    if nodes.len() == 0 {
        assert(blocks =~= Seq::<Seq<char>>::empty());
        assert(org_scan(org_init(), blocks) == org_init());
        assert(org_scan_ok(org_init(), blocks));
        assert(recs =~= Seq::<OrgRecord>::empty());
    } else {
        lemma_org_doc_scan(nodes, edges, nums, nodes.len());
        let last = nodes.len() - 1;
        assert(org_exportable(nodes[last], nums[last]));
        lemma_org_block_close(recs.subrange(0, last), nodes[last], parents_spec(edges, nodes[last].id), nums[last]);
        assert(recs.subrange(0, last).push(recs[last]) =~= recs);
    }
    assert forall|j: int| 0 <= j < (h + blocks).len() implies no_breaks(#[trigger] (h + blocks)[j]) by {
        if j < h.len() {
            assert((h + blocks)[j] == h[j]);
        } else {
            assert((h + blocks)[j] == blocks[j - h.len()]);
            if nodes.len() == 0 {
                assert(false);
            }
        }
    }
    crate::md_laws::lemma_lines_terminated(h + blocks);
    lemma_org_scan_append(org_init(), h, blocks);
}

/// The fields a node's entries carry.
pub proof fn lemma_org_node_fields(n: FocusNode, parents: Seq<u128>, num: (Seq<char>, Seq<char>, Seq<char>))
    ensures
        ({
            let kv = org_node_kv(n, parents, num);
            &&& uuid_entry(kv, id_key()) == crate::ids::uuid_parse(uuid_hyphenated(n.id))
            &&& uuid_entry(kv, image_id_key()) == (match n.image_id {
                Some(i) => crate::ids::uuid_parse(uuid_hyphenated(i)),
                None => None,
            })
            &&& bool_spec(kv, is_collapsed_key()) == n.is_collapsed
            &&& bool_spec(kv, is_frozen_key()) == n.is_frozen
            &&& kv_get(kv, prerequisites_key()) == Some(seq!['['] + parent_list(parents) + seq![']'])
        }),
{
    let kv = org_node_kv(n, parents, num);
    let off: int = if n.image_id is Some { 1 } else { 0 };
    assert(kv.len() == 6 + off);
    assert(kv[0].0 == id_key());
    assert(kv[1 + off].0 == status_key());
    assert(kv[2 + off].0 == is_collapsed_key());
    assert(kv[3 + off].0 == is_frozen_key());
    assert(kv[4 + off].0 == prerequisites_key());
    assert(kv[5 + off].0 == position_key());
    assert forall|i: int| 0 <= i < kv.len() implies
        (#[trigger] kv[i]).0 == id_key() || kv[i].0 == image_id_key() || kv[i].0 == status_key()
        || kv[i].0 == is_collapsed_key() || kv[i].0 == is_frozen_key() || kv[i].0 == prerequisites_key()
        || kv[i].0 == position_key() by {
    }
    lemma_kv_get_at(kv, 0);
    lemma_kv_get_at(kv, 2 + off);
    lemma_kv_get_at(kv, 3 + off);
    lemma_kv_get_at(kv, 4 + off);
    match n.image_id {
        Some(i) => {
            assert(kv[1].0 == image_id_key());
            lemma_kv_get_at(kv, 1);
        },
        None => {
            lemma_kv_get_absent(kv, image_id_key());
        },
    }
    lemma_uuid_chars(n.id);
    let u = uuid_hyphenated(n.id);
    assert(u[0] != '"' && u.last() != '"') by {
        assert(uuid_char(u[0]));
        assert(uuid_char(u[u.len() - 1]));
    }
    lemma_unquote(u);
    if let Some(i) = n.image_id {
        lemma_uuid_chars(i);
        let v = uuid_hyphenated(i);
        assert(v[0] != '"' && v.last() != '"') by {
            assert(uuid_char(v[0]));
            assert(uuid_char(v[v.len() - 1]));
        }
        lemma_unquote(v);
    }
    let t = bool_text(true);
    let f = bool_text(false);
    assert(t[0] == 't' && t.last() == 'e');
    assert(f[0] == 'f' && f.last() == 'e');
    lemma_trim_noop(t);
    lemma_trim_noop(f);
    assert(eq_ignore_ascii_case(t, true_text()));
    assert(!eq_ignore_ascii_case(f, true_text()));
}

/// Nodes built from the records `recs`, one per record, each with the
/// progress and position that were read for it.
pub open spec fn org_items_of(items: Seq<ProcessedNode>, recs: Seq<OrgRecord>) -> bool {
    &&& items.len() == recs.len()
    &&& forall|i: int|
        0 <= i < items.len() ==> processed_matches(
            #[trigger] items[i],
            recs[i].title,
            recs[i].description,
            recs[i].progress_notes,
            recs[i].kv,
            items[i].node.status,
            items[i].node.x_bits,
            items[i].node.y_bits,
        )
}

proof fn lemma_org_requests_prefix(
    g: FocusGraph,
    nums: Seq<(Seq<char>, Seq<char>, Seq<char>)>,
    items: Seq<ProcessedNode>,
    k: int,
)
    requires
        g.wf(),
        org_all_exportable(g.nodes@, nums),
        ids_read_back(g.nodes@),
        org_items_of(items, org_expected_records(g.nodes@, g.edges@, nums)),
        0 <= k <= items.len(),
    ensures
        all_requests(items.subrange(0, k)) == graph_requests(g.nodes@.subrange(0, k), g.edges@),
    decreases k,
{
    let nodes = g.nodes@;
    let edges = g.edges@;
    let recs = org_expected_records(nodes, edges, nums);
    if k == 0 {
        assert(items.subrange(0, 0) =~= Seq::<ProcessedNode>::empty());
        assert(nodes.subrange(0, 0) =~= Seq::<FocusNode>::empty());
    } else {
        lemma_org_requests_prefix(g, nums, items, k - 1);
        let i = k - 1;
        let n = nodes[i];
        let ps = parents_spec(edges, n.id);
        lemma_org_node_fields(n, ps, nums[i]);
        lemma_prereq_read_back(ps);
        assert(recs[i] == org_expected_record(n, ps, nums[i]));
        assert(processed_matches(items[i], recs[i].title, recs[i].description, recs[i].progress_notes, recs[i].kv,
            items[i].node.status, items[i].node.x_bits, items[i].node.y_bits));
        assert(reads_back(nodes[i].id));
        assert(items[i].node.id == n.id);
        lemma_parents_spec_members(edges, n.id);
        assert forall|j: int| 0 <= j < ps.len() implies reads_back(#[trigger] ps[j]) by {
            assert(ps.contains(ps[j]));
            assert(is_edge(edges, ps[j], n.id));
            let e = choose|e: int| 0 <= e < edges.len() && edges[e].parent_id == ps[j] && edges[e].child_id == n.id;
            assert(has_node(nodes, edges[e].parent_id));
            let m = choose|m: int| 0 <= m < nodes.len() && nodes[m].id == ps[j];
            assert(reads_back(nodes[m].id));
        }
        lemma_requests_of_parents(n.id, ps);
        let isub = items.subrange(0, k);
        let nsub = nodes.subrange(0, k);
        assert(isub.drop_last() =~= items.subrange(0, i));
        assert(isub.last() == items[i]);
        assert(nsub.drop_last() =~= nodes.subrange(0, i));
        assert(nsub.last() == n);
    }
}

/// Writing a valid graph as an Org document and reading it back succeeds
/// and gives the same tasks, in the same order and with the same texts,
/// flags and identifiers, and exactly the same prerequisite links, as many as before.
/// (Progress and canvas position travel as the number texts the caller
/// writes and reads.)
pub proof fn lemma_org_round_trip(
    g: FocusGraph,
    nums: Seq<(Seq<char>, Seq<char>, Seq<char>)>,
    items: Seq<ProcessedNode>,
)
    requires
        g.wf(),
        org_all_exportable(g.nodes@, nums),
        ids_read_back(g.nodes@),
        org_items_of(items, org_records(org_render_spec(g.nodes@, g.edges@, nums))),
    ensures
        org_content_ok(org_render_spec(g.nodes@, g.edges@, nums)),
        items.len() == g.nodes@.len(),
        forall|i: int| 0 <= i < items.len() ==> same_content((#[trigger] items[i]).node, g.nodes@[i]),
        added_nodes(item_nodes(items)) == item_nodes(items),
        forall|p: u128, c: u128|
            is_edge(link_all(item_nodes(items), all_requests(items)), p, c) <==> is_edge(g.edges@, p, c),
        link_all(item_nodes(items), all_requests(items)).len() == g.edges@.len(),
{
    let nodes = g.nodes@;
    let edges = g.edges@;
    lemma_org_records_of_render(nodes, edges, nums);
    let recs = org_expected_records(nodes, edges, nums);
    assert forall|i: int| 0 <= i < items.len() implies same_content((#[trigger] items[i]).node, nodes[i]) by {
        let n = nodes[i];
        lemma_org_node_fields(n, parents_spec(edges, n.id), nums[i]);
        assert(recs[i] == org_expected_record(n, parents_spec(edges, n.id), nums[i]));
        assert(processed_matches(items[i], recs[i].title, recs[i].description, recs[i].progress_notes, recs[i].kv,
            items[i].node.status, items[i].node.x_bits, items[i].node.y_bits));
        assert(reads_back(nodes[i].id));
    }
    let inodes = item_nodes(items);
    assert forall|i: int, j: int| 0 <= i < inodes.len() && 0 <= j < inodes.len() && i != j implies inodes[i].id != inodes[j].id by {
        assert(same_content(items[i].node, nodes[i]));
        assert(same_content(items[j].node, nodes[j]));
    }
    lemma_added_nodes_distinct(inodes);
    assert forall|k: int| 0 <= k <= items.len() implies all_requests(#[trigger] items.subrange(0, k)) == graph_requests(nodes.subrange(0, k), edges) by {
        lemma_org_requests_prefix(g, nums, items, k);
    }
    assert(items.subrange(0, items.len() as int) =~= items);
    assert(nodes.subrange(0, nodes.len() as int) =~= nodes);
    assert(all_requests(items) == graph_requests(nodes, edges));
    assert forall|i: int| 0 <= i < inodes.len() implies (#[trigger] inodes[i]).id == nodes[i].id by {
        assert(same_content(items[i].node, nodes[i]));
    }
    lemma_link_all_same_ids(inodes, nodes, all_requests(items));
    lemma_rebuild_links(g);
    crate::rebuild::lemma_link_all_distinct(item_nodes(items), all_requests(items));
    assert(g.edges@.no_duplicates()) by {
        assert forall|a: int, b: int| 0 <= a < g.edges@.len() && 0 <= b < g.edges@.len() && a != b implies g.edges@[a] != g.edges@[b] by {
            assert(g.distinct_edges());
        }
    }
    crate::rebuild::lemma_same_links_same_count(link_all(item_nodes(items), all_requests(items)), g.edges@);
}

} // verus!
