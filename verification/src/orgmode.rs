//! The Org-mode document format of a focus tree.
//!
//! ```text
//! #+TITLE: Uslu Focus Tree
//!
//! ** Title
//!
//! - id: "…"
//! *** description:
//!       text, indented by six spaces; headings get three more stars
//!
//! *** progress_notes:
//!       text
//!
//! - status: 75.0
//! - is_collapsed: false
//! - is_frozen: false
//! - prerequisites: ["…"]
//! - position: [120.0, 360.0]
//! ```
use vstd::prelude::*;
use crate::escape::unescape;
use crate::ids::{format_uuid, uuid_hyphenated};
use crate::markdown::nums_view;
use crate::models::{parents_spec, Edge, FocusGraph, FocusNode, NodeStatus};
use crate::records::{
    bool_text, build_processed_node, entry_line, format_parent_uuids, id_key, image_id_key, is_collapsed_key,
    is_frozen_key, kv_view, numbers_view, parent_list, position_key, position_text, prerequisites_key,
    processed_matches, push_terminated, quoted, status_key, terminated, NodeNumbers, ProcessedNode,
};
use crate::text::{
    chars_of, contains_char, find_char, find_char_exec, has_prefix, is_ws, join, join_exec, lines, push_all,
    slice_chars, slice_chars_all, split_lines, starts_with, string_of, trim, trim_exec, trim_matches_char,
    trim_matches_exec, trim_start, trim_start_exec, views,
};

verus! {

/// The bytes UTF-8 takes for `c`.
pub open spec fn utf8_len(c: char) -> int {
    if (c as u32) < 0x80 {
        1
    } else if (c as u32) < 0x800 {
        2
    } else if (c as u32) < 0x10000 {
        3
    } else {
        4
    }
}

/// Whether byte offset `n` of the UTF-8 text of `s` starts a character.
pub open spec fn byte_boundary(s: Seq<char>, n: int) -> bool
    decreases s.len(),
{
    if n == 0 {
        true
    } else if n < 0 || s.len() == 0 {
        false
    } else {
        byte_boundary(s.drop_first(), n - utf8_len(s[0]))
    }
}

/// `s` without its first `n` bytes of UTF-8, when `n` falls on a character
/// boundary.
pub open spec fn drop_bytes(s: Seq<char>, n: int) -> Seq<char>
    decreases s.len(),
{
    if n <= 0 || s.len() == 0 {
        s
    } else {
        drop_bytes(s.drop_first(), n - utf8_len(s[0]))
    }
}

pub open spec fn three_stars() -> Seq<char> {
    seq!['*', '*', '*']
}

pub open spec fn four_stars() -> Seq<char> {
    seq!['*', '*', '*', '*']
}

pub open spec fn six_spaces() -> Seq<char> {
    seq![' ', ' ', ' ', ' ', ' ', ' ']
}

/// One line of a note as stored: a heading gets three more stars, other
/// text six spaces of indentation; an empty line stays empty.
pub open spec fn encode_line(l: Seq<char>) -> Seq<char> {
    let t = trim_start(l);
    if t.len() > 0 && t[0] == '*' {
        three_stars() + l
    } else if l.len() > 0 {
        six_spaces() + l
    } else {
        Seq::empty()
    }
}

/// A note as stored.
pub open spec fn encode_spec(s: Seq<char>) -> Seq<char> {
    join(lines(s).map_values(|l: Seq<char>| encode_line(l)), seq!['\n'])
}

/// One stored line read back: a heading of four or more stars loses its
/// first three bytes, a line indented by six spaces loses them.
pub open spec fn decode_line(l: Seq<char>) -> Seq<char> {
    if has_prefix(trim_start(l), four_stars()) {
        drop_bytes(l, 3)
    } else if has_prefix(l, six_spaces()) {
        l.subrange(6, l.len() as int)
    } else {
        l
    }
}

/// Whether reading back a stored line can cut it: only a heading line
/// whose third byte ends inside a character.
pub open spec fn decode_line_ok(l: Seq<char>) -> bool {
    has_prefix(trim_start(l), four_stars()) ==> byte_boundary(l, 3)
}

pub open spec fn decode_ok(s: Seq<char>) -> bool {
    forall|i: int| 0 <= i < lines(s).len() ==> decode_line_ok(#[trigger] lines(s)[i])
}

/// A stored note read back.
pub open spec fn decode_spec(s: Seq<char>) -> Seq<char> {
    join(lines(s).map_values(|l: Seq<char>| decode_line(l)), seq!['\n'])
}

fn utf8_len_exec(c: char) -> (res: usize)
    ensures
        res == utf8_len(c),
{
    let n = c as u32;
    if n < 0x80 {
        1
    } else if n < 0x800 {
        2
    } else if n < 0x10000 {
        3
    } else {
        4
    }
}

/// `s` without its first `n` bytes.
fn drop_bytes_exec(s: &[char], n: usize) -> (res: Vec<char>)
    requires
        byte_boundary(s@, n as int),
    ensures
        res@ == drop_bytes(s@, n as int),
{
    let mut i: usize = 0;
    let mut left: usize = n;
    assert(s@.subrange(0, s@.len() as int) =~= s@);
    while left > 0
        invariant
            i <= s@.len(),
            left <= n,
            byte_boundary(s@.subrange(i as int, s@.len() as int), left as int),
            drop_bytes(s@, n as int) == drop_bytes(s@.subrange(i as int, s@.len() as int), left as int),
        decreases left,
    {
        let ghost rest = s@.subrange(i as int, s@.len() as int);
        assert(rest.len() > 0);
        assert(rest[0] == s@[i as int]);
        assert(rest.drop_first() =~= s@.subrange(i + 1, s@.len() as int));
        let k = utf8_len_exec(s[i]);
        assert(byte_boundary(rest, left as int) == byte_boundary(rest.drop_first(), left - utf8_len(rest[0])));
        assert(drop_bytes(rest, left as int) == drop_bytes(rest.drop_first(), left - utf8_len(rest[0])));
        left = left - k;
        i = i + 1;
    }
    slice_chars(s, i, s.len())
}

/// One line of a note as stored.
fn encode_line_exec(l: &[char]) -> (res: Vec<char>)
    ensures
        res@ == encode_line(l@),
{
    let t = trim_start_exec(l);
    if t.len() > 0 && t[0] == '*' {
        let mut out: Vec<char> = vec!['*', '*', '*'];
        push_all(&mut out, l);
        out
    } else if l.len() > 0 {
        let mut out: Vec<char> = vec![' ', ' ', ' ', ' ', ' ', ' '];
        push_all(&mut out, l);
        out
    } else {
        Vec::new()
    }
}

/// One stored line read back.
fn decode_line_exec(l: &[char]) -> (res: Vec<char>)
    requires
        decode_line_ok(l@),
    ensures
        res@ == decode_line(l@),
{
    let t = trim_start_exec(l);
    let stars: Vec<char> = vec!['*', '*', '*', '*'];
    let spaces: Vec<char> = vec![' ', ' ', ' ', ' ', ' ', ' '];
    assert(stars@ == four_stars());
    assert(spaces@ == six_spaces());
    if starts_with(&t, &stars) {
        drop_bytes_exec(l, 3)
    } else if starts_with(l, &spaces) {
        slice_chars(l, 6, l.len())
    } else {
        slice_chars_all(l)
    }
}

/// A note as stored: headings demoted by three levels, text indented.
pub fn encode_org_content_indentation(content: &[char]) -> (res: Vec<char>)
    ensures
        res@ == encode_spec(content@),
{
    let ls = split_lines(content);
    let mut out_lines: Vec<Vec<char>> = Vec::new();
    let mut i: usize = 0;
    while i < ls.len()
        invariant
            i <= ls@.len(),
            views(ls@) == lines(content@),
            views(out_lines@) == views(ls@).subrange(0, i as int).map_values(|l: Seq<char>| encode_line(l)),
        decreases ls@.len() - i,
    {
        let e = encode_line_exec(&ls[i]);
        let ghost before = views(out_lines@);
        out_lines.push(e);
        assert(views(out_lines@) =~= before.push(e@));
        proof {
            let pre = views(ls@).subrange(0, i as int);
            assert(views(ls@).subrange(0, i + 1) =~= pre.push(ls@[i as int]@));
            assert(pre.push(ls@[i as int]@).map_values(|l: Seq<char>| encode_line(l)) =~= pre.map_values(|l: Seq<char>| encode_line(l)).push(encode_line(ls@[i as int]@)));
            assert(views(out_lines@) =~= views(ls@).subrange(0, i + 1).map_values(|l: Seq<char>| encode_line(l)));
        }
        i = i + 1;
    }
    assert(views(ls@).subrange(0, ls@.len() as int) =~= views(ls@));
    join_exec(&out_lines, '\n')
}

/// A stored note read back.
pub fn decode_org_content_indentation(content: &[char]) -> (res: Vec<char>)
    requires
        decode_ok(content@),
    ensures
        res@ == decode_spec(content@),
{
    let ls = split_lines(content);
    let mut out_lines: Vec<Vec<char>> = Vec::new();
    let mut i: usize = 0;
    while i < ls.len()
        invariant
            i <= ls@.len(),
            views(ls@) == lines(content@),
            decode_ok(content@),
            views(out_lines@) == views(ls@).subrange(0, i as int).map_values(|l: Seq<char>| decode_line(l)),
        decreases ls@.len() - i,
    {
        assert(decode_line_ok(lines(content@)[i as int]));
        let d = decode_line_exec(&ls[i]);
        let ghost before = views(out_lines@);
        out_lines.push(d);
        assert(views(out_lines@) =~= before.push(d@));
        proof {
            let pre = views(ls@).subrange(0, i as int);
            assert(views(ls@).subrange(0, i + 1) =~= pre.push(ls@[i as int]@));
            assert(pre.push(ls@[i as int]@).map_values(|l: Seq<char>| decode_line(l)) =~= pre.map_values(|l: Seq<char>| decode_line(l)).push(decode_line(ls@[i as int]@)));
            assert(views(out_lines@) =~= views(ls@).subrange(0, i + 1).map_values(|l: Seq<char>| decode_line(l)));
        }
        i = i + 1;
    }
    assert(views(ls@).subrange(0, ls@.len() as int) =~= views(ls@));
    join_exec(&out_lines, '\n')
}

/// A record read from a `** ` section.
pub ghost struct OrgRecord {
    pub title: Seq<char>,
    pub description: Seq<char>,
    pub progress_notes: Seq<char>,
    pub kv: Seq<(Seq<char>, Seq<char>)>,
}

/// The reader's state between lines; `active` is 1 inside a description
/// block, 2 inside a progress-notes block, 0 elsewhere.
pub ghost struct OrgState {
    pub nodes: Seq<OrgRecord>,
    pub title: Option<Seq<char>>,
    pub kv: Seq<(Seq<char>, Seq<char>)>,
    pub desc: Seq<Seq<char>>,
    pub notes: Seq<Seq<char>>,
    pub active: nat,
}

pub open spec fn org_init() -> OrgState {
    OrgState {
        nodes: Seq::empty(),
        title: None,
        kv: Seq::empty(),
        desc: Seq::empty(),
        notes: Seq::empty(),
        active: 0,
    }
}

pub open spec fn node_prefix() -> Seq<char> {
    seq!['*', '*', ' ']
}

pub open spec fn desc_header() -> Seq<char> {
    seq!['*', '*', '*', ' ', 'd', 'e', 's', 'c', 'r', 'i', 'p', 't', 'i', 'o', 'n', ':']
}

pub open spec fn notes_header() -> Seq<char> {
    seq![
        '*', '*', '*', ' ', 'p', 'r', 'o', 'g', 'r', 'e', 's', 's', '_', 'n', 'o', 't', 'e', 's', ':',
    ]
}

/// The text of a block of lines before it is read back: joined, without
/// leading or trailing line feeds.
pub open spec fn block_text(ls: Seq<Seq<char>>) -> Seq<char> {
    trim_matches_char(join(ls, seq!['\n']), '\n')
}

/// Whether closing the open section reads its blocks back without a cut.
pub open spec fn org_finalize_ok(st: OrgState) -> bool {
    st.title is Some ==> decode_ok(block_text(st.desc)) && decode_ok(block_text(st.notes))
}

/// Closes the open section, if any, into a record.
pub open spec fn org_finalize(st: OrgState) -> OrgState {
    match st.title {
        Some(t) => OrgState {
            nodes: st.nodes.push(
                OrgRecord {
                    title: t,
                    description: decode_spec(block_text(st.desc)),
                    progress_notes: decode_spec(block_text(st.notes)),
                    kv: st.kv,
                },
            ),
            title: None,
            kv: Seq::empty(),
            desc: Seq::empty(),
            notes: Seq::empty(),
            ..st
        },
        None => st,
    }
}

/// Whether a trimmed line is a `- key: value` entry and not a task box.
pub open spec fn is_node_metadata_spec(t: Seq<char>) -> bool {
    &&& t.len() > 0
    &&& t[0] == '-'
    &&& !has_prefix(t, crate::notebox::unchecked_box())
    &&& !has_prefix(t, crate::notebox::checked_lower_box())
    &&& !has_prefix(t, crate::notebox::checked_upper_box())
    &&& t.contains(':')
}

pub open spec fn org_kv_step(st: OrgState, item: Seq<char>) -> OrgState {
    let it = trim(item);
    match find_char(it, ':') {
        None => st,
        Some(i) => OrgState {
            kv: st.kv.push((trim(it.subrange(0, i)), trim(it.subrange(i + 1, it.len() as int)))),
            ..st
        },
    }
}

/// The reader after one more line.
pub open spec fn org_step(st: OrgState, line: Seq<char>) -> OrgState {
    let t = trim(line);
    if has_prefix(t, node_prefix()) {
        OrgState { title: Some(trim(t.subrange(3, t.len() as int))), active: 0, ..org_finalize(st) }
    } else if has_prefix(t, desc_header()) {
        OrgState { active: 1, ..st }
    } else if has_prefix(t, notes_header()) {
        OrgState { active: 2, ..st }
    } else if is_node_metadata_spec(t) {
        org_kv_step(OrgState { active: 0, ..st }, t.drop_first())
    } else if st.active == 1 {
        OrgState { desc: st.desc.push(line), ..st }
    } else if st.active == 2 {
        OrgState { notes: st.notes.push(line), ..st }
    } else {
        st
    }
}

pub open spec fn org_scan(st: OrgState, ls: Seq<Seq<char>>) -> OrgState
    decreases ls.len(),
{
    if ls.len() == 0 {
        st
    } else {
        org_step(org_scan(st, ls.drop_last()), ls.last())
    }
}

/// Whether reading the lines `ls` never cuts a stored line.
pub open spec fn org_scan_ok(st: OrgState, ls: Seq<Seq<char>>) -> bool
    decreases ls.len(),
{
    if ls.len() == 0 {
        true
    } else {
        let before = org_scan(st, ls.drop_last());
        org_scan_ok(st, ls.drop_last()) && (has_prefix(trim(ls.last()), node_prefix()) ==> org_finalize_ok(before))
    }
}

/// Whether reading `content` never cuts a stored line: reading a heading
/// line whose third byte ends inside a character is refused.
pub open spec fn org_content_ok(content: Seq<char>) -> bool {
    org_scan_ok(org_init(), lines(content)) && org_finalize_ok(org_scan(org_init(), lines(content)))
}

/// The records of an Org document.
pub open spec fn org_records(content: Seq<char>) -> Seq<OrgRecord> {
    org_finalize(org_scan(org_init(), lines(content))).nodes
}

/// A record read from a `** ` section.
#[derive(Debug)]
pub struct OrgRawNode {
    pub title: Vec<char>,
    pub description: Vec<char>,
    pub progress_notes: Vec<char>,
    pub kv: Vec<(Vec<char>, Vec<char>)>,
}

pub open spec fn org_raw_view(r: OrgRawNode) -> OrgRecord {
    OrgRecord { title: r.title@, description: r.description@, progress_notes: r.progress_notes@, kv: kv_view(r.kv@) }
}

pub open spec fn org_raws_view(v: Seq<OrgRawNode>) -> Seq<OrgRecord> {
    v.map_values(|r: OrgRawNode| org_raw_view(r))
}

struct OrgParser {
    nodes: Vec<OrgRawNode>,
    title: Option<Vec<char>>,
    kv: Vec<(Vec<char>, Vec<char>)>,
    desc: Vec<Vec<char>>,
    notes: Vec<Vec<char>>,
    active: u8,
}

impl OrgParser {
    spec fn state(&self) -> OrgState {
        OrgState {
            nodes: org_raws_view(self.nodes@),
            title: match self.title {
                Some(t) => Some(t@),
                None => None,
            },
            kv: kv_view(self.kv@),
            desc: views(self.desc@),
            notes: views(self.notes@),
            active: self.active as nat,
        }
    }

    spec fn inv(&self) -> bool {
        self.active <= 2
    }

    fn finalize(&mut self)
        requires
            org_finalize_ok(old(self).state()),
        ensures
            final(self).state() == org_finalize(old(self).state()),
            final(self).active == old(self).active,
    {
        let title = self.title.take();
        match title {
            Some(t) => {
                let joined_desc = join_exec(&self.desc, '\n');
                let raw_desc = trim_matches_exec(&joined_desc, '\n');
                let description = decode_org_content_indentation(&raw_desc);
                let joined_notes = join_exec(&self.notes, '\n');
                let raw_notes = trim_matches_exec(&joined_notes, '\n');
                let progress_notes = decode_org_content_indentation(&raw_notes);
                let mut kv: Vec<(Vec<char>, Vec<char>)> = Vec::new();
                std::mem::swap(&mut kv, &mut self.kv);
                let ghost old_nodes = org_raws_view(self.nodes@);
                self.nodes.push(OrgRawNode { title: t, description, progress_notes, kv });
                self.desc = Vec::new();
                self.notes = Vec::new();
                assert(org_raws_view(self.nodes@) =~= old_nodes.push(org_raw_view(self.nodes@.last())));
                assert(kv_view(self.kv@) =~= Seq::<(Seq<char>, Seq<char>)>::empty());
                assert(views(self.desc@) =~= Seq::<Seq<char>>::empty());
                assert(views(self.notes@) =~= Seq::<Seq<char>>::empty());
            },
            None => {},
        }
    }

    fn kv_step(&mut self, item: &[char])
        ensures
            final(self).state() == org_kv_step(old(self).state(), item@),
            final(self).active == old(self).active,
    {
        let it = trim_exec(item);
        match find_char_exec(&it, ':') {
            None => {},
            Some(i) => {
                proof {
                    crate::text::lemma_find_char_bounds(it@, ':');
                }
                let key_part = slice_chars(&it, 0, i);
                let val_part = slice_chars(&it, i + 1, it.len());
                let key = trim_exec(&key_part);
                let val = trim_exec(&val_part);
                let ghost old_kv = kv_view(self.kv@);
                self.kv.push((key, val));
                assert(kv_view(self.kv@) =~= old_kv.push((key@, val@)));
            },
        }
    }

    fn step(&mut self, line: &[char])
        requires
            old(self).inv(),
            has_prefix(trim(line@), node_prefix()) ==> org_finalize_ok(old(self).state()),
        ensures
            final(self).inv(),
            final(self).state() == org_step(old(self).state(), line@),
    {
        let t = trim_exec(line);
        let prefix: Vec<char> = vec!['*', '*', ' '];
        let dh: Vec<char> = vec!['*', '*', '*', ' ', 'd', 'e', 's', 'c', 'r', 'i', 'p', 't', 'i', 'o', 'n', ':'];
        let nh: Vec<char> = vec![
            '*', '*', '*', ' ', 'p', 'r', 'o', 'g', 'r', 'e', 's', 's', '_', 'n', 'o', 't', 'e', 's', ':',
        ];
        assert(prefix@ == node_prefix());
        assert(dh@ == desc_header());
        assert(nh@ == notes_header());
        if starts_with(&t, &prefix) {
            self.finalize();
            let rest = slice_chars(&t, 3, t.len());
            self.title = Some(trim_exec(&rest));
            self.active = 0;
            return;
        }
        if starts_with(&t, &dh) {
            self.active = 1;
            return;
        }
        if starts_with(&t, &nh) {
            self.active = 2;
            return;
        }
        if is_node_metadata_line(&t) {
            self.active = 0;
            let item = slice_chars(&t, 1, t.len());
            assert(item@ == t@.drop_first());
            self.kv_step(&item);
            return;
        }
        if self.active == 1 {
            let ghost before = views(self.desc@);
            self.desc.push(slice_chars_all(line));
            assert(views(self.desc@) =~= before.push(line@));
        } else if self.active == 2 {
            let ghost before = views(self.notes@);
            self.notes.push(slice_chars_all(line));
            assert(views(self.notes@) =~= before.push(line@));
        }
    }
}

/// Whether a trimmed line is a `- key: value` entry and not a task box.
pub fn is_node_metadata_line(t: &[char]) -> (res: bool)
    ensures
        res == is_node_metadata_spec(t@),
{
    if t.len() == 0 || t[0] != '-' {
        return false;
    }
    let unchecked: Vec<char> = vec!['-', ' ', '[', ' ', ']'];
    let lower: Vec<char> = vec!['-', ' ', '[', 'x', ']'];
    let upper: Vec<char> = vec!['-', ' ', '[', 'X', ']'];
    assert(unchecked@ == crate::notebox::unchecked_box());
    assert(lower@ == crate::notebox::checked_lower_box());
    assert(upper@ == crate::notebox::checked_upper_box());
    if starts_with(t, &unchecked) || starts_with(t, &lower) || starts_with(t, &upper) {
        return false;
    }
    contains_char(t, ':')
}

/// Whether byte offset `n` of the UTF-8 text of `s` starts a character.
fn byte_boundary_exec(s: &[char], n: usize) -> (res: bool)
    ensures
        res == byte_boundary(s@, n as int),
{
    let mut i: usize = 0;
    let mut left: usize = n;
    assert(s@.subrange(0, s@.len() as int) =~= s@);
    while left > 0
        invariant
            i <= s@.len(),
            left <= n,
            byte_boundary(s@, n as int) == byte_boundary(s@.subrange(i as int, s@.len() as int), left as int),
        decreases left,
    {
        let ghost rest = s@.subrange(i as int, s@.len() as int);
        if i >= s.len() {
            assert(rest.len() == 0);
            assert(!byte_boundary(rest, left as int));
            return false;
        }
        assert(rest[0] == s@[i as int]);
        assert(rest.drop_first() =~= s@.subrange(i + 1, s@.len() as int));
        let k = utf8_len_exec(s[i]);
        assert(byte_boundary(rest, left as int) == byte_boundary(rest.drop_first(), left - utf8_len(rest[0])));
        if k > left {
            return false;
        }
        left = left - k;
        i = i + 1;
    }
    true
}

/// Whether every stored line of `s` reads back without a cut.
fn decode_ok_exec(s: &[char]) -> (res: bool)
    ensures
        res == decode_ok(s@),
{
    let ls = split_lines(s);
    let stars: Vec<char> = vec!['*', '*', '*', '*'];
    assert(stars@ == four_stars());
    let mut i: usize = 0;
    while i < ls.len()
        invariant
            i <= ls@.len(),
            views(ls@) == lines(s@),
            stars@ == four_stars(),
            forall|k: int| 0 <= k < i ==> decode_line_ok(#[trigger] lines(s@)[k]),
        decreases ls@.len() - i,
    {
        let t = trim_start_exec(&ls[i]);
        assert(ls@[i as int]@ == lines(s@)[i as int]);
        let starred = starts_with(&t, &stars);
        if starred && !byte_boundary_exec(&ls[i], 3) {
            assert(!decode_line_ok(lines(s@)[i as int]));
            return false;
        }
        assert(decode_line_ok(lines(s@)[i as int]));
        i = i + 1;
    }
    true
}

impl OrgParser {
    fn finalize_ok(&self) -> (res: bool)
        ensures
            res == org_finalize_ok(self.state()),
    {
        if self.title.is_none() {
            return true;
        }
        let joined_desc = join_exec(&self.desc, '\n');
        let raw_desc = trim_matches_exec(&joined_desc, '\n');
        let joined_notes = join_exec(&self.notes, '\n');
        let raw_notes = trim_matches_exec(&joined_notes, '\n');
        decode_ok_exec(&raw_desc) && decode_ok_exec(&raw_notes)
    }
}

/// The records of an Org document, one per `** ` section, in order; none
/// when a stored heading line would be cut inside a character.
pub fn parse_org_records(content: &str) -> (res: Option<Vec<OrgRawNode>>)
    ensures
        match res {
            Some(v) => org_content_ok(content@) && org_raws_view(v@) == org_records(content@),
            None => !org_content_ok(content@),
        },
{
    let chars = chars_of(content);
    let ls = split_lines(&chars);
    let mut parser = OrgParser {
        nodes: Vec::new(),
        title: None,
        kv: Vec::new(),
        desc: Vec::new(),
        notes: Vec::new(),
        active: 0,
    };
    assert(org_raws_view(parser.nodes@) =~= Seq::<OrgRecord>::empty());
    assert(kv_view(parser.kv@) =~= Seq::<(Seq<char>, Seq<char>)>::empty());
    assert(views(parser.desc@) =~= Seq::<Seq<char>>::empty());
    assert(views(parser.notes@) =~= Seq::<Seq<char>>::empty());
    assert(parser.state() == org_init());
    let prefix: Vec<char> = vec!['*', '*', ' '];
    assert(prefix@ == node_prefix());
    let mut i: usize = 0;
    assert(views(ls@).subrange(0, 0) =~= Seq::<Seq<char>>::empty());
    while i < ls.len()
        invariant
            i <= ls@.len(),
            views(ls@) == lines(content@),
            prefix@ == node_prefix(),
            parser.inv(),
            parser.state() == org_scan(org_init(), views(ls@).subrange(0, i as int)),
            org_scan_ok(org_init(), views(ls@).subrange(0, i as int)),
        decreases ls@.len() - i,
    {
        let ghost next = views(ls@).subrange(0, i + 1);
        assert(next.drop_last() =~= views(ls@).subrange(0, i as int));
        assert(next.last() == ls@[i as int]@);
        let t = trim_exec(&ls[i]);
        if starts_with(&t, &prefix) && !parser.finalize_ok() {
            proof {
                assert(!org_scan_ok(org_init(), next));
                if org_content_ok(content@) {
                    lemma_org_scan_ok_prefix(org_init(), lines(content@));
                    assert(org_scan_ok(org_init(), lines(content@).subrange(0, i + 1)));
                }
            }
            return None;
        }
        parser.step(&ls[i]);
        i = i + 1;
    }
    assert(views(ls@).subrange(0, ls@.len() as int) =~= views(ls@));
    if !parser.finalize_ok() {
        return None;
    }
    parser.finalize();
    Some(parser.nodes)
}

/// Reading a prefix of lines that reads without a cut reads without a cut.
proof fn lemma_org_scan_ok_prefix(st: OrgState, ls: Seq<Seq<char>>)
    requires
        org_scan_ok(st, ls),
    ensures
        forall|k: int| 0 <= k <= ls.len() ==> org_scan_ok(st, #[trigger] ls.subrange(0, k)),
    decreases ls.len(),
{
    if ls.len() > 0 {
        lemma_org_scan_ok_prefix(st, ls.drop_last());
    }
    assert forall|k: int| 0 <= k <= ls.len() implies org_scan_ok(st, #[trigger] ls.subrange(0, k)) by {
        if k == ls.len() {
            assert(ls.subrange(0, k) =~= ls);
        } else {
            assert(ls.drop_last().subrange(0, k) =~= ls.subrange(0, k));
        }
    }
}

/// `e` and a line feed, or nothing for an empty `e`.
pub open spec fn opt_line(e: Seq<char>) -> Seq<char> {
    if e.len() > 0 {
        e.push('\n')
    } else {
        Seq::empty()
    }
}

/// The lines written after a node's progress notes.
pub open spec fn org_tail_lines(n: FocusNode, parents: Seq<u128>, num: (Seq<char>, Seq<char>, Seq<char>)) -> Seq<Seq<char>> {
    seq![Seq::empty()] + match n.image_id {
        Some(i) => seq![entry_line(image_id_key(), quoted(uuid_hyphenated(i)))],
        None => Seq::empty(),
    } + seq![
        entry_line(status_key(), num.0),
        entry_line(is_collapsed_key(), bool_text(n.is_collapsed)),
        entry_line(is_frozen_key(), bool_text(n.is_frozen)),
        entry_line(prerequisites_key(), seq!['['] + parent_list(parents) + seq![']']),
        entry_line(position_key(), position_text(num.1, num.2)),
        Seq::empty(),
    ]
}

/// The text written for one node.
pub open spec fn org_node_text(n: FocusNode, parents: Seq<u128>, num: (Seq<char>, Seq<char>, Seq<char>)) -> Seq<char> {
    terminated(seq![node_prefix() + n.title@, Seq::empty(), entry_line(id_key(), quoted(uuid_hyphenated(n.id))), desc_header()])
        + opt_line(encode_spec(n.description@))
        + terminated(seq![Seq::empty(), notes_header()])
        + opt_line(encode_spec(n.progress_notes@))
        + terminated(org_tail_lines(n, parents, num))
}

pub open spec fn org_header_lines() -> Seq<Seq<char>> {
    seq![
        seq!['#', '+', 'T', 'I', 'T', 'L', 'E', ':', ' ', 'U', 's', 'l', 'u', ' ', 'F', 'o', 'c', 'u', 's', ' ', 'T', 'r', 'e', 'e'],
        Seq::empty(),
    ]
}

/// The Org document of a graph.
pub open spec fn org_render_spec(
    nodes: Seq<FocusNode>,
    edges: Seq<Edge>,
    nums: Seq<(Seq<char>, Seq<char>, Seq<char>)>,
) -> Seq<char> {
    terminated(org_header_lines()) + Seq::new(
        nodes.len(),
        |i: int| org_node_text(nodes[i], parents_spec(edges, nodes[i].id), nums[i]),
    ).flatten()
}

fn entry_exec(key: &[char], val: &[char]) -> (res: Vec<char>)
    ensures
        res@ == entry_line(key@, val@),
{
    let mut out: Vec<char> = vec!['-', ' '];
    push_all(&mut out, key);
    out.push(':');
    out.push(' ');
    push_all(&mut out, val);
    assert(out@ =~= entry_line(key@, val@));
    out
}

fn quoted_uuid_exec(id: u128) -> (res: Vec<char>)
    ensures
        res@ == quoted(uuid_hyphenated(id)),
{
    let s = format_uuid(id);
    let u = chars_of(s.as_str());
    let mut out: Vec<char> = vec!['"'];
    push_all(&mut out, &u);
    out.push('"');
    assert(out@ =~= quoted(uuid_hyphenated(id)));
    out
}

fn bool_exec(b: bool) -> (res: Vec<char>)
    ensures
        res@ == bool_text(b),
{
    if b {
        let t: Vec<char> = vec!['t', 'r', 'u', 'e'];
        assert(t@ == bool_text(b));
        t
    } else {
        let f: Vec<char> = vec!['f', 'a', 'l', 's', 'e'];
        assert(f@ == bool_text(b));
        f
    }
}

fn push_opt_line(out: &mut Vec<char>, e: &[char])
    ensures
        final(out)@ == old(out)@ + opt_line(e@),
{
    if e.len() > 0 {
        push_all(out, e);
        out.push('\n');
        assert(final(out)@ =~= old(out)@ + opt_line(e@));
    } else {
        assert(old(out)@ + opt_line(e@) =~= old(out)@);
    }
}

/// Appends the text written for one node.
fn write_single_node(out: &mut Vec<char>, node: &FocusNode, parents: &Vec<u128>, num: &NodeNumbers)
    ensures
        final(out)@ == old(out)@ + org_node_text(*node, parents@, numbers_view(*num)),
{
    let mut head: Vec<Vec<char>> = Vec::new();
    let mut title_line: Vec<char> = vec!['*', '*', ' '];
    push_all(&mut title_line, &chars_of(node.title.as_str()));
    head.push(title_line);
    head.push(Vec::new());
    let id_k: Vec<char> = vec!['i', 'd'];
    head.push(entry_exec(&id_k, &quoted_uuid_exec(node.id)));
    head.push(vec!['*', '*', '*', ' ', 'd', 'e', 's', 'c', 'r', 'i', 'p', 't', 'i', 'o', 'n', ':']);
    let ghost o0 = out@;
    push_terminated(out, &head);
    let desc = encode_org_content_indentation(&chars_of(node.description.as_str()));
    push_opt_line(out, &desc);
    let mut mid: Vec<Vec<char>> = Vec::new();
    mid.push(Vec::new());
    mid.push(vec!['*', '*', '*', ' ', 'p', 'r', 'o', 'g', 'r', 'e', 's', 's', '_', 'n', 'o', 't', 'e', 's', ':']);
    push_terminated(out, &mid);
    let notes = encode_org_content_indentation(&chars_of(node.progress_notes.as_str()));
    push_opt_line(out, &notes);
    let mut tail: Vec<Vec<char>> = Vec::new();
    tail.push(Vec::new());
    let ghost t0 = views(tail@);
    match node.image_id {
        Some(img) => {
            let img_k: Vec<char> = vec!['i', 'm', 'a', 'g', 'e', '_', 'i', 'd'];
            tail.push(entry_exec(&img_k, &quoted_uuid_exec(img)));
        },
        None => {},
    }
    let ghost t1 = views(tail@);
    let status_k: Vec<char> = vec!['s', 't', 'a', 't', 'u', 's'];
    tail.push(entry_exec(&status_k, &chars_of(num.status.as_str())));
    let collapsed_k: Vec<char> = vec!['i', 's', '_', 'c', 'o', 'l', 'l', 'a', 'p', 's', 'e', 'd'];
    tail.push(entry_exec(&collapsed_k, &bool_exec(node.is_collapsed)));
    let frozen_k: Vec<char> = vec!['i', 's', '_', 'f', 'r', 'o', 'z', 'e', 'n'];
    tail.push(entry_exec(&frozen_k, &bool_exec(node.is_frozen)));
    let prereq_k: Vec<char> = vec!['p', 'r', 'e', 'r', 'e', 'q', 'u', 'i', 's', 'i', 't', 'e', 's'];
    let mut list: Vec<char> = vec!['['];
    push_all(&mut list, &format_parent_uuids(parents));
    list.push(']');
    tail.push(entry_exec(&prereq_k, &list));
    let position_k: Vec<char> = vec!['p', 'o', 's', 'i', 't', 'i', 'o', 'n'];
    let mut pos: Vec<char> = vec!['['];
    push_all(&mut pos, &chars_of(num.x.as_str()));
    pos.push(',');
    pos.push(' ');
    push_all(&mut pos, &chars_of(num.y.as_str()));
    pos.push(']');
    tail.push(entry_exec(&position_k, &pos));
    tail.push(Vec::new());
    push_terminated(out, &tail);
    proof {
        assert(id_k@ == id_key());
        assert(status_k@ == status_key());
        assert(collapsed_k@ == is_collapsed_key());
        assert(frozen_k@ == is_frozen_key());
        assert(prereq_k@ == prerequisites_key());
        assert(position_k@ == position_key());
        assert(pos@ =~= position_text(num.x@, num.y@));
        assert(list@ =~= seq!['['] + parent_list(parents@) + seq![']']);
        assert(views(head@) =~= seq![node_prefix() + node.title@, Seq::<char>::empty(), entry_line(id_key(), quoted(uuid_hyphenated(node.id))), desc_header()]);
        assert(views(mid@) =~= seq![Seq::<char>::empty(), notes_header()]);
        let n = *node;
        let img_part: Seq<Seq<char>> = match n.image_id {
            Some(i) => seq![entry_line(image_id_key(), quoted(uuid_hyphenated(i)))],
            None => Seq::empty(),
        };
        assert(t1 =~= t0 + img_part);
        assert(views(tail@) =~= org_tail_lines(*node, parents@, numbers_view(*num)));
        assert(out@ =~= o0 + org_node_text(*node, parents@, numbers_view(*num)));
    }
}

/// Reads and writes focus trees in the Org-mode format.
pub struct OrgmodeIO;

impl OrgmodeIO {
    /// The document for `graph`; `numbers[i]` holds the progress and
    /// coordinate texts of `graph.nodes[i]`.
    pub fn render_document(graph: &FocusGraph, numbers: &Vec<NodeNumbers>) -> (res: String)
        requires
            numbers@.len() == graph.nodes@.len(),
        ensures
            res@ == org_render_spec(graph.nodes@, graph.edges@, nums_view(numbers@)),
    {
        let mut out: Vec<char> = Vec::new();
        let mut header: Vec<Vec<char>> = Vec::new();
        header.push(vec!['#', '+', 'T', 'I', 'T', 'L', 'E', ':', ' ', 'U', 's', 'l', 'u', ' ', 'F', 'o', 'c', 'u', 's', ' ', 'T', 'r', 'e', 'e']);
        header.push(Vec::new());
        assert(views(header@) =~= org_header_lines());
        push_terminated(&mut out, &header);
        let ghost nodes = graph.nodes@;
        let ghost nv = nums_view(numbers@);
        let ghost f = |i: int| org_node_text(nodes[i], parents_spec(graph.edges@, nodes[i].id), nv[i]);
        let ghost h = out@;
        assert(Seq::new(0, f).flatten() =~= Seq::<char>::empty());
        let mut i: usize = 0;
        while i < graph.nodes.len()
            invariant
                i <= graph.nodes@.len(),
                numbers@.len() == graph.nodes@.len(),
                nodes == graph.nodes@,
                nv == nums_view(numbers@),
                f == (|i: int| org_node_text(nodes[i], parents_spec(graph.edges@, nodes[i].id), nv[i])),
                h == terminated(org_header_lines()),
                out@ == h + Seq::new(i as nat, f).flatten(),
            decreases graph.nodes@.len() - i,
        {
            let node = &graph.nodes[i];
            let parents = graph.parents_of(node.id);
            let ghost before = out@;
            write_single_node(&mut out, node, &parents, &numbers[i]);
            proof {
                assert(numbers_view(numbers@[i as int]) == nv[i as int]);
                assert(Seq::new((i + 1) as nat, f) =~= Seq::new(i as nat, f).push(f(i as int)));
                Seq::new(i as nat, f).lemma_flatten_push(f(i as int));
                assert(out@ =~= h + Seq::new((i + 1) as nat, f).flatten());
            }
            i = i + 1;
        }
        string_of(&out)
    }

    /// The records of an Org document; none when a stored heading line
    /// would be cut inside a character.
    pub fn read_records(content: &str) -> (res: Option<Vec<OrgRawNode>>)
        ensures
            match res {
                Some(v) => org_content_ok(content@) && org_raws_view(v@) == org_records(content@),
                None => !org_content_ok(content@),
            },
    {
        parse_org_records(content)
    }

    /// The node a record describes, given the progress and position read
    /// from its `status` and `position` entries.
    pub fn build_processed_node(raw: &OrgRawNode, status: NodeStatus, x_bits: u32, y_bits: u32) -> (res: ProcessedNode)
        ensures
            processed_matches(
                res,
                raw.title@,
                raw.description@,
                raw.progress_notes@,
                kv_view(raw.kv@),
                status,
                x_bits,
                y_bits,
            ),
    {
        build_processed_node(
            slice_chars_all(&raw.title),
            slice_chars_all(&raw.description),
            slice_chars_all(&raw.progress_notes),
            &raw.kv,
            status,
            x_bits,
            y_bits,
        )
    }
}

} // verus!
