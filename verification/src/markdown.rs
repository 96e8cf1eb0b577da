//! The Markdown document format of a focus tree.
//!
//! ```text
//! # Uslu Focus Tree
//!
//! ## Title
//!
//! - id: "…"
//! - description: "escaped text"
//! - progress_notes: "escaped text"
//! - image_id: "…"
//! - status: 75.0
//! - is_collapsed: false
//! - is_frozen: false
//! - prerequisites: ["…", "…"]
//! - position: [120.0, 360.0]
//! ```
//!
//! Reading yields one record per `## ` section; a quoted value may run
//! over several lines until its closing quote.
use vstd::prelude::*;
use crate::escape::{escape, escape_string, is_value_unclosed_multiline, unclosed_spec, unescape, unescape_string};
use crate::ids::{format_uuid, uuid_hyphenated};
use crate::models::{parents_spec, Edge, FocusGraph, FocusNode, NodeStatus};
use crate::records::{
    bool_text, entry_line, format_parent_uuids, id_key, image_id_key, is_collapsed_key, is_frozen_key, numbers_view,
    parent_list, position_key, position_text, prerequisites_key, push_terminated, quoted, status_key, terminated,
    NodeNumbers, true_text,
    build_processed_node, clean_string_spec, description_key, kv_lookup, kv_view, processed_matches,
    progress_notes_key, ProcessedNode,
};
use crate::text::{
    chars_of, find_char, find_char_exec, has_prefix, join, lines, push_all, slice_chars, slice_chars_all,
    split_lines, starts_with, string_of, trim, trim_exec, views,
};

verus! {

/// Entries of a record, as `(key, value)` text pairs.
pub open spec fn section_prefix() -> Seq<char> {
    seq!['#', '#', ' ']
}

/// A record read from a `## ` section: its title and its entries.
#[derive(Debug)]
pub struct RawNode {
    pub title: Vec<char>,
    pub kv: Vec<(Vec<char>, Vec<char>)>,
}

pub open spec fn raw_view(r: RawNode) -> (Seq<char>, Seq<(Seq<char>, Seq<char>)>) {
    (r.title@, kv_view(r.kv@))
}

pub open spec fn raws_view(v: Seq<RawNode>) -> Seq<(Seq<char>, Seq<(Seq<char>, Seq<char>)>)> {
    v.map_values(|r: RawNode| raw_view(r))
}

/// The reader's state between lines.
pub ghost struct MdState {
    pub nodes: Seq<(Seq<char>, Seq<(Seq<char>, Seq<char>)>)>,
    pub title: Option<Seq<char>>,
    pub kv: Seq<(Seq<char>, Seq<char>)>,
    pub ml_key: Option<Seq<char>>,
    pub ml_val: Seq<char>,
}

pub open spec fn md_init() -> MdState {
    MdState { nodes: Seq::empty(), title: None, kv: Seq::empty(), ml_key: None, ml_val: Seq::empty() }
}

/// Closes the open section, if any, into a record.
pub open spec fn md_finalize(st: MdState) -> MdState {
    match st.title {
        Some(t) => MdState { nodes: st.nodes.push((t, st.kv)), title: None, kv: Seq::empty(), ..st },
        None => st,
    }
}

/// Whether a trimmed line is skipped: empty, or a heading other than a
/// section heading.
pub open spec fn is_ignorable(t: Seq<char>) -> bool {
    t.len() == 0 || (t[0] == '#' && !has_prefix(t, section_prefix()))
}

/// Reads the entry of a list item: text before the first `:` is the key,
/// the rest the value, both trimmed; a value opening an unclosed quote
/// continues on the next lines.
pub open spec fn md_kv_step(st: MdState, item: Seq<char>) -> MdState {
    let it = trim(item);
    match find_char(it, ':') {
        None => st,
        Some(i) => {
            let key = trim(it.subrange(0, i));
            let val = trim(it.subrange(i + 1, it.len() as int));
            if unclosed_spec(val) {
                MdState { ml_key: Some(key), ml_val: val, ..st }
            } else {
                MdState { kv: st.kv.push((key, val)), ..st }
            }
        },
    }
}

/// The reader after one more line.
pub open spec fn md_step(st: MdState, line: Seq<char>) -> MdState {
    match st.ml_key {
        Some(k) => {
            let v = st.ml_val + seq!['\n'] + line;
            if unclosed_spec(v) {
                MdState { ml_val: v, ..st }
            } else {
                MdState { kv: st.kv.push((k, v)), ml_key: None, ml_val: Seq::empty(), ..st }
            }
        },
        None => {
            let t = trim(line);
            if is_ignorable(t) {
                st
            } else if has_prefix(t, section_prefix()) {
                MdState { title: Some(unescape(trim(t.subrange(3, t.len() as int)))), ..md_finalize(st) }
            } else if t[0] == '-' {
                md_kv_step(st, t.drop_first())
            } else {
                st
            }
        },
    }
}

/// The reader after the lines `ls`.
pub open spec fn md_scan(st: MdState, ls: Seq<Seq<char>>) -> MdState
    decreases ls.len(),
{
    if ls.len() == 0 {
        st
    } else {
        md_step(md_scan(st, ls.drop_last()), ls.last())
    }
}

/// The records at the end of the text: an open quoted value is kept as
/// it stands, and the open section is closed.
pub open spec fn md_finish(st: MdState) -> Seq<(Seq<char>, Seq<(Seq<char>, Seq<char>)>)> {
    let flushed = match st.ml_key {
        Some(k) => MdState { kv: st.kv.push((k, st.ml_val)), ..st },
        None => st,
    };
    md_finalize(flushed).nodes
}

/// The records of a Markdown document.
pub open spec fn md_records(content: Seq<char>) -> Seq<(Seq<char>, Seq<(Seq<char>, Seq<char>)>)> {
    md_finish(md_scan(md_init(), lines(content)))
}

struct MdParser {
    nodes: Vec<RawNode>,
    title: Option<Vec<char>>,
    kv: Vec<(Vec<char>, Vec<char>)>,
    ml_key: Option<Vec<char>>,
    ml_val: Vec<char>,
}

impl MdParser {
    spec fn state(&self) -> MdState {
        MdState {
            nodes: raws_view(self.nodes@),
            title: match self.title {
                Some(t) => Some(t@),
                None => None,
            },
            kv: kv_view(self.kv@),
            ml_key: match self.ml_key {
                Some(k) => Some(k@),
                None => None,
            },
            ml_val: self.ml_val@,
        }
    }

    fn finalize(&mut self)
        ensures
            final(self).state() == md_finalize(old(self).state()),
            final(self).ml_key == old(self).ml_key,
            final(self).ml_val == old(self).ml_val,
    {
        let title = self.title.take();
        match title {
            Some(t) => {
                let mut kv: Vec<(Vec<char>, Vec<char>)> = Vec::new();
                std::mem::swap(&mut kv, &mut self.kv);
                let ghost old_nodes = raws_view(self.nodes@);
                self.nodes.push(RawNode { title: t, kv });
                assert(raws_view(self.nodes@) =~= old_nodes.push((t@, kv_view(kv@))));
                assert(kv_view(self.kv@) =~= Seq::<(Seq<char>, Seq<char>)>::empty());
            },
            None => {},
        }
    }

    fn push_entry(&mut self, key: Vec<char>, val: Vec<char>)
        ensures
            final(self).state() == (MdState { kv: old(self).state().kv.push((key@, val@)), ..old(self).state() }),
            final(self).ml_key == old(self).ml_key,
    {
        let ghost old_kv = kv_view(self.kv@);
        self.kv.push((key, val));
        assert(kv_view(self.kv@) =~= old_kv.push((key@, val@)));
    }

    fn kv_step(&mut self, item: &[char])
        requires
            old(self).ml_key is None,
        ensures
            final(self).state() == md_kv_step(old(self).state(), item@),
    {
        let it = trim_exec(item);
        match find_char_exec(&it, ':') {
            None => {},
            Some(i) => {
                proof {
                    crate::text::lemma_find_char_bounds(it@, ':');
                }
                let key_part = slice_chars(&it, 0, i);
                let val_part = slice_chars(&it, i + 1, it.len());
                let key = trim_exec(&key_part);
                let val = trim_exec(&val_part);
                if is_value_unclosed_multiline(&val) {
                    self.ml_key = Some(key);
                    self.ml_val = val;
                } else {
                    self.push_entry(key, val);
                }
            },
        }
    }

    fn step(&mut self, line: &[char])
        ensures
            final(self).state() == md_step(old(self).state(), line@),
    {
        match self.ml_key.take() {
            Some(key) => {
                let ghost st = old(self).state();
                self.ml_val.push('\n');
                push_all(&mut self.ml_val, line);
                assert(self.ml_val@ =~= st.ml_val + seq!['\n'] + line@);
                if is_value_unclosed_multiline(&self.ml_val) {
                    self.ml_key = Some(key);
                    assert(self.state() == (MdState { ml_val: st.ml_val + seq!['\n'] + line@, ..st }));
                } else {
                    let mut val: Vec<char> = Vec::new();
                    std::mem::swap(&mut val, &mut self.ml_val);
                    self.push_entry(key, val);
                }
            },
            None => {
                let t = trim_exec(line);
                let prefix: Vec<char> = vec!['#', '#', ' '];
                assert(prefix@ == section_prefix());
                let is_section = starts_with(&t, &prefix);
                if t.len() == 0 || (t[0] == '#' && !is_section) {
                    return;
                }
                if is_section {
                    self.finalize();
                    let rest = slice_chars(&t, 3, t.len());
                    let title_text = trim_exec(&rest);
                    self.title = Some(unescape_string(&title_text));
                    return;
                }
                if t[0] == '-' {
                    let item = slice_chars(&t, 1, t.len());
                    assert(item@ == t@.drop_first());
                    self.kv_step(&item);
                }
            },
        }
    }
}

/// The records of a Markdown document, one per `## ` section, in order.
pub fn parse_raw_nodes_from_content(content: &str) -> (res: Vec<RawNode>)
    ensures
        raws_view(res@) == md_records(content@),
{
    let chars = chars_of(content);
    let ls = split_lines(&chars);
    let mut parser = MdParser {
        nodes: Vec::new(),
        title: None,
        kv: Vec::new(),
        ml_key: None,
        ml_val: Vec::new(),
    };
    assert(raws_view(parser.nodes@) =~= Seq::<(Seq<char>, Seq<(Seq<char>, Seq<char>)>)>::empty());
    assert(kv_view(parser.kv@) =~= Seq::<(Seq<char>, Seq<char>)>::empty());
    assert(parser.ml_val@ =~= Seq::<char>::empty());
    assert(parser.state() == md_init());
    let mut i: usize = 0;
    assert(views(ls@).subrange(0, 0) =~= Seq::<Seq<char>>::empty());
    while i < ls.len()
        invariant
            i <= ls@.len(),
            views(ls@) == lines(content@),
            parser.state() == md_scan(md_init(), views(ls@).subrange(0, i as int)),
        decreases ls@.len() - i,
    {
        assert(views(ls@).subrange(0, i + 1).drop_last() =~= views(ls@).subrange(0, i as int));
        assert(views(ls@).subrange(0, i + 1).last() == ls@[i as int]@);
        parser.step(&ls[i]);
        i = i + 1;
    }
    assert(views(ls@).subrange(0, ls@.len() as int) =~= views(ls@));
    match parser.ml_key.take() {
        Some(key) => {
            let mut val: Vec<char> = Vec::new();
            std::mem::swap(&mut val, &mut parser.ml_val);
            parser.push_entry(key, val);
        },
        None => {},
    }
    parser.finalize();
    parser.nodes
}

/// The lines written for one node.
pub open spec fn md_node_lines(n: FocusNode, parents: Seq<u128>, num: (Seq<char>, Seq<char>, Seq<char>)) -> Seq<Seq<char>> {
    seq![
        section_prefix() + escape(n.title@),
        Seq::empty(),
        entry_line(id_key(), quoted(uuid_hyphenated(n.id))),
        entry_line(description_key(), quoted(escape(n.description@))),
        entry_line(progress_notes_key(), quoted(escape(n.progress_notes@))),
    ] + match n.image_id {
        Some(i) => seq![entry_line(image_id_key(), quoted(uuid_hyphenated(i)))],
        None => Seq::empty(),
    } + seq![
        entry_line(status_key(), num.0),
        entry_line(is_collapsed_key(), bool_text(n.is_collapsed)),
        entry_line(is_frozen_key(), bool_text(n.is_frozen)),
        entry_line(prerequisites_key(), seq!['['] + parent_list(parents) + seq![']']),
        entry_line(position_key(), position_text(num.1, num.2)),
        Seq::empty(),
    ]
}

pub open spec fn md_header_lines() -> Seq<Seq<char>> {
    seq![seq!['#', ' ', 'U', 's', 'l', 'u', ' ', 'F', 'o', 'c', 'u', 's', ' ', 'T', 'r', 'e', 'e'], Seq::empty()]
}

/// All lines of the document for `nodes`, their links and their numbers.
pub open spec fn md_doc_lines(
    nodes: Seq<FocusNode>,
    edges: Seq<Edge>,
    nums: Seq<(Seq<char>, Seq<char>, Seq<char>)>,
) -> Seq<Seq<char>> {
    md_header_lines() + Seq::new(
        nodes.len(),
        |i: int| md_node_lines(nodes[i], parents_spec(edges, nodes[i].id), nums[i]),
    ).flatten()
}

/// The Markdown document of a graph.
pub open spec fn md_render_spec(
    nodes: Seq<FocusNode>,
    edges: Seq<Edge>,
    nums: Seq<(Seq<char>, Seq<char>, Seq<char>)>,
) -> Seq<char> {
    terminated(md_doc_lines(nodes, edges, nums))
}

pub open spec fn nums_view(v: Seq<NodeNumbers>) -> Seq<(Seq<char>, Seq<char>, Seq<char>)> {
    v.map_values(|n: NodeNumbers| numbers_view(n))
}

fn entry(key: &[char], val: &[char]) -> (res: Vec<char>)
    ensures
        res@ == entry_line(key@, val@),
{
    let mut out: Vec<char> = vec!['-', ' '];
    push_all(&mut out, key);
    out.push(':');
    out.push(' ');
    push_all(&mut out, val);
    assert(out@ =~= entry_line(key@, val@));
    out
}

fn quote(s: &[char]) -> (res: Vec<char>)
    ensures
        res@ == quoted(s@),
{
    let mut out: Vec<char> = vec!['"'];
    push_all(&mut out, s);
    out.push('"');
    assert(out@ =~= quoted(s@));
    out
}

fn uuid_chars(id: u128) -> (res: Vec<char>)
    ensures
        res@ == uuid_hyphenated(id),
{
    let s = format_uuid(id);
    chars_of(s.as_str())
}

fn bool_chars(b: bool) -> (res: Vec<char>)
    ensures
        res@ == bool_text(b),
{
    if b {
        let t: Vec<char> = vec!['t', 'r', 'u', 'e'];
        assert(t@ == bool_text(b));
        t
    } else {
        let f: Vec<char> = vec!['f', 'a', 'l', 's', 'e'];
        assert(f@ == bool_text(b));
        f
    }
}

/// The lines written for one node.
fn md_node_lines_exec(node: &FocusNode, parents: &Vec<u128>, num: &NodeNumbers) -> (res: Vec<Vec<char>>)
    ensures
        views(res@) == md_node_lines(*node, parents@, numbers_view(*num)),
{
    let mut ls: Vec<Vec<char>> = Vec::new();
    let title = chars_of(node.title.as_str());
    let mut heading: Vec<char> = vec!['#', '#', ' '];
    push_all(&mut heading, &escape_string(&title));
    ls.push(heading);
    ls.push(Vec::new());
    let id_k: Vec<char> = vec!['i', 'd'];
    ls.push(entry(&id_k, &quote(&uuid_chars(node.id))));
    let desc_k: Vec<char> = vec!['d', 'e', 's', 'c', 'r', 'i', 'p', 't', 'i', 'o', 'n'];
    ls.push(entry(&desc_k, &quote(&escape_string(&chars_of(node.description.as_str())))));
    let notes_k: Vec<char> = vec!['p', 'r', 'o', 'g', 'r', 'e', 's', 's', '_', 'n', 'o', 't', 'e', 's'];
    ls.push(entry(&notes_k, &quote(&escape_string(&chars_of(node.progress_notes.as_str())))));
    let ghost first = views(ls@);
    match node.image_id {
        Some(img) => {
            let img_k: Vec<char> = vec!['i', 'm', 'a', 'g', 'e', '_', 'i', 'd'];
            ls.push(entry(&img_k, &quote(&uuid_chars(img))));
        },
        None => {},
    }
    let ghost second = views(ls@);
    let status_k: Vec<char> = vec!['s', 't', 'a', 't', 'u', 's'];
    ls.push(entry(&status_k, &chars_of(num.status.as_str())));
    let collapsed_k: Vec<char> = vec!['i', 's', '_', 'c', 'o', 'l', 'l', 'a', 'p', 's', 'e', 'd'];
    ls.push(entry(&collapsed_k, &bool_chars(node.is_collapsed)));
    let frozen_k: Vec<char> = vec!['i', 's', '_', 'f', 'r', 'o', 'z', 'e', 'n'];
    ls.push(entry(&frozen_k, &bool_chars(node.is_frozen)));
    let prereq_k: Vec<char> = vec!['p', 'r', 'e', 'r', 'e', 'q', 'u', 'i', 's', 'i', 't', 'e', 's'];
    let mut list: Vec<char> = vec!['['];
    push_all(&mut list, &format_parent_uuids(parents));
    list.push(']');
    ls.push(entry(&prereq_k, &list));
    let position_k: Vec<char> = vec!['p', 'o', 's', 'i', 't', 'i', 'o', 'n'];
    let mut pos: Vec<char> = vec!['['];
    push_all(&mut pos, &chars_of(num.x.as_str()));
    pos.push(',');
    pos.push(' ');
    push_all(&mut pos, &chars_of(num.y.as_str()));
    pos.push(']');
    ls.push(entry(&position_k, &pos));
    ls.push(Vec::new());
    proof {
        assert(id_k@ == id_key());
        assert(desc_k@ == description_key());
        assert(notes_k@ == progress_notes_key());
        assert(status_k@ == status_key());
        assert(collapsed_k@ == is_collapsed_key());
        assert(frozen_k@ == is_frozen_key());
        assert(prereq_k@ == prerequisites_key());
        assert(position_k@ == position_key());
        assert(pos@ =~= position_text(num.x@, num.y@));
        assert(list@ =~= seq!['['] + parent_list(parents@) + seq![']']);
        assert(heading@ =~= section_prefix() + escape(node.title@));
        let n = *node;
        let img_part: Seq<Seq<char>> = match n.image_id {
            Some(i) => seq![entry_line(image_id_key(), quoted(uuid_hyphenated(i)))],
            None => Seq::empty(),
        };
        assert(second =~= first + img_part);
        assert(views(ls@) =~= md_node_lines(*node, parents@, numbers_view(*num)));
    }
    ls
}

/// Reads and writes focus trees in the Markdown format.
pub struct MarkdownIO;

impl MarkdownIO {
    /// The document for `graph`; `numbers[i]` holds the progress and
    /// coordinate texts of `graph.nodes[i]`.
    pub fn render_document(graph: &FocusGraph, numbers: &Vec<NodeNumbers>) -> (res: String)
        requires
            numbers@.len() == graph.nodes@.len(),
        ensures
            res@ == md_render_spec(graph.nodes@, graph.edges@, nums_view(numbers@)),
    {
        let mut all: Vec<Vec<char>> = Vec::new();
        all.push(vec!['#', ' ', 'U', 's', 'l', 'u', ' ', 'F', 'o', 'c', 'u', 's', ' ', 'T', 'r', 'e', 'e']);
        all.push(Vec::new());
        let ghost nodes = graph.nodes@;
        let ghost nv = nums_view(numbers@);
        let ghost f = |i: int| md_node_lines(nodes[i], parents_spec(graph.edges@, nodes[i].id), nv[i]);
        assert(views(all@) =~= md_header_lines());
        assert(Seq::new(0, f).flatten() =~= Seq::<Seq<char>>::empty());
        let mut i: usize = 0;
        while i < graph.nodes.len()
            invariant
                i <= graph.nodes@.len(),
                numbers@.len() == graph.nodes@.len(),
                nodes == graph.nodes@,
                nv == nums_view(numbers@),
                f == (|i: int| md_node_lines(nodes[i], parents_spec(graph.edges@, nodes[i].id), nv[i])),
                views(all@) == md_header_lines() + Seq::new(i as nat, f).flatten(),
            decreases graph.nodes@.len() - i,
        {
            let node = &graph.nodes[i];
            let parents = graph.parents_of(node.id);
            let mut block = md_node_lines_exec(node, &parents, &numbers[i]);
            let ghost before = views(all@);
            let ghost bv = views(block@);
            all.append(&mut block);
            proof {
                assert(numbers_view(numbers@[i as int]) == nv[i as int]);
                assert(bv == f(i as int));
                assert(Seq::new((i + 1) as nat, f) =~= Seq::new(i as nat, f).push(f(i as int)));
                Seq::new(i as nat, f).lemma_flatten_push(f(i as int));
                assert(views(all@) =~= before + bv);
            }
            i = i + 1;
        }
        let mut out: Vec<char> = Vec::new();
        push_terminated(&mut out, &all);
        assert(out@ =~= md_render_spec(graph.nodes@, graph.edges@, nums_view(numbers@)));
        string_of(&out)
    }

    /// The records of a Markdown document.
    pub fn read_records(content: &str) -> (res: Vec<RawNode>)
        ensures
            raws_view(res@) == md_records(content@),
    {
        parse_raw_nodes_from_content(content)
    }

    /// The node a record describes, given the progress and position read
    /// from its `status` and `position` entries.
    pub fn build_processed_node(raw: &RawNode, status: NodeStatus, x_bits: u32, y_bits: u32) -> (res: ProcessedNode)
        ensures
            processed_matches(
                res,
                raw.title@,
                clean_string_spec(kv_view(raw.kv@), description_key()),
                clean_string_spec(kv_view(raw.kv@), progress_notes_key()),
                kv_view(raw.kv@),
                status,
                x_bits,
                y_bits,
            ),
    {
        let desc_k: Vec<char> = vec!['d', 'e', 's', 'c', 'r', 'i', 'p', 't', 'i', 'o', 'n'];
        let notes_k: Vec<char> = vec!['p', 'r', 'o', 'g', 'r', 'e', 's', 's', '_', 'n', 'o', 't', 'e', 's'];
        assert(desc_k@ == description_key());
        assert(notes_k@ == progress_notes_key());
        let description = crate::records::extract_clean_string(&raw.kv, &desc_k);
        let progress_notes = crate::records::extract_clean_string(&raw.kv, &notes_k);
        build_processed_node(slice_chars_all(&raw.title), description, progress_notes, &raw.kv, status, x_bits, y_bits)
    }
}

} // verus!
