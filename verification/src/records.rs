//! Node records as the document formats read them: a title and a list of
//! `key: value` entries, and how a graph is built from them.
use vstd::prelude::*;
use crate::escape::{unescape, unescape_string};
use crate::ids::{format_uuid, new_uuid, parse_uuid, uuid_parse};
use crate::models::{has_node, Edge, FocusGraph, FocusNode, NodeStatus};
use crate::reach::{is_edge, reaches};
use crate::text::{
    push_all, chars_eq, chars_of, split_exec, split_on, string_of, trim, trim_exec, trim_matches_char, trim_matches_exec,
    views,
};

verus! {

/// `key: value` entries; a later entry for a key replaces an earlier one.
pub open spec fn kv_get(kv: Seq<(Seq<char>, Seq<char>)>, key: Seq<char>) -> Option<Seq<char>>
    decreases kv.len(),
{
    if kv.len() == 0 {
        None
    } else if kv.last().0 == key {
        Some(kv.last().1)
    } else {
        kv_get(kv.drop_last(), key)
    }
}

/// The entries held by a vector of character-vector pairs.
pub open spec fn kv_view(kv: Seq<(Vec<char>, Vec<char>)>) -> Seq<(Seq<char>, Seq<char>)> {
    kv.map_values(|e: (Vec<char>, Vec<char>)| (e.0@, e.1@))
}

/// The value of the last entry for `key`.
pub fn kv_lookup(kv: &Vec<(Vec<char>, Vec<char>)>, key: &[char]) -> (res: Option<Vec<char>>)
    ensures
        match res {
            Some(v) => kv_get(kv_view(kv@), key@) == Some(v@),
            None => kv_get(kv_view(kv@), key@) == None::<Seq<char>>,
        },
{
    let mut i: usize = kv.len();
    assert(kv_view(kv@).subrange(0, kv@.len() as int) =~= kv_view(kv@));
    while i > 0
        invariant
            i <= kv@.len(),
            kv_get(kv_view(kv@), key@) == kv_get(kv_view(kv@).subrange(0, i as int), key@),
        decreases i,
    {
        let ghost pre = kv_view(kv@).subrange(0, i as int);
        assert(pre.drop_last() =~= kv_view(kv@).subrange(0, i - 1));
        assert(pre.last() == (kv@[i - 1].0@, kv@[i - 1].1@));
        if chars_eq(&kv[i - 1].0, key) {
            return Some(crate::text::slice_chars_all(&kv[i - 1].1));
        }
        i = i - 1;
    }
    None
}

/// ASCII upper-case letters lowered; any other character unchanged.
pub open spec fn ascii_lower(c: char) -> char {
    if 'A' <= c && c <= 'Z' {
        ((c as u32) + 32) as char
    } else {
        c
    }
}

/// `str::eq_ignore_ascii_case`.
pub open spec fn eq_ignore_ascii_case(a: Seq<char>, b: Seq<char>) -> bool {
    a.len() == b.len() && forall|i: int| 0 <= i < a.len() ==> ascii_lower(a[i]) == ascii_lower(b[i])
}

pub open spec fn true_text() -> Seq<char> {
    seq!['t', 'r', 'u', 'e']
}

/// Whether two characters are equal once ASCII letters are lowered.
pub fn same_ignoring_ascii_case(x: char, y: char) -> (res: bool)
    ensures
        res == (ascii_lower(x) == ascii_lower(y)),
{
    let xu = 'A' <= x && x <= 'Z';
    let yu = 'A' <= y && y <= 'Z';
    let xn = x as u32;
    let yn = y as u32;
    let r = if xu == yu {
        xn == yn
    } else if xu {
        xn + 32 == yn
    } else {
        xn == yn + 32
    };
    proof {
        if xu {
            assert(ascii_lower(x) as u32 == xn + 32);
        }
        if yu {
            assert(ascii_lower(y) as u32 == yn + 32);
        }
    }
    r
}

/// `str::eq_ignore_ascii_case`.
pub fn eq_ignore_ascii_case_exec(a: &[char], b: &[char]) -> (res: bool)
    ensures
        res == eq_ignore_ascii_case(a@, b@),
{
    if a.len() != b.len() {
        return false;
    }
    let mut i: usize = 0;
    while i < a.len()
        invariant
            a@.len() == b@.len(),
            i <= a@.len(),
            forall|j: int| 0 <= j < i ==> ascii_lower(a@[j]) == ascii_lower(b@[j]),
        decreases a@.len() - i,
    {
        if !same_ignoring_ascii_case(a[i], b[i]) {
            return false;
        }
        i = i + 1;
    }
    true
}

/// `s` with leading and trailing `[` and `]` removed.
pub open spec fn trim_brackets(s: Seq<char>) -> Seq<char> {
    trim_bracket_end(trim_bracket_start(s))
}

pub open spec fn is_bracket(c: char) -> bool {
    c == '[' || c == ']'
}

pub open spec fn trim_bracket_start(s: Seq<char>) -> Seq<char>
    decreases s.len(),
{
    if s.len() > 0 && is_bracket(s[0]) {
        trim_bracket_start(s.drop_first())
    } else {
        s
    }
}

pub open spec fn trim_bracket_end(s: Seq<char>) -> Seq<char>
    decreases s.len(),
{
    if s.len() > 0 && is_bracket(s.last()) {
        trim_bracket_end(s.drop_last())
    } else {
        s
    }
}

/// `s` with leading and trailing brackets removed.
pub fn trim_brackets_exec(s: &[char]) -> (res: Vec<char>)
    ensures
        res@ == trim_brackets(s@),
{
    let mut a: usize = 0;
    assert(s@.subrange(0, s@.len() as int) == s@);
    while a < s.len() && (s[a] == '[' || s[a] == ']')
        invariant
            a <= s@.len(),
            trim_bracket_start(s@) == trim_bracket_start(s@.subrange(a as int, s@.len() as int)),
        decreases s@.len() - a,
    {
        assert(s@.subrange(a as int, s@.len() as int).drop_first() == s@.subrange(a + 1, s@.len() as int));
        a = a + 1;
    }
    let t = crate::text::slice_chars(s, a, s.len());
    let mut b: usize = t.len();
    assert(t@.subrange(0, t@.len() as int) == t@);
    while b > 0 && (t[b - 1] == '[' || t[b - 1] == ']')
        invariant
            b <= t@.len(),
            trim_bracket_end(t@) == trim_bracket_end(t@.subrange(0, b as int)),
        decreases b,
    {
        assert(t@.subrange(0, b as int).drop_last() == t@.subrange(0, b - 1));
        b = b - 1;
    }
    assert(t@.subrange(0, t@.len() as int) == t@);
    crate::text::slice_chars(&t, 0, b)
}

/// The pieces of a value that are not empty after trimming.
pub open spec fn non_empty_trimmed(ps: Seq<Seq<char>>) -> Seq<Seq<char>> {
    ps.map_values(|p: Seq<char>| trim(p)).filter(|p: Seq<char>| p.len() > 0)
}

/// The entries of a bracketed, comma-separated list.
pub open spec fn uuid_list_spec(v: Seq<char>) -> Seq<Seq<char>> {
    non_empty_trimmed(split_on(trim_brackets(v), ','))
}

/// The entries of a bracketed, comma-separated list.
pub fn extract_uuid_list(v: &[char]) -> (res: Vec<Vec<char>>)
    ensures
        views(res@) == uuid_list_spec(v@),
{
    let cleaned = trim_brackets_exec(v);
    let pieces = split_exec(&cleaned, ',');
    let ghost ps = views(pieces@);
    let mut res: Vec<Vec<char>> = Vec::new();
    let mut i: usize = 0;
    assert(ps.subrange(0, 0).map_values(|p: Seq<char>| trim(p)).filter(|p: Seq<char>| p.len() > 0) =~= Seq::<Seq<char>>::empty()) by {
        reveal(Seq::filter);
    }
    while i < pieces.len()
        invariant
            i <= pieces@.len(),
            ps == views(pieces@),
            views(res@) == non_empty_trimmed(ps.subrange(0, i as int)),
        decreases pieces@.len() - i,
    {
        let t = trim_exec(&pieces[i]);
        let ghost pre = ps.subrange(0, i as int).map_values(|p: Seq<char>| trim(p));
        assert(ps.subrange(0, i + 1).map_values(|p: Seq<char>| trim(p)) =~= pre.push(t@));
        proof {
            pre.lemma_filter_push(t@, |p: Seq<char>| p.len() > 0);
        }
        if t.len() > 0 {
            let ghost old_res = views(res@);
            res.push(t);
            assert(views(res@) =~= old_res.push(t@));
        }
        i = i + 1;
    }
    assert(ps.subrange(0, ps.len() as int) =~= ps);
    res
}

pub open spec fn id_key() -> Seq<char> {
    seq!['i', 'd']
}

pub open spec fn image_id_key() -> Seq<char> {
    seq!['i', 'm', 'a', 'g', 'e', '_', 'i', 'd']
}

pub open spec fn status_key() -> Seq<char> {
    seq!['s', 't', 'a', 't', 'u', 's']
}

pub open spec fn progress_key() -> Seq<char> {
    seq!['p', 'r', 'o', 'g', 'r', 'e', 's', 's']
}

pub open spec fn position_key() -> Seq<char> {
    seq!['p', 'o', 's', 'i', 't', 'i', 'o', 'n']
}

pub open spec fn prerequisites_key() -> Seq<char> {
    seq!['p', 'r', 'e', 'r', 'e', 'q', 'u', 'i', 's', 'i', 't', 'e', 's']
}

pub open spec fn is_collapsed_key() -> Seq<char> {
    seq!['i', 's', '_', 'c', 'o', 'l', 'l', 'a', 'p', 's', 'e', 'd']
}

pub open spec fn is_frozen_key() -> Seq<char> {
    seq!['i', 's', '_', 'f', 'r', 'o', 'z', 'e', 'n']
}

pub open spec fn description_key() -> Seq<char> {
    seq!['d', 'e', 's', 'c', 'r', 'i', 'p', 't', 'i', 'o', 'n']
}

pub open spec fn progress_notes_key() -> Seq<char> {
    seq!['p', 'r', 'o', 'g', 'r', 'e', 's', 's', '_', 'n', 'o', 't', 'e', 's']
}

/// The identifier written in a (possibly quoted) value.
pub open spec fn quoted_uuid(v: Seq<char>) -> Option<u128> {
    uuid_parse(trim_matches_char(v, '"'))
}

/// The identifier under `key`, when it is there and parses.
pub open spec fn uuid_entry(kv: Seq<(Seq<char>, Seq<char>)>, key: Seq<char>) -> Option<u128> {
    match kv_get(kv, key) {
        Some(v) => quoted_uuid(v),
        None => None,
    }
}

/// The unquoted, unescaped text under `key`, or nothing.
pub open spec fn clean_string_spec(kv: Seq<(Seq<char>, Seq<char>)>, key: Seq<char>) -> Seq<char> {
    match kv_get(kv, key) {
        Some(v) => unescape(trim_matches_char(v, '"')),
        None => Seq::empty(),
    }
}

/// Whether the value under `key` reads `true` in any letter case.
pub open spec fn bool_spec(kv: Seq<(Seq<char>, Seq<char>)>, key: Seq<char>) -> bool {
    match kv_get(kv, key) {
        Some(v) => eq_ignore_ascii_case(trim(v), true_text()),
        None => false,
    }
}

/// The entries of the prerequisites list.
pub open spec fn prereq_spec(kv: Seq<(Seq<char>, Seq<char>)>) -> Seq<Seq<char>> {
    match kv_get(kv, prerequisites_key()) {
        Some(v) => uuid_list_spec(v),
        None => Seq::empty(),
    }
}

/// The progress text: the `status` entry, or else the `progress` entry.
pub open spec fn status_text_spec(kv: Seq<(Seq<char>, Seq<char>)>) -> Option<Seq<char>> {
    match kv_get(kv, status_key()) {
        Some(v) => Some(v),
        None => kv_get(kv, progress_key()),
    }
}

/// The identifier of a (possibly quoted) value.
pub fn parse_quoted_uuid(v: &[char]) -> (res: Option<u128>)
    ensures
        res == quoted_uuid(v@),
{
    let t = trim_matches_exec(v, '"');
    let s = string_of(&t);
    parse_uuid(s.as_str())
}

/// The identifier under `key`.
pub fn extract_uuid_opt(kv: &Vec<(Vec<char>, Vec<char>)>, key: &[char]) -> (res: Option<u128>)
    ensures
        res == uuid_entry(kv_view(kv@), key@),
{
    match kv_lookup(kv, key) {
        Some(v) => parse_quoted_uuid(&v),
        None => None,
    }
}

/// The unquoted, unescaped text under `key`.
pub fn extract_clean_string(kv: &Vec<(Vec<char>, Vec<char>)>, key: &[char]) -> (res: Vec<char>)
    ensures
        res@ == clean_string_spec(kv_view(kv@), key@),
{
    match kv_lookup(kv, key) {
        Some(v) => {
            let t = trim_matches_exec(&v, '"');
            unescape_string(&t)
        },
        None => Vec::new(),
    }
}

/// Whether the value under `key` reads `true`.
pub fn extract_bool(kv: &Vec<(Vec<char>, Vec<char>)>, key: &[char]) -> (res: bool)
    ensures
        res == bool_spec(kv_view(kv@), key@),
{
    match kv_lookup(kv, key) {
        Some(v) => {
            let t = trim_exec(&v);
            let word: Vec<char> = vec!['t', 'r', 'u', 'e'];
            assert(word@ == true_text());
            eq_ignore_ascii_case_exec(&t, &word)
        },
        None => false,
    }
}

/// The entries of the prerequisites list.
pub fn extract_prerequisites_list(kv: &Vec<(Vec<char>, Vec<char>)>) -> (res: Vec<Vec<char>>)
    ensures
        views(res@) == prereq_spec(kv_view(kv@)),
{
    let key: Vec<char> = vec!['p', 'r', 'e', 'r', 'e', 'q', 'u', 'i', 's', 'i', 't', 'e', 's'];
    assert(key@ == prerequisites_key());
    match kv_lookup(kv, &key) {
        Some(v) => extract_uuid_list(&v),
        None => Vec::new(),
    }
}

/// The progress number's text: the `status` entry, or else the `progress`
/// entry, without its quotes.
pub open spec fn status_number_spec(kv: Seq<(Seq<char>, Seq<char>)>) -> Option<Seq<char>> {
    match status_text_spec(kv) {
        Some(v) => Some(trim_matches_char(v, '"')),
        None => None,
    }
}

/// The text of a record's progress number, if it has one.
pub fn extract_status_text(kv: &Vec<(Vec<char>, Vec<char>)>) -> (res: Option<Vec<char>>)
    ensures
        match res {
            Some(t) => status_number_spec(kv_view(kv@)) == Some(t@),
            None => status_number_spec(kv_view(kv@)) == None::<Seq<char>>,
        },
{
    let status: Vec<char> = vec!['s', 't', 'a', 't', 'u', 's'];
    let progress: Vec<char> = vec!['p', 'r', 'o', 'g', 'r', 'e', 's', 's'];
    assert(status@ == status_key());
    assert(progress@ == progress_key());
    let v = match kv_lookup(kv, &status) {
        Some(v) => Some(v),
        None => kv_lookup(kv, &progress),
    };
    match v {
        Some(v) => Some(trim_matches_exec(&v, '"')),
        None => None,
    }
}

/// The two coordinate texts of the `position` entry: the value without its
/// brackets, split at commas; when there are exactly two pieces, each
/// trimmed.
pub open spec fn position_parts_spec(kv: Seq<(Seq<char>, Seq<char>)>) -> Option<(Seq<char>, Seq<char>)> {
    match kv_get(kv, position_key()) {
        Some(v) => {
            let ps = split_on(trim_brackets(v), ',');
            if ps.len() == 2 {
                Some((trim(ps[0]), trim(ps[1])))
            } else {
                None
            }
        },
        None => None,
    }
}

/// The coordinate texts of a record's position, if it has two.
pub fn extract_position_parts(kv: &Vec<(Vec<char>, Vec<char>)>) -> (res: Option<(Vec<char>, Vec<char>)>)
    ensures
        match res {
            Some(p) => position_parts_spec(kv_view(kv@)) == Some((p.0@, p.1@)),
            None => position_parts_spec(kv_view(kv@)) == None::<(Seq<char>, Seq<char>)>,
        },
{
    let key: Vec<char> = vec!['p', 'o', 's', 'i', 't', 'i', 'o', 'n'];
    assert(key@ == position_key());
    match kv_lookup(kv, &key) {
        Some(v) => {
            let inner = trim_brackets_exec(&v);
            let parts = split_exec(&inner, ',');
            if parts.len() == 2 {
                assert(parts@[0]@ == split_on(inner@, ',')[0]);
                assert(parts@[1]@ == split_on(inner@, ',')[1]);
                Some((trim_exec(&parts[0]), trim_exec(&parts[1])))
            } else {
                None
            }
        },
        None => None,
    }
}

/// A node read from a document, with the prerequisite entries it names.
#[derive(Debug)]
pub struct ProcessedNode {
    pub node: FocusNode,
    pub prereq_uuids: Vec<Vec<char>>,
}

/// What a record yields; when its `id` entry is missing or does not parse
/// it gets a fresh random version-4 identifier.
pub open spec fn processed_matches(
    p: ProcessedNode,
    title: Seq<char>,
    description: Seq<char>,
    progress_notes: Seq<char>,
    kv: Seq<(Seq<char>, Seq<char>)>,
    status: NodeStatus,
    x_bits: u32,
    y_bits: u32,
) -> bool {
    &&& p.node.title@ == title
    &&& p.node.description@ == description
    &&& p.node.progress_notes@ == progress_notes
    &&& p.node.image_id == uuid_entry(kv, image_id_key())
    &&& p.node.status == status
    &&& p.node.x_bits == x_bits
    &&& p.node.y_bits == y_bits
    &&& p.node.is_collapsed == bool_spec(kv, is_collapsed_key())
    &&& p.node.is_frozen == bool_spec(kv, is_frozen_key())
    &&& views(p.prereq_uuids@) == prereq_spec(kv)
    &&& (uuid_entry(kv, id_key()) matches Some(id) ==> p.node.id == id)
    &&& (uuid_entry(kv, id_key()) is None ==> crate::ids::uuid_nibble(p.node.id, 12) == 4)
}

/// A node from its texts, its entries, and the progress and position
/// that were read from them.
pub fn build_processed_node(
    title: Vec<char>,
    description: Vec<char>,
    progress_notes: Vec<char>,
    kv: &Vec<(Vec<char>, Vec<char>)>,
    status: NodeStatus,
    x_bits: u32,
    y_bits: u32,
) -> (res: ProcessedNode)
    ensures
        processed_matches(res, title@, description@, progress_notes@, kv_view(kv@), status, x_bits, y_bits),
{
    let id_k: Vec<char> = vec!['i', 'd'];
    let image_k: Vec<char> = vec!['i', 'm', 'a', 'g', 'e', '_', 'i', 'd'];
    let collapsed_k: Vec<char> = vec!['i', 's', '_', 'c', 'o', 'l', 'l', 'a', 'p', 's', 'e', 'd'];
    let frozen_k: Vec<char> = vec!['i', 's', '_', 'f', 'r', 'o', 'z', 'e', 'n'];
    assert(id_k@ == id_key());
    assert(image_k@ == image_id_key());
    assert(collapsed_k@ == is_collapsed_key());
    assert(frozen_k@ == is_frozen_key());
    let id = match extract_uuid_opt(kv, &id_k) {
        Some(id) => id,
        None => new_uuid(),
    };
    let image_id = extract_uuid_opt(kv, &image_k);
    let prereq_uuids = extract_prerequisites_list(kv);
    let is_collapsed = extract_bool(kv, &collapsed_k);
    let is_frozen = extract_bool(kv, &frozen_k);
    let mut node = FocusNode::new(string_of(&title), string_of(&description));
    node.id = id;
    node.progress_notes = string_of(&progress_notes);
    node.image_id = image_id;
    node.status = status;
    node.x_bits = x_bits;
    node.y_bits = y_bits;
    node.is_collapsed = is_collapsed;
    node.is_frozen = is_frozen;
    ProcessedNode { node, prereq_uuids }
}

/// The nodes kept when `nodes` are added in order: a node whose id is
/// already present is skipped.
pub open spec fn added_nodes(nodes: Seq<FocusNode>) -> Seq<FocusNode>
    decreases nodes.len(),
{
    if nodes.len() == 0 {
        Seq::empty()
    } else {
        let prev = added_nodes(nodes.drop_last());
        if has_node(prev, nodes.last().id) {
            prev
        } else {
            prev.push(nodes.last())
        }
    }
}

/// Whether `FocusGraph::add_edge` accepts the link `p -> c`.
pub open spec fn link_ok(nodes: Seq<FocusNode>, edges: Seq<Edge>, p: u128, c: u128) -> bool {
    has_node(nodes, p) && has_node(nodes, c) && p != c && !is_edge(edges, p, c) && !reaches(edges, c, p)
}

/// The links after asking for each `(parent, child)` of `reqs` in order.
pub open spec fn link_all(nodes: Seq<FocusNode>, reqs: Seq<(u128, u128)>) -> Seq<Edge>
    decreases reqs.len(),
{
    if reqs.len() == 0 {
        Seq::empty()
    } else {
        let prev = link_all(nodes, reqs.drop_last());
        let (p, c) = reqs.last();
        if link_ok(nodes, prev, p, c) {
            prev.push(Edge { parent_id: p, child_id: c })
        } else {
            prev
        }
    }
}

/// The links a node asks for: one per prerequisite entry that parses.
pub open spec fn requests_of(child: u128, texts: Seq<Seq<char>>) -> Seq<(u128, u128)>
    decreases texts.len(),
{
    if texts.len() == 0 {
        Seq::empty()
    } else {
        let prev = requests_of(child, texts.drop_last());
        match quoted_uuid(texts.last()) {
            Some(p) => prev.push((p, child)),
            None => prev,
        }
    }
}

/// The links all nodes ask for, node by node.
pub open spec fn all_requests(items: Seq<ProcessedNode>) -> Seq<(u128, u128)>
    decreases items.len(),
{
    if items.len() == 0 {
        Seq::empty()
    } else {
        all_requests(items.drop_last()) + requests_of(items.last().node.id, views(items.last().prereq_uuids@))
    }
}

pub open spec fn item_nodes(items: Seq<ProcessedNode>) -> Seq<FocusNode> {
    items.map_values(|p: ProcessedNode| p.node)
}

/// The graph of the read nodes: each added in order, then each node's
/// prerequisites linked in order, as far as the graph accepts them.
pub fn build_graph(items: &Vec<ProcessedNode>) -> (res: FocusGraph)
    ensures
        res.wf(),
        res.nodes@ == added_nodes(item_nodes(items@)),
        res.edges@ == link_all(res.nodes@, all_requests(items@)),
{
    let mut graph = FocusGraph::default();
    let mut i: usize = 0;
    assert(item_nodes(items@).subrange(0, 0) =~= Seq::<FocusNode>::empty());
    while i < items.len()
        invariant
            i <= items@.len(),
            graph.wf(),
            graph.edges@.len() == 0,
            graph.nodes@ == added_nodes(item_nodes(items@).subrange(0, i as int)),
        decreases items@.len() - i,
    {
        let ghost pre = item_nodes(items@).subrange(0, i as int);
        assert(item_nodes(items@).subrange(0, i + 1).drop_last() =~= pre);
        assert(item_nodes(items@).subrange(0, i + 1).last() == items@[i as int].node);
        graph.add_node(items[i].node.clone());
        i = i + 1;
    }
    assert(item_nodes(items@).subrange(0, items@.len() as int) =~= item_nodes(items@));
    let ghost nodes = graph.nodes@;
    let mut k: usize = 0;
    assert(items@.subrange(0, 0) =~= Seq::<ProcessedNode>::empty());
    while k < items.len()
        invariant
            k <= items@.len(),
            graph.wf(),
            graph.nodes@ == nodes,
            graph.edges@ == link_all(nodes, all_requests(items@.subrange(0, k as int))),
        decreases items@.len() - k,
    {
        let child = items[k].node.id;
        let texts = &items[k].prereq_uuids;
        let ghost base = all_requests(items@.subrange(0, k as int));
        let mut j: usize = 0;
        assert(views(texts@).subrange(0, 0) =~= Seq::<Seq<char>>::empty());
        assert(base + requests_of(child, Seq::<Seq<char>>::empty()) =~= base);
        while j < texts.len()
            invariant
                j <= texts@.len(),
                graph.wf(),
                graph.nodes@ == nodes,
                graph.edges@ == link_all(nodes, base + requests_of(child, views(texts@).subrange(0, j as int))),
            decreases texts@.len() - j,
        {
            let ghost pre = views(texts@).subrange(0, j as int);
            assert(views(texts@).subrange(0, j + 1).drop_last() =~= pre);
            assert(views(texts@).subrange(0, j + 1).last() == texts@[j as int]@);
            match parse_quoted_uuid(&texts[j]) {
                Some(parent) => {
                    graph.add_edge(parent, child);
                    let ghost reqs = base + requests_of(child, views(texts@).subrange(0, j + 1));
                    assert(reqs =~= (base + requests_of(child, pre)).push((parent, child)));
                    assert(reqs.drop_last() =~= base + requests_of(child, pre));
                },
                None => {
                    assert(base + requests_of(child, views(texts@).subrange(0, j + 1)) =~= base + requests_of(child, pre));
                },
            }
            j = j + 1;
        }
        proof {
            assert(views(texts@).subrange(0, texts@.len() as int) =~= views(texts@));
            let next = items@.subrange(0, k + 1);
            assert(next.drop_last() =~= items@.subrange(0, k as int));
            assert(next.last() == items@[k as int]);
            assert(all_requests(next) == base + requests_of(child, views(texts@)));
        }
        k = k + 1;
    }
    assert(items@.subrange(0, items@.len() as int) =~= items@);
    graph
}

/// The number texts written for one node: its progress and its canvas
/// coordinates, as the caller formats them.
#[derive(Debug)]
pub struct NodeNumbers {
    pub status: String,
    pub x: String,
    pub y: String,
}

pub open spec fn numbers_view(n: NodeNumbers) -> (Seq<char>, Seq<char>, Seq<char>) {
    (n.status@, n.x@, n.y@)
}

/// `"s"`.
pub open spec fn quoted(s: Seq<char>) -> Seq<char> {
    seq!['"'] + s + seq!['"']
}

/// `true` or `false`.
pub open spec fn bool_text(b: bool) -> Seq<char> {
    if b {
        true_text()
    } else {
        seq!['f', 'a', 'l', 's', 'e']
    }
}

/// `- key: value`.
pub open spec fn entry_line(key: Seq<char>, val: Seq<char>) -> Seq<char> {
    seq!['-', ' '] + key + seq![':', ' '] + val
}

/// `"id1", "id2"`.
pub open spec fn parent_list(ps: Seq<u128>) -> Seq<char> {
    crate::text::join(ps.map_values(|p: u128| quoted(crate::ids::uuid_hyphenated(p))), seq![',', ' '])
}

/// `[x, y]`.
pub open spec fn position_text(x: Seq<char>, y: Seq<char>) -> Seq<char> {
    seq!['['] + x + seq![',', ' '] + y + seq![']']
}

/// Lines, each followed by a line feed.
pub open spec fn terminated(ls: Seq<Seq<char>>) -> Seq<char> {
    ls.map_values(|l: Seq<char>| l.push('\n')).flatten()
}

/// Appends each line and a line feed.
pub fn push_terminated(out: &mut Vec<char>, ls: &Vec<Vec<char>>)
    ensures
        final(out)@ == old(out)@ + terminated(views(ls@)),
{
    let mut i: usize = 0;
    assert(views(ls@).subrange(0, 0).map_values(|l: Seq<char>| l.push('\n')).flatten() =~= Seq::<char>::empty());
    while i < ls.len()
        invariant
            i <= ls@.len(),
            out@ == old(out)@ + terminated(views(ls@).subrange(0, i as int)),
        decreases ls@.len() - i,
    {
        let ghost pre = views(ls@).subrange(0, i as int).map_values(|l: Seq<char>| l.push('\n'));
        push_all(out, &ls[i]);
        out.push('\n');
        proof {
            assert(views(ls@).subrange(0, i + 1).map_values(|l: Seq<char>| l.push('\n')) =~= pre.push(ls@[i as int]@.push('\n')));
            pre.lemma_flatten_push(ls@[i as int]@.push('\n'));
        }
        i = i + 1;
        assert(out@ =~= old(out)@ + terminated(views(ls@).subrange(0, i as int)));
    }
    assert(views(ls@).subrange(0, ls@.len() as int) =~= views(ls@));
}

/// `"id1", "id2"` for the identifiers `ps`.
pub fn format_parent_uuids(ps: &Vec<u128>) -> (res: Vec<char>)
    ensures
        res@ == parent_list(ps@),
{
    let mut out: Vec<char> = Vec::new();
    let mut i: usize = 0;
    let ghost f = |p: u128| quoted(crate::ids::uuid_hyphenated(p));
    assert(ps@.subrange(0, 0).map_values(f) =~= Seq::<Seq<char>>::empty());
    while i < ps.len()
        invariant
            i <= ps@.len(),
            f == (|p: u128| quoted(crate::ids::uuid_hyphenated(p))),
            out@ == crate::text::join(ps@.subrange(0, i as int).map_values(f), seq![',', ' ']),
        decreases ps@.len() - i,
    {
        let ghost pre = ps@.subrange(0, i as int).map_values(f);
        let ghost next = ps@.subrange(0, i + 1).map_values(f);
        assert(next.drop_last() =~= pre);
        if i > 0 {
            out.push(',');
            out.push(' ');
        }
        let ghost before = out@;
        let text = format_uuid(ps[i]);
        let text_chars = chars_of(text.as_str());
        out.push('"');
        push_all(&mut out, &text_chars);
        out.push('"');
        proof {
            assert(next.last() == quoted(crate::ids::uuid_hyphenated(ps@[i as int])));
            if i == 0 {
                assert(out@ =~= next[0]);
            } else {
                assert(out@ =~= crate::text::join(pre, seq![',', ' ']) + seq![',', ' '] + next.last());
            }
        }
        i = i + 1;
    }
    assert(ps@.subrange(0, ps@.len() as int) =~= ps@);
    out
}

} // verus!
