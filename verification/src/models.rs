//! The focus graph: tasks (nodes) and prerequisite links (edges).
//!
//! Progress and canvas coordinates are 32-bit floating-point values; the
//! library carries their IEEE-754 bit patterns through unchanged and never
//! computes with them.
use vstd::prelude::*;
use crate::ids::{new_uuid, uuid_nibble};
use crate::reach::{acyclic, edges_within, is_edge, is_path, lemma_acyclic_push, lemma_acyclic_sub, lemma_reaches_extend, lemma_reaches_self, reaches};
use std::collections::HashSet;

verus! {

broadcast use vstd::std_specs::hash::group_hash_axioms;

/// Bit pattern of the floating-point zero that new nodes start with.
pub const ZERO_BITS: u32 = 0;

/// Level of a node without prerequisites.
pub const ROOT_LEVEL_INDEX: usize = 0;

/// The progress of a task, in percent, as a float bit pattern.
#[derive(Clone, Copy, Debug, PartialEq, Eq, Structural)]
pub struct NodeStatus {
    pub progress_bits: u32,
}

impl Default for NodeStatus {
    fn default() -> (res: Self)
        ensures
            res.progress_bits == ZERO_BITS,
    {
        NodeStatus { progress_bits: ZERO_BITS }
    }
}

/// One task of the focus tree.
#[derive(Debug)]
pub struct FocusNode {
    pub id: u128,
    pub title: String,
    pub description: String,
    pub progress_notes: String,
    pub image_id: Option<u128>,
    pub status: NodeStatus,
    pub x_bits: u32,
    pub y_bits: u32,
    pub is_collapsed: bool,
    pub is_frozen: bool,
}

impl Clone for FocusNode {
    fn clone(&self) -> (res: Self)
        ensures
            res == *self,
    {
        FocusNode {
            id: self.id,
            title: self.title.clone(),
            description: self.description.clone(),
            progress_notes: self.progress_notes.clone(),
            image_id: self.image_id,
            status: self.status,
            x_bits: self.x_bits,
            y_bits: self.y_bits,
            is_collapsed: self.is_collapsed,
            is_frozen: self.is_frozen,
        }
    }
}

impl FocusNode {
    /// A new task with a fresh random id, no notes, no image, zero progress,
    /// at the origin, expanded and not frozen.
    pub fn new(title: String, description: String) -> (res: Self)
        ensures
            uuid_nibble(res.id, 12) == 4,
            res.title == title,
            res.description == description,
            res.progress_notes@ == Seq::<char>::empty(),
            res.image_id is None,
            res.status.progress_bits == ZERO_BITS,
            res.x_bits == ZERO_BITS,
            res.y_bits == ZERO_BITS,
            !res.is_collapsed,
            !res.is_frozen,
    {
        FocusNode {
            id: new_uuid(),
            title,
            description,
            progress_notes: String::new(),
            image_id: None,
            status: NodeStatus::default(),
            x_bits: ZERO_BITS,
            y_bits: ZERO_BITS,
            is_collapsed: false,
            is_frozen: false,
        }
    }
}

/// `n` folded or unfolded.
pub open spec fn with_collapsed(n: FocusNode, b: bool) -> FocusNode {
    FocusNode { is_collapsed: b, ..n }
}

/// `n` placed at the given coordinates and frozen there.
pub open spec fn with_frozen_position(n: FocusNode, x_bits: u32, y_bits: u32) -> FocusNode {
    FocusNode { x_bits, y_bits, is_frozen: true, ..n }
}

/// `n` with the texts, image and progress of the node form.
pub open spec fn with_form_fields(
    n: FocusNode,
    title: String,
    description: String,
    progress_notes: String,
    image_id: Option<u128>,
    status: NodeStatus,
) -> FocusNode {
    FocusNode { title, description, progress_notes, image_id, status, ..n }
}

/// A task made from the node form: the given id, texts, image, progress
/// and place, expanded and not frozen.
pub open spec fn form_node(
    id: u128,
    title: String,
    description: String,
    progress_notes: String,
    image_id: Option<u128>,
    status: NodeStatus,
    x_bits: u32,
    y_bits: u32,
) -> FocusNode {
    FocusNode { id, title, description, progress_notes, image_id, status, x_bits, y_bits, is_collapsed: false, is_frozen: false }
}

/// A prerequisite link: `parent_id` must come before `child_id`.
#[derive(Clone, Copy, Debug, PartialEq, Eq, Structural)]
pub struct Edge {
    pub parent_id: u128,
    pub child_id: u128,
}

impl Edge {
    pub fn new(parent_id: u128, child_id: u128) -> (res: Self)
        ensures
            res.parent_id == parent_id,
            res.child_id == child_id,
    {
        Edge { parent_id, child_id }
    }

    /// Whether this is the link from `parent_id` to `child_id`.
    pub fn matches(&self, parent_id: u128, child_id: u128) -> (res: bool)
        ensures
            res == (self.parent_id == parent_id && self.child_id == child_id),
    {
        self.parent_id == parent_id && self.child_id == child_id
    }

    /// Whether the link touches `node_id` at either end.
    pub fn involves_node(&self, node_id: u128) -> (res: bool)
        ensures
            res == (self.parent_id == node_id || self.child_id == node_id),
    {
        self.parent_id == node_id || self.child_id == node_id
    }
}

/// Index of the first node with the given id.
pub open spec fn node_index(nodes: Seq<FocusNode>, id: u128) -> Option<int>
    decreases nodes.len(),
{
    if nodes.len() == 0 {
        None
    } else if nodes[0].id == id {
        Some(0)
    } else {
        match node_index(nodes.drop_first(), id) {
            Some(i) => Some(i + 1),
            None => None,
        }
    }
}

/// Some node has the given id.
pub open spec fn has_node(nodes: Seq<FocusNode>, id: u128) -> bool {
    exists|i: int| 0 <= i < nodes.len() && nodes[i].id == id
}

/// The prerequisites of `id`, in edge order.
pub open spec fn parents_spec(edges: Seq<Edge>, id: u128) -> Seq<u128>
    decreases edges.len(),
{
    if edges.len() == 0 {
        Seq::empty()
    } else if edges.last().child_id == id {
        parents_spec(edges.drop_last(), id).push(edges.last().parent_id)
    } else {
        parents_spec(edges.drop_last(), id)
    }
}

/// The tasks that require `id`, in edge order.
pub open spec fn children_spec(edges: Seq<Edge>, id: u128) -> Seq<u128>
    decreases edges.len(),
{
    if edges.len() == 0 {
        Seq::empty()
    } else if edges.last().parent_id == id {
        children_spec(edges.drop_last(), id).push(edges.last().child_id)
    } else {
        children_spec(edges.drop_last(), id)
    }
}

/// The nodes of `nodes` whose id differs from `id`, in order.
pub open spec fn nodes_without(nodes: Seq<FocusNode>, id: u128) -> Seq<FocusNode>
    decreases nodes.len(),
{
    if nodes.len() == 0 {
        Seq::empty()
    } else if nodes.last().id == id {
        nodes_without(nodes.drop_last(), id)
    } else {
        nodes_without(nodes.drop_last(), id).push(nodes.last())
    }
}

/// The edges of `edges` that satisfy neither `matches(p, c)` (when `pair`)
/// nor `involves_node(p)` (otherwise), in order.
pub open spec fn edges_without(edges: Seq<Edge>, p: u128, c: u128, pair: bool) -> Seq<Edge>
    decreases edges.len(),
{
    if edges.len() == 0 {
        Seq::empty()
    } else {
        let e = edges.last();
        let drop = if pair {
            e.parent_id == p && e.child_id == c
        } else {
            e.parent_id == p || e.child_id == p
        };
        if drop {
            edges_without(edges.drop_last(), p, c, pair)
        } else {
            edges_without(edges.drop_last(), p, c, pair).push(e)
        }
    }
}

/// The focus tree.
#[derive(Debug)]
pub struct FocusGraph {
    pub nodes: Vec<FocusNode>,
    pub edges: Vec<Edge>,
}

impl Default for FocusGraph {
    fn default() -> (res: Self)
        ensures
            res.nodes@.len() == 0,
            res.edges@.len() == 0,
    {
        FocusGraph { nodes: Vec::new(), edges: Vec::new() }
    }
}

impl FocusGraph {
    /// Node ids are unique.
    pub open spec fn unique_ids(&self) -> bool {
        forall|i: int, j: int|
            0 <= i < self.nodes@.len() && 0 <= j < self.nodes@.len() && i != j
                ==> self.nodes@[i].id != self.nodes@[j].id
    }

    /// Every edge joins two nodes of the graph.
    pub open spec fn edges_closed(&self) -> bool {
        forall|k: int|
            0 <= k < self.edges@.len() ==> has_node(self.nodes@, #[trigger] self.edges@[k].parent_id)
                && has_node(self.nodes@, self.edges@[k].child_id)
    }

    /// No link occurs twice.
    pub open spec fn distinct_edges(&self) -> bool {
        forall|k: int, l: int|
            0 <= k < self.edges@.len() && 0 <= l < self.edges@.len() && k != l
                ==> self.edges@[k] != self.edges@[l]
    }

    /// The state every operation keeps: unique ids, links between existing
    /// nodes, no duplicate links, and no cycle.
    pub open spec fn wf(&self) -> bool {
        &&& self.unique_ids()
        &&& self.edges_closed()
        &&& self.distinct_edges()
        &&& acyclic(self.edges@)
    }

    /// Adds `node` unless a node with its id is already present; returns the id.
    pub fn add_node(&mut self, node: FocusNode) -> (res: u128)
        ensures
            res == node.id,
            final(self).edges@ == old(self).edges@,
            has_node(old(self).nodes@, node.id) ==> final(self).nodes@ == old(self).nodes@,
            !has_node(old(self).nodes@, node.id) ==> final(self).nodes@ == old(self).nodes@.push(
                node,
            ),
            old(self).wf() ==> final(self).wf(),
    {
        let node_id = node.id;
        if !self.contains_node(node_id) {
            self.nodes.push(node);
            proof {
                let s = *final(self);
                if old(self).wf() {
                assert forall|k: int|
                    0 <= k < s.edges@.len() implies has_node(s.nodes@, #[trigger] s.edges@[k].parent_id)
                    && has_node(s.nodes@, s.edges@[k].child_id) by {
                    {
                        let a = choose|i: int|
                            0 <= i < old(self).nodes@.len() && old(self).nodes@[i].id
                                == s.edges@[k].parent_id;
                        let b = choose|i: int|
                            0 <= i < old(self).nodes@.len() && old(self).nodes@[i].id
                                == s.edges@[k].child_id;
                        assert(s.nodes@[a] == old(self).nodes@[a]);
                        assert(s.nodes@[b] == old(self).nodes@[b]);
                    }
                }
                }
            }
        }
        node_id
    }

    /// Whether some node has the given id.
    pub fn contains_node(&self, id: u128) -> (res: bool)
        ensures
            res == has_node(self.nodes@, id),
    {
        let mut i: usize = 0;
        while i < self.nodes.len()
            invariant
                i <= self.nodes@.len(),
                forall|j: int| 0 <= j < i ==> self.nodes@[j].id != id,
            decreases self.nodes@.len() - i,
        {
            if self.nodes[i].id == id {
                return true;
            }
            i = i + 1;
        }
        false
    }

    /// The first node with the given id.
    pub fn get_node(&self, id: u128) -> (res: Option<&FocusNode>)
        ensures
            match node_index(self.nodes@, id) {
                Some(i) => res == Some(&self.nodes@[i]),
                None => res is None,
            },
            res is Some <==> has_node(self.nodes@, id),
    {
        let mut i: usize = 0;
        while i < self.nodes.len()
            invariant
                i <= self.nodes@.len(),
                forall|j: int| 0 <= j < i ==> self.nodes@[j].id != id,
            decreases self.nodes@.len() - i,
        {
            if self.nodes[i].id == id {
                proof {
                    lemma_node_index_is(self.nodes@, id, i as int);
                }
                return Some(&self.nodes[i]);
            }
            i = i + 1;
        }
        proof {
            lemma_node_index_none(self.nodes@, id);
        }
        None
    }

    /// The first node with the given id, for changing it in place: the
    /// graph then holds the changed node at that position, and nothing
    /// else changes.
    pub fn get_node_mut(&mut self, id: u128) -> (res: Option<&mut FocusNode>)
        ensures
            match node_index(old(self).nodes@, id) {
                Some(i) => res matches Some(r) && *r == old(self).nodes@[i] && final(self).nodes@ == old(self).nodes@.update(
                    i,
                    *final(r),
                ) && final(self).edges@ == old(self).edges@,
                None => res is None && *final(self) == *old(self),
            },
            res is Some <==> has_node(old(self).nodes@, id),
    {
        proof {
            lemma_node_index_props(self.nodes@, id);
        }
        match self.node_position(id) {
            Some(i) => Some(&mut self.nodes[i]),
            None => None,
        }
    }

    /// Position of the first node with the given id.
    pub fn node_position(&self, id: u128) -> (res: Option<usize>)
        ensures
            match node_index(self.nodes@, id) {
                Some(i) => res == Some(i as usize),
                None => res is None,
            },
            match res {
                Some(i) => node_index(self.nodes@, id) == Some(i as int) && i < self.nodes@.len(),
                None => node_index(self.nodes@, id) == None::<int>,
            },
    {
        let mut i: usize = 0;
        while i < self.nodes.len()
            invariant
                i <= self.nodes@.len(),
                forall|j: int| 0 <= j < i ==> self.nodes@[j].id != id,
            decreases self.nodes@.len() - i,
        {
            if self.nodes[i].id == id {
                proof {
                    lemma_node_index_is(self.nodes@, id, i as int);
                }
                return Some(i);
            }
            i = i + 1;
        }
        proof {
            lemma_node_index_none(self.nodes@, id);
        }
        None
    }

    /// Removes every node with the given id and every link that touches it.
    pub fn remove_node(&mut self, id: u128)
        ensures
            final(self).nodes@ == nodes_without(old(self).nodes@, id),
            final(self).edges@ == edges_without(old(self).edges@, id, 0, false),
            old(self).wf() ==> final(self).wf(),
    {
        let ghost old_self = *self;
        let mut kept: Vec<FocusNode> = Vec::new();
        let mut old_nodes: Vec<FocusNode> = Vec::new();
        std::mem::swap(&mut old_nodes, &mut self.nodes);
        let mut i: usize = 0;
        while i < old_nodes.len()
            invariant
                i <= old_nodes@.len(),
                old_nodes@ == old_self.nodes@,
                kept@ == nodes_without(old_nodes@.subrange(0, i as int), id),
            decreases old_nodes@.len() - i,
        {
            assert(old_nodes@.subrange(0, i + 1).drop_last() == old_nodes@.subrange(0, i as int));
            if old_nodes[i].id != id {
                kept.push(old_nodes[i].clone());
            }
            i = i + 1;
        }
        assert(old_nodes@.subrange(0, old_nodes@.len() as int) == old_nodes@);
        self.nodes = kept;
        self.retain_edges(id, 0, false);
        proof {
            if old_self.wf() {
                lemma_nodes_without_props(old_self.nodes@, id);
                lemma_edges_without_props(old_self.edges@, id, 0, false);
                let s = *final(self);
                assert forall|k: int|
                    0 <= k < s.edges@.len() implies has_node(s.nodes@, #[trigger] s.edges@[k].parent_id)
                    && has_node(s.nodes@, s.edges@[k].child_id) by {
                    let e = s.edges@[k];
                    assert(s.edges@.contains(e));
                    assert(old_self.edges@.contains(e));
                    let kk = choose|kk: int| 0 <= kk < old_self.edges@.len() && old_self.edges@[kk] == e;
                    assert(has_node(old_self.nodes@, old_self.edges@[kk].parent_id));
                    assert(has_node(old_self.nodes@, e.child_id));
                    let a = choose|a: int| 0 <= a < old_self.nodes@.len() && old_self.nodes@[a].id == e.parent_id;
                    let b = choose|b: int| 0 <= b < old_self.nodes@.len() && old_self.nodes@[b].id == e.child_id;
                    assert(old_self.nodes@.contains(old_self.nodes@[a]));
                    assert(old_self.nodes@.contains(old_self.nodes@[b]));
                    assert(s.nodes@.contains(old_self.nodes@[a]));
                    assert(s.nodes@.contains(old_self.nodes@[b]));
                    let a2 = choose|a2: int| 0 <= a2 < s.nodes@.len() && s.nodes@[a2] == old_self.nodes@[a];
                    let b2 = choose|b2: int| 0 <= b2 < s.nodes@.len() && s.nodes@[b2] == old_self.nodes@[b];
                    assert(s.nodes@[a2].id == e.parent_id);
                    assert(s.nodes@[b2].id == e.child_id);
                }
                assert(edges_within(s.edges@, old_self.edges@)) by {
                    assert forall|x: u128, y: u128| is_edge(s.edges@, x, y) implies is_edge(old_self.edges@, x, y) by {
                        let k = choose|k: int| 0 <= k < s.edges@.len() && s.edges@[k].parent_id == x && s.edges@[k].child_id == y;
                        assert(s.edges@.contains(s.edges@[k]));
                        assert(old_self.edges@.contains(s.edges@[k]));
                    }
                }
                lemma_acyclic_sub(s.edges@, old_self.edges@);
            }
        }
    }

    /// Removes the link from `parent_id` to `child_id`, every copy of it.
    pub fn remove_edge(&mut self, parent_id: u128, child_id: u128)
        ensures
            final(self).nodes@ == old(self).nodes@,
            final(self).edges@ == edges_without(old(self).edges@, parent_id, child_id, true),
            old(self).wf() ==> final(self).wf(),
    {
        let ghost old_self = *self;
        self.retain_edges(parent_id, child_id, true);
        proof {
            if old_self.wf() {
                lemma_edges_without_props(old_self.edges@, parent_id, child_id, true);
                let s = *final(self);
                assert forall|k: int|
                    0 <= k < s.edges@.len() implies has_node(s.nodes@, #[trigger] s.edges@[k].parent_id)
                    && has_node(s.nodes@, s.edges@[k].child_id) by {
                    let e = s.edges@[k];
                    assert(s.edges@.contains(e));
                    assert(old_self.edges@.contains(e));
                    let kk = choose|kk: int| 0 <= kk < old_self.edges@.len() && old_self.edges@[kk] == e;
                    assert(has_node(old_self.nodes@, old_self.edges@[kk].parent_id));
                }
                assert(edges_within(s.edges@, old_self.edges@)) by {
                    assert forall|x: u128, y: u128| is_edge(s.edges@, x, y) implies is_edge(old_self.edges@, x, y) by {
                        let k = choose|k: int| 0 <= k < s.edges@.len() && s.edges@[k].parent_id == x && s.edges@[k].child_id == y;
                        assert(s.edges@.contains(s.edges@[k]));
                        assert(old_self.edges@.contains(s.edges@[k]));
                    }
                }
                lemma_acyclic_sub(s.edges@, old_self.edges@);
            }
        }
    }

    fn retain_edges(&mut self, p: u128, c: u128, pair: bool)
        ensures
            final(self).nodes@ == old(self).nodes@,
            final(self).edges@ == edges_without(old(self).edges@, p, c, pair),
    {
        let mut old_edges: Vec<Edge> = Vec::new();
        std::mem::swap(&mut old_edges, &mut self.edges);
        let mut kept: Vec<Edge> = Vec::new();
        let mut i: usize = 0;
        while i < old_edges.len()
            invariant
                i <= old_edges@.len(),
                kept@ == edges_without(old_edges@.subrange(0, i as int), p, c, pair),
            decreases old_edges@.len() - i,
        {
            assert(old_edges@.subrange(0, i + 1).drop_last() == old_edges@.subrange(0, i as int));
            let e = old_edges[i];
            let drop = if pair {
                e.matches(p, c)
            } else {
                e.involves_node(p)
            };
            if !drop {
                kept.push(e);
            }
            i = i + 1;
        }
        assert(old_edges@.subrange(0, old_edges@.len() as int) == old_edges@);
        self.edges = kept;
    }

    /// Links `parent_id` to `child_id` when both nodes exist, they differ,
    /// the link is new, and it would not close a cycle.
    pub fn add_edge(&mut self, parent_id: u128, child_id: u128)
        ensures
            final(self).nodes@ == old(self).nodes@,
            ({
                let ok = has_node(old(self).nodes@, parent_id) && has_node(old(self).nodes@, child_id)
                    && parent_id != child_id && !is_edge(old(self).edges@, parent_id, child_id)
                    && !reaches(old(self).edges@, child_id, parent_id);
                &&& ok ==> final(self).edges@ == old(self).edges@.push(Edge { parent_id, child_id })
                &&& !ok ==> final(self).edges@ == old(self).edges@
            }),
            old(self).wf() ==> final(self).wf(),
    {
        if !self.contains_node(parent_id) || !self.contains_node(child_id) {
            return;
        }
        if self.is_invalid_edge_connection(parent_id, child_id) {
            return;
        }
        let ghost old_self = *self;
        self.edges.push(Edge::new(parent_id, child_id));
        proof {
            if old_self.wf() {
                let s = *final(self);
                let e = Edge { parent_id, child_id };
                assert(s.edges@ == old_self.edges@.push(e));
                lemma_acyclic_push(old_self.edges@, e);
                assert forall|k: int, l: int|
                    0 <= k < s.edges@.len() && 0 <= l < s.edges@.len() && k != l implies s.edges@[k]
                    != s.edges@[l] by {
                    if k == old_self.edges@.len() && l < old_self.edges@.len() {
                        assert(old_self.edges@[l] == s.edges@[l]);
                    }
                    if l == old_self.edges@.len() && k < old_self.edges@.len() {
                        assert(old_self.edges@[k] == s.edges@[k]);
                    }
                }
                assert forall|k: int|
                    0 <= k < s.edges@.len() implies has_node(s.nodes@, #[trigger] s.edges@[k].parent_id)
                    && has_node(s.nodes@, s.edges@[k].child_id) by {
                    if k < old_self.edges@.len() {
                        assert(old_self.edges@[k] == s.edges@[k]);
                    }
                }
            }
        }
    }

    /// The prerequisites of `id`, in link order.
    pub fn parents_of(&self, id: u128) -> (res: Vec<u128>)
        ensures
            res@ == parents_spec(self.edges@, id),
    {
        let mut res: Vec<u128> = Vec::new();
        let mut i: usize = 0;
        while i < self.edges.len()
            invariant
                i <= self.edges@.len(),
                res@ == parents_spec(self.edges@.subrange(0, i as int), id),
            decreases self.edges@.len() - i,
        {
            assert(self.edges@.subrange(0, i + 1).drop_last() == self.edges@.subrange(0, i as int));
            if self.edges[i].child_id == id {
                res.push(self.edges[i].parent_id);
            }
            i = i + 1;
        }
        assert(self.edges@.subrange(0, self.edges@.len() as int) == self.edges@);
        res
    }

    /// The tasks that require `id`, in link order.
    pub fn children_of(&self, id: u128) -> (res: Vec<u128>)
        ensures
            res@ == children_spec(self.edges@, id),
    {
        let mut res: Vec<u128> = Vec::new();
        let mut i: usize = 0;
        while i < self.edges.len()
            invariant
                i <= self.edges@.len(),
                res@ == children_spec(self.edges@.subrange(0, i as int), id),
            decreases self.edges@.len() - i,
        {
            assert(self.edges@.subrange(0, i + 1).drop_last() == self.edges@.subrange(0, i as int));
            if self.edges[i].parent_id == id {
                res.push(self.edges[i].child_id);
            }
            i = i + 1;
        }
        assert(self.edges@.subrange(0, self.edges@.len() as int) == self.edges@);
        res
    }

    fn is_invalid_edge_connection(&self, parent_id: u128, child_id: u128) -> (res: bool)
        ensures
            res == (parent_id == child_id || is_edge(self.edges@, parent_id, child_id) || reaches(
                self.edges@,
                child_id,
                parent_id,
            )),
    {
        if parent_id == child_id {
            proof {
                lemma_reaches_self(self.edges@, child_id);
            }
            return true;
        }
        if self.edge_exists(parent_id, child_id) {
            return true;
        }
        self.would_create_cycle(parent_id, child_id)
    }

    fn edge_exists(&self, parent_id: u128, child_id: u128) -> (res: bool)
        ensures
            res == is_edge(self.edges@, parent_id, child_id),
    {
        let mut i: usize = 0;
        while i < self.edges.len()
            invariant
                i <= self.edges@.len(),
                forall|j: int|
                    0 <= j < i ==> !(self.edges@[j].parent_id == parent_id && self.edges@[j].child_id
                        == child_id),
            decreases self.edges@.len() - i,
        {
            if self.edges[i].matches(parent_id, child_id) {
                return true;
            }
            i = i + 1;
        }
        false
    }

    /// Whether linking `parent_id` to `child_id` would close a cycle: the
    /// two are equal or the child already reaches the parent.
    pub fn would_create_cycle(&self, parent_id: u128, child_id: u128) -> (res: bool)
        ensures
            res == (parent_id == child_id || reaches(self.edges@, child_id, parent_id)),
    {
        if parent_id == child_id {
            proof {
                lemma_reaches_self(self.edges@, child_id);
            }
            return true;
        }
        let mut traversal_stack: Vec<u128> = Vec::new();
        traversal_stack.push(child_id);
        let mut visited_nodes: HashSet<u128> = HashSet::new();
        visited_nodes.insert(child_id);
        proof {
            lemma_reaches_self(self.edges@, child_id);
        }
        let ghost edges = self.edges@;
        assert(traversal_stack@[0] == child_id);
        loop
            invariant
                edges == self.edges@,
                parent_id != child_id,
                visited_nodes@.contains(child_id),
                traversal_stack@.no_duplicates(),
                forall|k: int| 0 <= k < traversal_stack@.len() ==> visited_nodes@.contains(
                    #[trigger] traversal_stack@[k],
                ),
                forall|v: u128| #[trigger] visited_nodes@.contains(v) ==> reaches(edges, child_id, v),
                forall|v: u128|
                    #[trigger] visited_nodes@.contains(v) && !traversal_stack@.contains(v) ==> v
                        != parent_id && (forall|k: int|
                        0 <= k < edges.len() && edges[k].parent_id == v ==> visited_nodes@.contains(
                            edges[k].child_id,
                        )),
            ensures
                forall|v: u128| #[trigger] visited_nodes@.contains(v) ==> v != parent_id && (forall|k: int|
                        0 <= k < edges.len() && edges[k].parent_id == v ==> visited_nodes@.contains(
                            edges[k].child_id,
                        )),
            decreases count_unreached(edges, visited_nodes@), traversal_stack@.len(),
        {
            let ghost before_stack = traversal_stack@;
            let ghost before_visited = visited_nodes@;
            match traversal_stack.pop() {
                None => {
                    assert(traversal_stack@.len() == 0);
                    break ;
                },
                Some(current_node_id) => {
                    assert(before_stack == traversal_stack@.push(current_node_id));
                    assert(before_stack[before_stack.len() - 1] == current_node_id);
                    assert(visited_nodes@.contains(before_stack[before_stack.len() - 1]));
                    if current_node_id == parent_id {
                        return true;
                    }
                    let ghost popped_stack = traversal_stack@;
                    proof {
                        assert forall|v: u128| #[trigger] popped_stack.contains(v) implies before_stack.contains(v) && v != current_node_id by {
                            let k = choose|k: int| 0 <= k < popped_stack.len() && popped_stack[k] == v;
                            assert(before_stack[k] == v);
                            if v == current_node_id {
                                assert(before_stack[k] == before_stack[before_stack.len() - 1]);
                            }
                        }
                        assert forall|a: int, b: int| 0 <= a < popped_stack.len() && 0 <= b < popped_stack.len() && a != b
                            implies popped_stack[a] != popped_stack[b] by {
                            assert(before_stack[a] == popped_stack[a] && before_stack[b] == popped_stack[b]);
                        }
                        assert forall|k: int| 0 <= k < popped_stack.len() implies visited_nodes@.contains(#[trigger] popped_stack[k]) by {
                            assert(before_stack[k] == popped_stack[k]);
                        }
                    }
                    self.push_unvisited_children(
                        current_node_id,
                        &mut traversal_stack,
                        &mut visited_nodes,
                    );
                    proof {
                        lemma_count_unreached_mono(edges, before_visited, visited_nodes@);
                        assert forall|v: u128| #[trigger] visited_nodes@.contains(v) implies reaches(edges, child_id, v) by {
                            if !before_visited.contains(v) {
                                lemma_reaches_extend(edges, child_id, current_node_id, v);
                            }
                        }
                        assert forall|v: u128| #[trigger] visited_nodes@.contains(v) && !traversal_stack@.contains(v)
                            implies v != parent_id && (forall|k: int|
                            0 <= k < edges.len() && edges[k].parent_id == v ==> visited_nodes@.contains(
                                edges[k].child_id,
                            )) by {
                            if v == current_node_id {
                            } else {
                                assert(before_visited.contains(v));
                                if before_stack.contains(v) {
                                    let k = choose|k: int| 0 <= k < before_stack.len() && before_stack[k] == v;
                                    if k < popped_stack.len() {
                                        assert(popped_stack[k] == v);
                                        assert(popped_stack.contains(v));
                                    }
                                }
                                assert(!before_stack.contains(v));
                            }
                        }
                        if exists|v: u128| visited_nodes@.contains(v) && !before_visited.contains(v) {
                            let v = choose|v: u128| visited_nodes@.contains(v) && !before_visited.contains(v);
                            assert(is_edge(edges, current_node_id, v));
                            let k = choose|k: int| 0 <= k < edges.len() && edges[k].parent_id == current_node_id && edges[k].child_id == v;
                            assert(!before_visited.contains(edges[k].child_id) && visited_nodes@.contains(edges[k].child_id));
                        } else {
                            assert(traversal_stack@.len() <= before_stack.len() - 1) by {
                                assert forall|v: u128| #[trigger] traversal_stack@.contains(v) implies popped_stack.contains(v) by {
                                    let k = choose|k: int| 0 <= k < traversal_stack@.len() && traversal_stack@[k] == v;
                                    assert(visited_nodes@.contains(traversal_stack@[k]));
                                    assert(before_visited.contains(v));
                                }
                                lemma_no_dup_subset_len(traversal_stack@, popped_stack);
                            }
                        }
                    }
                },
            }
        }
        proof {
            if reaches(edges, child_id, parent_id) {
                let p = choose|p: Seq<u128>| is_path(edges, p) && p[0] == child_id && p.last() == parent_id;
                lemma_closed_contains_path(edges, visited_nodes@, p);
            }
        }
        false
    }

    fn push_unvisited_children(
        &self,
        current_node_id: u128,
        traversal_stack: &mut Vec<u128>,
        visited_nodes: &mut HashSet<u128>,
    )
        requires
            old(visited_nodes)@.contains(current_node_id),
            old(traversal_stack)@.no_duplicates(),
            !old(traversal_stack)@.contains(current_node_id),
            forall|k: int| 0 <= k < old(traversal_stack)@.len() ==> old(visited_nodes)@.contains(
                #[trigger] old(traversal_stack)@[k],
            ),
        ensures
            old(visited_nodes)@.subset_of(final(visited_nodes)@),
            final(traversal_stack)@.no_duplicates(),
            !final(traversal_stack)@.contains(current_node_id),
            forall|k: int| 0 <= k < final(traversal_stack)@.len() ==> final(visited_nodes)@.contains(
                #[trigger] final(traversal_stack)@[k],
            ),
            forall|v: u128| #[trigger] old(traversal_stack)@.contains(v) ==> final(traversal_stack)@.contains(v),
            forall|v: u128| #[trigger] final(traversal_stack)@.contains(v) ==> old(traversal_stack)@.contains(v) || !old(visited_nodes)@.contains(v),
            forall|v: u128|
                #[trigger] final(visited_nodes)@.contains(v) && !old(visited_nodes)@.contains(v)
                    ==> final(traversal_stack)@.contains(v) && is_edge(self.edges@, current_node_id, v),
            forall|k: int|
                0 <= k < self.edges@.len() && self.edges@[k].parent_id == current_node_id
                    ==> final(visited_nodes)@.contains(#[trigger] self.edges@[k].child_id),
    {
        let mut i: usize = 0;
        while i < self.edges.len()
            invariant
                i <= self.edges@.len(),
                old(visited_nodes)@.subset_of(visited_nodes@),
                visited_nodes@.contains(current_node_id),
                traversal_stack@.no_duplicates(),
                !traversal_stack@.contains(current_node_id),
                forall|k: int| 0 <= k < traversal_stack@.len() ==> visited_nodes@.contains(
                    #[trigger] traversal_stack@[k],
                ),
                forall|v: u128| #[trigger] old(traversal_stack)@.contains(v) ==> traversal_stack@.contains(v),
                forall|v: u128| #[trigger] traversal_stack@.contains(v) ==> old(traversal_stack)@.contains(v) || !old(visited_nodes)@.contains(v),
                forall|v: u128|
                    #[trigger] visited_nodes@.contains(v) && !old(visited_nodes)@.contains(v)
                        ==> traversal_stack@.contains(v) && is_edge(self.edges@, current_node_id, v),
                forall|k: int|
                    0 <= k < i && self.edges@[k].parent_id == current_node_id
                        ==> visited_nodes@.contains(#[trigger] self.edges@[k].child_id),
            decreases self.edges@.len() - i,
        {
            let edge = self.edges[i];
            if edge.parent_id == current_node_id && visited_nodes.insert(edge.child_id) {
                let ghost before = traversal_stack@;
                traversal_stack.push(edge.child_id);
                proof {
                    assert(traversal_stack@ == before.push(edge.child_id));
                    assert(!before.contains(edge.child_id));
                    assert forall|a: int, b: int| 0 <= a < traversal_stack@.len() && 0 <= b < traversal_stack@.len() && a != b
                        implies traversal_stack@[a] != traversal_stack@[b] by {
                        if a < before.len() && b < before.len() {
                            assert(before[a] != before[b]);
                        } else if a < before.len() {
                            assert(before.contains(before[a]));
                        } else {
                            assert(before.contains(before[b]));
                        }
                    }
                    assert forall|v: u128| #[trigger] old(traversal_stack)@.contains(v) implies traversal_stack@.contains(v) by {
                        let k = choose|k: int| 0 <= k < before.len() && before[k] == v;
                        assert(traversal_stack@[k] == v);
                    }
                    assert(is_edge(self.edges@, current_node_id, edge.child_id));
                    assert forall|v: u128| #[trigger] traversal_stack@.contains(v) implies old(traversal_stack)@.contains(v) || !old(visited_nodes)@.contains(v) by {
                        if v != edge.child_id {
                            let k = choose|k: int| 0 <= k < traversal_stack@.len() && traversal_stack@[k] == v;
                            assert(before[k] == v);
                            assert(before.contains(v));
                        }
                    }
                    assert forall|v: u128|
                        #[trigger] visited_nodes@.contains(v) && !old(visited_nodes)@.contains(v)
                        implies traversal_stack@.contains(v) && is_edge(self.edges@, current_node_id, v) by {
                        if v != edge.child_id {
                            let k = choose|k: int| 0 <= k < before.len() && before[k] == v;
                            assert(traversal_stack@[k] == v);
                        } else {
                            assert(traversal_stack@[before.len() as int] == v);
                        }
                    }
                }
            }
            i = i + 1;
        }
    }
}

/// A duplicate-free sequence whose elements all occur in another one is no longer.
pub proof fn lemma_no_dup_subset_len(a: Seq<u128>, b: Seq<u128>)
    requires
        a.no_duplicates(),
        forall|v: u128| #[trigger] a.contains(v) ==> b.contains(v),
    ensures
        a.len() <= b.len(),
{
    a.unique_seq_to_set();
    b.lemma_cardinality_of_set();
    vstd::seq_lib::seq_to_set_is_finite(b);
    assert(a.to_set().subset_of(b.to_set())) by {
        assert forall|v: u128| a.to_set().contains(v) implies b.to_set().contains(v) by {
            assert(a.contains(v));
        }
    }
    vstd::set_lib::lemma_len_subset(a.to_set(), b.to_set());
}

/// Number of links whose child has not been reached yet.
pub open spec fn count_unreached(edges: Seq<Edge>, visited: Set<u128>) -> nat
    decreases edges.len(),
{
    if edges.len() == 0 {
        0
    } else {
        count_unreached(edges.drop_last(), visited) + if visited.contains(edges.last().child_id) {
            0nat
        } else {
            1nat
        }
    }
}

pub proof fn lemma_count_unreached_mono(edges: Seq<Edge>, a: Set<u128>, b: Set<u128>)
    requires
        a.subset_of(b),
    ensures
        count_unreached(edges, b) <= count_unreached(edges, a),
        (exists|k: int|
            0 <= k < edges.len() && !a.contains(#[trigger] edges[k].child_id) && b.contains(
                edges[k].child_id,
            )) ==> count_unreached(edges, b) < count_unreached(edges, a),
    decreases edges.len(),
{
    if edges.len() > 0 {
        lemma_count_unreached_mono(edges.drop_last(), a, b);
        if exists|k: int|
            0 <= k < edges.len() && !a.contains(#[trigger] edges[k].child_id) && b.contains(
                edges[k].child_id,
            ) {
            let k = choose|k: int|
                0 <= k < edges.len() && !a.contains(#[trigger] edges[k].child_id) && b.contains(
                    edges[k].child_id,
                );
            if k < edges.len() - 1 {
                assert(edges.drop_last()[k] == edges[k]);
            }
        }
    }
}

/// A set that holds the start of a path and is closed under following
/// links holds the whole path.
pub proof fn lemma_closed_contains_path(edges: Seq<Edge>, vis: Set<u128>, p: Seq<u128>)
    requires
        is_path(edges, p),
        vis.contains(p[0]),
        forall|v: u128| #[trigger] vis.contains(v) ==> (forall|k: int|
            0 <= k < edges.len() && edges[k].parent_id == v ==> vis.contains(edges[k].child_id)),
    ensures
        vis.contains(p.last()),
    decreases p.len(),
{
    if p.len() > 1 {
        let q = p.drop_last();
        assert forall|i: int| 0 <= i < q.len() - 1 implies #[trigger] is_edge(edges, q[i], q[i + 1]) by {
            assert(is_edge(edges, p[i], p[i + 1]));
        }
        lemma_closed_contains_path(edges, vis, q);
        assert(is_edge(edges, p[p.len() - 2], p[p.len() - 2 + 1]));
        let k = choose|k: int|
            0 <= k < edges.len() && edges[k].parent_id == p[p.len() - 2] && edges[k].child_id
                == p.last();
        assert(vis.contains(q.last()));
    }
}

pub proof fn lemma_node_index_is(nodes: Seq<FocusNode>, id: u128, i: int)
    requires
        0 <= i < nodes.len(),
        nodes[i].id == id,
        forall|j: int| 0 <= j < i ==> nodes[j].id != id,
    ensures
        node_index(nodes, id) == Some(i),
    decreases i,
{
    if i > 0 {
        lemma_node_index_is(nodes.drop_first(), id, i - 1);
    }
}

pub proof fn lemma_node_index_none(nodes: Seq<FocusNode>, id: u128)
    requires
        forall|j: int| 0 <= j < nodes.len() ==> nodes[j].id != id,
    ensures
        node_index(nodes, id) is None,
    decreases nodes.len(),
{
    if nodes.len() > 0 {
        lemma_node_index_none(nodes.drop_first(), id);
    }
}

/// `node_index` finds the first node with the id.
pub proof fn lemma_node_index_props(nodes: Seq<FocusNode>, id: u128)
    ensures
        match node_index(nodes, id) {
            Some(i) => 0 <= i < nodes.len() && nodes[i].id == id,
            None => !has_node(nodes, id),
        },
    decreases nodes.len(),
{
    if nodes.len() > 0 && nodes[0].id != id {
        lemma_node_index_props(nodes.drop_first(), id);
        if node_index(nodes.drop_first(), id) is None {
            assert forall|j: int| 0 <= j < nodes.len() implies nodes[j].id != id by {
                if j > 0 {
                    assert(nodes[j] == nodes.drop_first()[j - 1]);
                }
            }
        }
    }
}

/// What is left after removing an id: the other nodes, still in order.
pub proof fn lemma_nodes_without_props(nodes: Seq<FocusNode>, id: u128)
    ensures
        forall|k: int| 0 <= k < nodes_without(nodes, id).len() ==> nodes_without(nodes, id)[k].id != id,
        forall|x: FocusNode| nodes_without(nodes, id).contains(x) <==> (nodes.contains(x) && x.id != id),
        (forall|i: int, j: int| 0 <= i < nodes.len() && 0 <= j < nodes.len() && i != j ==> nodes[i].id != nodes[j].id)
            ==> (forall|i: int, j: int|
            0 <= i < nodes_without(nodes, id).len() && 0 <= j < nodes_without(nodes, id).len() && i != j
                ==> nodes_without(nodes, id)[i].id != nodes_without(nodes, id)[j].id),
    decreases nodes.len(),
{
    if nodes.len() > 0 {
        let init = nodes.drop_last();
        lemma_nodes_without_props(init, id);
        let r = nodes_without(init, id);
        assert forall|x: FocusNode| nodes.contains(x) <==> (init.contains(x) || x == nodes.last()) by {
            if nodes.contains(x) {
                let k = choose|k: int| 0 <= k < nodes.len() && nodes[k] == x;
                if k < nodes.len() - 1 {
                    assert(init[k] == x);
                }
            }
            if init.contains(x) {
                let k = choose|k: int| 0 <= k < init.len() && init[k] == x;
                assert(nodes[k] == x);
            }
        }
        if nodes.last().id != id {
            let r2 = r.push(nodes.last());
            assert forall|x: FocusNode| r2.contains(x) <==> (r.contains(x) || x == nodes.last()) by {
                if r2.contains(x) {
                    let k = choose|k: int| 0 <= k < r2.len() && r2[k] == x;
                    if k < r.len() {
                        assert(r[k] == x);
                    }
                }
                if r.contains(x) {
                    let k = choose|k: int| 0 <= k < r.len() && r[k] == x;
                    assert(r2[k] == x);
                }
                if x == nodes.last() {
                    assert(r2[r.len() as int] == x);
                }
            }
            if forall|i: int, j: int| 0 <= i < nodes.len() && 0 <= j < nodes.len() && i != j ==> nodes[i].id != nodes[j].id {
                assert forall|i: int, j: int|
                    0 <= i < r2.len() && 0 <= j < r2.len() && i != j implies r2[i].id != r2[j].id by {
                    assert forall|a: int, b: int| 0 <= a < init.len() && 0 <= b < init.len() && a != b implies init[a].id != init[b].id by {
                        assert(init[a] == nodes[a] && init[b] == nodes[b]);
                    }
                    if i < r.len() && j == r.len() {
                        assert(r.contains(r[i]));
                        assert(init.contains(r[i]));
                        let k = choose|k: int| 0 <= k < init.len() && init[k] == r[i];
                        assert(nodes[k] == init[k]);
                    }
                    if j < r.len() && i == r.len() {
                        assert(r.contains(r[j]));
                        assert(init.contains(r[j]));
                        let k = choose|k: int| 0 <= k < init.len() && init[k] == r[j];
                        assert(nodes[k] == init[k]);
                    }
                    if i < r.len() && j < r.len() {
                        assert(r2[i] == r[i] && r2[j] == r[j]);
                    }
                }
            }
        } else {
            if forall|i: int, j: int| 0 <= i < nodes.len() && 0 <= j < nodes.len() && i != j ==> nodes[i].id != nodes[j].id {
                assert forall|a: int, b: int| 0 <= a < init.len() && 0 <= b < init.len() && a != b implies init[a].id != init[b].id by {
                    assert(init[a] == nodes[a] && init[b] == nodes[b]);
                }
            }
        }
    }
}

/// What is left after dropping links: a sub-list whose links all come from
/// the given list and none of which is dropped; duplicates stay absent.
pub proof fn lemma_edges_without_props(edges: Seq<Edge>, p: u128, c: u128, pair: bool)
    ensures
        forall|e: Edge| #[trigger] edges_without(edges, p, c, pair).contains(e) <==> (edges.contains(e) && !(if pair {
            e.parent_id == p && e.child_id == c
        } else {
            e.parent_id == p || e.child_id == p
        })),
        (forall|k: int, l: int| 0 <= k < edges.len() && 0 <= l < edges.len() && k != l ==> edges[k] != edges[l])
            ==> (forall|k: int, l: int|
            0 <= k < edges_without(edges, p, c, pair).len() && 0 <= l < edges_without(edges, p, c, pair).len() && k != l
                ==> edges_without(edges, p, c, pair)[k] != edges_without(edges, p, c, pair)[l]),
    decreases edges.len(),
{
    if edges.len() > 0 {
        let init = edges.drop_last();
        lemma_edges_without_props(init, p, c, pair);
        let r = edges_without(init, p, c, pair);
        assert forall|x: Edge| edges.contains(x) <==> (init.contains(x) || x == edges.last()) by {
            if edges.contains(x) {
                let k = choose|k: int| 0 <= k < edges.len() && edges[k] == x;
                if k < edges.len() - 1 {
                    assert(init[k] == x);
                }
            }
            if init.contains(x) {
                let k = choose|k: int| 0 <= k < init.len() && init[k] == x;
                assert(edges[k] == x);
            }
        }
        let e = edges.last();
        let drop = if pair {
            e.parent_id == p && e.child_id == c
        } else {
            e.parent_id == p || e.child_id == p
        };
        if !drop {
            let r2 = r.push(e);
            assert forall|x: Edge| r2.contains(x) <==> (r.contains(x) || x == e) by {
                if r2.contains(x) {
                    let k = choose|k: int| 0 <= k < r2.len() && r2[k] == x;
                    if k < r.len() {
                        assert(r[k] == x);
                    }
                }
                if r.contains(x) {
                    let k = choose|k: int| 0 <= k < r.len() && r[k] == x;
                    assert(r2[k] == x);
                }
                if x == e {
                    assert(r2[r.len() as int] == x);
                }
            }
            if forall|k: int, l: int| 0 <= k < edges.len() && 0 <= l < edges.len() && k != l ==> edges[k] != edges[l] {
                assert forall|a: int, b: int| 0 <= a < init.len() && 0 <= b < init.len() && a != b implies init[a] != init[b] by {
                    assert(init[a] == edges[a] && init[b] == edges[b]);
                }
                assert(!init.contains(e)) by {
                    if init.contains(e) {
                        let k = choose|k: int| 0 <= k < init.len() && init[k] == e;
                        assert(edges[k] == edges[edges.len() - 1]);
                    }
                }
                assert forall|k: int, l: int| 0 <= k < r2.len() && 0 <= l < r2.len() && k != l implies r2[k] != r2[l] by {
                    if k < r.len() && l == r.len() {
                        assert(r.contains(r[k]));
                    }
                    if l < r.len() && k == r.len() {
                        assert(r.contains(r[l]));
                    }
                    if k < r.len() && l < r.len() {
                        assert(r2[k] == r[k] && r2[l] == r[l]);
                    }
                }
            }
        } else {
            if forall|k: int, l: int| 0 <= k < edges.len() && 0 <= l < edges.len() && k != l ==> edges[k] != edges[l] {
                assert forall|a: int, b: int| 0 <= a < init.len() && 0 <= b < init.len() && a != b implies init[a] != init[b] by {
                    assert(init[a] == edges[a] && init[b] == edges[b]);
                }
            }
        }
    }
}

} // verus!
