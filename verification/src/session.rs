//! The editing session around a focus graph: selection, open tabs,
//! frozen positions, level-based folding and the unsaved-changes flag.
use vstd::prelude::*;
use crate::levels::{bounded_by, computed_levels, layered};
use crate::models::{
    edges_without, form_node, has_node, node_index, nodes_without, with_collapsed, with_form_fields, with_frozen_position, Edge,
    FocusGraph, FocusNode, NodeStatus,
};
use crate::sidebar::is_valid_title;
use crate::text::trim;
use crate::reach::{is_edge, reaches};
use crate::sidebar::TabType;
use std::collections::{HashMap, HashSet};

verus! {

broadcast use vstd::std_specs::hash::group_hash_axioms;

/// Seconds of unsaved changes after which the tree is saved.
pub const AUTOSAVE_INTERVAL_SECS: u64 = 60;

/// Whether `id` occurs at position `i` for the first time.
pub open spec fn first_at(nodes: Seq<FocusNode>, i: int) -> bool {
    forall|j: int| 0 <= j < i ==> nodes[j].id != nodes[i].id
}

/// How many distinct tasks among the first `n` nodes have each level.
pub open spec fn level_counts_upto(levels: Map<u128, usize>, nodes: Seq<FocusNode>, n: nat) -> Map<usize, usize>
    decreases n,
{
    if n == 0 || n > nodes.len() {
        Map::empty()
    } else {
        let prev = level_counts_upto(levels, nodes, (n - 1) as nat);
        let id = nodes[n - 1].id;
        if first_at(nodes, n - 1) && levels.contains_key(id) {
            let l = levels[id];
            prev.insert(l, if prev.contains_key(l) { (prev[l] + 1) as usize } else { 1usize })
        } else {
            prev
        }
    }
}

/// How many tasks of the graph have each level (`computed_levels`, the
/// level assignment on a well-formed graph).
pub open spec fn level_counts_spec(g: FocusGraph) -> Map<usize, usize> {
    level_counts_upto(computed_levels(g), g.nodes@, g.nodes@.len())
}

/// One more than the deepest level, or 1 for an empty graph.
pub open spec fn initial_max_level_spec(g: FocusGraph) -> int {
    max_level_upto(computed_levels(g), g.nodes@, g.nodes@.len()) + 1
}

/// The deepest level among the first `n` nodes (0 for none).
pub open spec fn max_level_upto(levels: Map<u128, usize>, nodes: Seq<FocusNode>, n: nat) -> int
    decreases n,
{
    if n == 0 || n > nodes.len() {
        0
    } else {
        let prev = max_level_upto(levels, nodes, (n - 1) as nat);
        let l = levels[nodes[n - 1].id] as int;
        if l > prev {
            l
        } else {
            prev
        }
    }
}

/// How many tasks of the graph have each level.
pub fn calculate_level_counts(graph: &FocusGraph) -> (res: HashMap<usize, usize>)
    requires
        graph.nodes@.len() * graph.nodes@.len() <= usize::MAX || layered(*graph),
    ensures
        res@ == level_counts_spec(*graph),
{
    let levels = graph.get_node_levels();
    let mut counts: HashMap<usize, usize> = HashMap::new();
    let mut seen: HashSet<u128> = HashSet::new();
    let mut i: usize = 0;
    assert(counts@ =~= level_counts_upto(levels@, graph.nodes@, 0));
    while i < graph.nodes.len()
        invariant
            i <= graph.nodes@.len(),
            levels@ == computed_levels(*graph),
            forall|k: u128| levels@.contains_key(k) <==> has_node(graph.nodes@, k),
            counts@ == level_counts_upto(levels@, graph.nodes@, i as nat),
            forall|l: usize| counts@.contains_key(l) ==> counts@[l] <= i,
            forall|k: u128| seen@.contains(k) <==> exists|j: int| 0 <= j < i && graph.nodes@[j].id == k,
        decreases graph.nodes@.len() - i,
    {
        let id = graph.nodes[i].id;
        let ghost first = first_at(graph.nodes@, i as int);
        if !seen.contains(&id) {
            assert(first) by {
                assert forall|j: int| 0 <= j < i implies graph.nodes@[j].id != graph.nodes@[i as int].id by {
                    if graph.nodes@[j].id == id {
                        assert(seen@.contains(id));
                    }
                }
            }
            seen.insert(id);
            match levels.get(&id) {
                Some(lvl) => {
                    let l = *lvl;
                    let c = match counts.get(&l) {
                        Some(c) => *c + 1,
                        None => 1,
                    };
                    counts.insert(l, c);
                },
                None => {
                    assert(!levels@.contains_key(id));
                },
            }
        } else {
            assert(!first) by {
                let j = choose|j: int| 0 <= j < i && graph.nodes@[j].id == id;
                assert(graph.nodes@[j].id == graph.nodes@[i as int].id);
            }
        }
        proof {
            assert forall|k: u128| seen@.contains(k) <==> exists|j: int| 0 <= j < i + 1 && graph.nodes@[j].id == k by {
                if k == id {
                    assert(graph.nodes@[i as int].id == k);
                }
                if exists|j: int| 0 <= j < i + 1 && graph.nodes@[j].id == k {
                    let j = choose|j: int| 0 <= j < i + 1 && graph.nodes@[j].id == k;
                    if j < i {
                        assert(exists|j2: int| 0 <= j2 < i && graph.nodes@[j2].id == k);
                    }
                }
            }
        }
        i = i + 1;
    }
    counts
}

/// One more than the deepest level of the graph, or 1 when it is empty.
pub fn determine_initial_max_level(graph: &FocusGraph) -> (res: usize)
    requires
        graph.nodes@.len() * graph.nodes@.len() < usize::MAX || layered(*graph),
    ensures
        res == initial_max_level_spec(*graph),
{
    let levels = graph.get_node_levels();
    let node_count = graph.nodes.len();
    let ghost cap = if graph.nodes@.len() * graph.nodes@.len() < usize::MAX {
        (graph.nodes@.len() * graph.nodes@.len()) as int
    } else {
        graph.nodes@.len() - 1
    };
    proof {
        let n = graph.nodes@.len();
        assert(n == 0 ==> n * n == 0) by (nonlinear_arith);
        assert(n * n >= 0) by (nonlinear_arith);
        assert(n == node_count);
    }
    let mut max: usize = 0;
    let mut i: usize = 0;
    while i < graph.nodes.len()
        invariant
            i <= graph.nodes@.len(),
            cap >= 0,
            cap < usize::MAX,
            bounded_by(levels@, cap),
            levels@ == computed_levels(*graph),
            forall|k: u128| levels@.contains_key(k) <==> has_node(graph.nodes@, k),
            max == max_level_upto(levels@, graph.nodes@, i as nat),
            max <= cap,
        decreases graph.nodes@.len() - i,
    {
        let id = graph.nodes[i].id;
        assert(has_node(graph.nodes@, id));
        let l = match levels.get(&id) {
            Some(l) => *l,
            None => 0,
        };
        if l > max {
            max = l;
        }
        i = i + 1;
    }
    max + 1
}

/// How many levels the graph has: one more than the deepest level, or
/// none for an empty graph.
pub open spec fn total_levels_spec(g: FocusGraph) -> int {
    if g.nodes@.len() == 0 {
        0
    } else {
        initial_max_level_spec(g)
    }
}

/// How many levels the graph has (see `total_levels_spec`).
pub fn count_levels(graph: &FocusGraph) -> (res: usize)
    requires
        graph.nodes@.len() * graph.nodes@.len() < usize::MAX || layered(*graph),
    ensures
        res == total_levels_spec(*graph),
{
    if graph.nodes.len() == 0 {
        0
    } else {
        determine_initial_max_level(graph)
    }
}

/// The editing state of the application apart from its widgets.
#[derive(Debug)]
pub struct Session {
    pub graph: FocusGraph,
    pub selected: Option<u128>,
    pub frozen: HashSet<u128>,
    pub open_tabs: Vec<TabType>,
    pub is_shift_pressed: bool,
    pub is_ctrl_pressed: bool,
    pub is_editing_enabled: bool,
    pub max_visible_level: usize,
    pub is_dirty: bool,
}

/// The ids of the frozen tasks.
pub open spec fn frozen_ids(nodes: Seq<FocusNode>) -> Set<u128> {
    Set::new(|k: u128| exists|i: int| 0 <= i < nodes.len() && nodes[i].id == k && nodes[i].is_frozen)
}

/// `tabs` with the first `tab` removed, or `tab` appended when absent.
pub open spec fn toggled_tabs(tabs: Seq<TabType>, tab: TabType) -> Seq<TabType> {
    if tabs.contains(tab) {
        let i = choose|i: int| 0 <= i < tabs.len() && tabs[i] == tab && forall|j: int| 0 <= j < i ==> tabs[j] != tab;
        tabs.remove(i)
    } else {
        tabs.push(tab)
    }
}

/// Whether the form may change the selected task: editing is switched on,
/// or no task is selected.
pub open spec fn editing_allowed(s: Session) -> bool {
    s.is_editing_enabled || s.selected is None
}

/// The values of the node form: its texts, image and progress.
#[derive(Debug)]
pub struct FormValues {
    pub title: String,
    pub description: String,
    pub progress_notes: String,
    pub image_id: Option<u128>,
    pub status: NodeStatus,
}

/// `nodes` with the form copied into the selected task, if there is one.
pub open spec fn synced(nodes: Seq<FocusNode>, selected: Option<u128>, f: FormValues) -> Seq<FocusNode> {
    match selected {
        Some(id) => match node_index(nodes, id) {
            Some(i) => nodes.update(
                i,
                with_form_fields(nodes[i], f.title, f.description, f.progress_notes, f.image_id, f.status),
            ),
            None => nodes,
        },
        None => nodes,
    }
}

/// Whether a task is selected and present.
pub open spec fn selection_present(nodes: Seq<FocusNode>, selected: Option<u128>) -> bool {
    match selected {
        Some(id) => node_index(nodes, id) is Some,
        None => false,
    }
}

/// `nodes` with the task `id` folded or unfolded.
pub open spec fn collapse_toggled(nodes: Seq<FocusNode>, id: u128) -> Seq<FocusNode> {
    match node_index(nodes, id) {
        Some(i) => nodes.update(i, with_collapsed(nodes[i], !nodes[i].is_collapsed)),
        None => nodes,
    }
}

/// The links after asking for a link from `p` to `c` (see `add_edge`).
pub open spec fn linked(nodes: Seq<FocusNode>, edges: Seq<Edge>, p: u128, c: u128) -> Seq<Edge> {
    if has_node(nodes, p) && has_node(nodes, c) && p != c && !is_edge(edges, p, c) && !reaches(edges, c, p) {
        edges.push(Edge { parent_id: p, child_id: c })
    } else {
        edges
    }
}

/// The open tabs with the General tab added when missing.
pub open spec fn with_general_tab(tabs: Seq<TabType>) -> Seq<TabType> {
    if tabs.contains(TabType::General) {
        tabs
    } else {
        tabs.push(TabType::General)
    }
}

impl Session {
    /// A session over a loaded graph: its frozen tasks, nothing selected,
    /// editing on, levels shown up to `max_visible_level`.
    pub fn new(graph: FocusGraph, max_visible_level: usize) -> (res: Self)
        ensures
            res.graph == graph,
            res.frozen@ == frozen_ids(graph.nodes@),
            res.selected is None,
            res.open_tabs@.len() == 0,
            !res.is_shift_pressed,
            !res.is_ctrl_pressed,
            res.is_editing_enabled,
            res.max_visible_level == max_visible_level,
            !res.is_dirty,
    {
        let mut frozen: HashSet<u128> = HashSet::new();
        let mut i: usize = 0;
        while i < graph.nodes.len()
            invariant
                i <= graph.nodes@.len(),
                forall|k: u128| frozen@.contains(k) <==> exists|j: int| 0 <= j < i && graph.nodes@[j].id == k && graph.nodes@[j].is_frozen,
            decreases graph.nodes@.len() - i,
        {
            if graph.nodes[i].is_frozen {
                frozen.insert(graph.nodes[i].id);
            }
            proof {
                assert forall|k: u128| frozen@.contains(k) <==> exists|j: int| 0 <= j < i + 1 && graph.nodes@[j].id == k && graph.nodes@[j].is_frozen by {
                    if exists|j: int| 0 <= j < i + 1 && graph.nodes@[j].id == k && graph.nodes@[j].is_frozen {
                        let j = choose|j: int| 0 <= j < i + 1 && graph.nodes@[j].id == k && graph.nodes@[j].is_frozen;
                        if j < i {
                            assert(exists|j2: int| 0 <= j2 < i && graph.nodes@[j2].id == k && graph.nodes@[j2].is_frozen);
                        }
                    }
                    if frozen@.contains(k) && graph.nodes@[i as int].is_frozen && graph.nodes@[i as int].id == k {
                        assert(graph.nodes@[i as int].id == k);
                    }
                }
            }
            i = i + 1;
        }
        assert(frozen@ =~= frozen_ids(graph.nodes@));
        Session {
            graph,
            selected: None,
            frozen,
            open_tabs: Vec::new(),
            is_shift_pressed: false,
            is_ctrl_pressed: false,
            is_editing_enabled: true,
            max_visible_level,
            is_dirty: false,
        }
    }

    /// Shows a closed tab, or closes an open one.
    pub fn toggle_tab_visibility(&mut self, tab: TabType)
        ensures
            final(self).open_tabs@ == toggled_tabs(old(self).open_tabs@, tab),
            final(self).graph == old(self).graph,
            final(self).selected == old(self).selected,
    {
        let mut i: usize = 0;
        while i < self.open_tabs.len()
            invariant
                i <= self.open_tabs@.len(),
                self.open_tabs@ == old(self).open_tabs@,
                self.graph == old(self).graph,
                self.selected == old(self).selected,
                forall|j: int| 0 <= j < i ==> self.open_tabs@[j] != tab,
            decreases self.open_tabs@.len() - i,
        {
            if self.open_tabs[i] == tab {
                proof {
                    let tabs = old(self).open_tabs@;
                    assert(tabs.contains(tab));
                    let c = choose|c: int| 0 <= c < tabs.len() && tabs[c] == tab && forall|j: int| 0 <= j < c ==> tabs[j] != tab;
                    assert(c == i) by {
                        if c < i {
                        } else if c > i {
                        }
                    }
                }
                self.open_tabs.remove(i);
                return;
            }
            i = i + 1;
        }
        self.open_tabs.push(tab);
    }

    /// Selects a task: editing is locked and the General tab opened.
    pub fn select_node(&mut self, id: u128)
        ensures
            final(self).selected == Some(id),
            !final(self).is_editing_enabled,
            final(self).open_tabs@ == (if old(self).open_tabs@.contains(TabType::General) {
                old(self).open_tabs@
            } else {
                old(self).open_tabs@.push(TabType::General)
            }),
            final(self).graph == old(self).graph,
            final(self).is_dirty == old(self).is_dirty,
    {
        self.selected = Some(id);
        self.is_editing_enabled = false;
        let mut i: usize = 0;
        let mut found = false;
        while i < self.open_tabs.len()
            invariant
                i <= self.open_tabs@.len(),
                self.open_tabs@ == old(self).open_tabs@,
                found == exists|j: int| 0 <= j < i && self.open_tabs@[j] == TabType::General,
            decreases self.open_tabs@.len() - i,
        {
            if self.open_tabs[i] == TabType::General {
                found = true;
            }
            i = i + 1;
        }
        if !found {
            self.open_tabs.push(TabType::General);
        }
    }

    /// Clears the selection.
    pub fn deselect_all(&mut self)
        ensures
            final(self).selected is None,
            final(self).graph == old(self).graph,
    {
        self.selected = None;
    }

    /// Removes a task and its links, unfreezes it, drops it from the
    /// selection, and marks the session changed.
    pub fn delete_node_by_id(&mut self, id: u128)
        ensures
            final(self).graph.nodes@ == nodes_without(old(self).graph.nodes@, id),
            final(self).graph.edges@ == edges_without(old(self).graph.edges@, id, 0, false),
            old(self).graph.wf() ==> final(self).graph.wf(),
            final(self).frozen@ == old(self).frozen@.remove(id),
            final(self).selected == (if old(self).selected == Some(id) { None } else { old(self).selected }),
            final(self).is_dirty,
    {
        self.graph.remove_node(id);
        self.frozen.remove(&id);
        if self.selected == Some(id) {
            self.selected = None;
        }
        self.is_dirty = true;
    }

    /// Removes the selected task, if any.
    pub fn delete_selected_node(&mut self)
        ensures
            match old(self).selected {
                Some(id) => final(self).graph.nodes@ == nodes_without(old(self).graph.nodes@, id)
                    && final(self).graph.edges@ == edges_without(old(self).graph.edges@, id, 0, false)
                    && final(self).frozen@ == old(self).frozen@.remove(id) && final(self).is_dirty,
                None => final(self).graph == old(self).graph && final(self).frozen@ == old(self).frozen@
                    && final(self).is_dirty == old(self).is_dirty,
            },
            final(self).selected is None,
            old(self).graph.wf() ==> final(self).graph.wf(),
    {
        if let Some(id) = self.selected.take() {
            self.graph.remove_node(id);
            self.frozen.remove(&id);
            self.is_dirty = true;
        }
    }

    /// Links the selected task to `target` as its prerequisite, when a
    /// different task is selected.
    pub fn connect_selected_to_target(&mut self, target: u128)
        ensures
            final(self).graph.nodes@ == old(self).graph.nodes@,
            match old(self).selected {
                Some(p) => if p != target {
                    final(self).is_dirty && ({
                        let ok = has_node(old(self).graph.nodes@, p) && has_node(old(self).graph.nodes@, target)
                            && !is_edge(old(self).graph.edges@, p, target) && !reaches(old(self).graph.edges@, target, p);
                        &&& ok ==> final(self).graph.edges@ == old(self).graph.edges@.push(crate::models::Edge { parent_id: p, child_id: target })
                        &&& !ok ==> final(self).graph.edges@ == old(self).graph.edges@
                    })
                } else {
                    final(self).graph == old(self).graph && final(self).is_dirty == old(self).is_dirty
                },
                None => final(self).graph == old(self).graph && final(self).is_dirty == old(self).is_dirty,
            },
            final(self).selected == old(self).selected,
            final(self).open_tabs@ == old(self).open_tabs@,
            final(self).is_editing_enabled == old(self).is_editing_enabled,
            old(self).graph.wf() ==> final(self).graph.wf(),
    {
        if let Some(parent_id) = self.selected {
            if parent_id != target {
                self.graph.add_edge(parent_id, target);
                self.is_dirty = true;
            }
        }
    }

    /// Folds or unfolds a task's subtree.
    pub fn toggle_node_collapse(&mut self, id: u128)
        ensures
            match node_index(old(self).graph.nodes@, id) {
                Some(i) => final(self).graph.nodes@ == old(self).graph.nodes@.update(
                    i,
                    with_collapsed(old(self).graph.nodes@[i], !old(self).graph.nodes@[i].is_collapsed),
                ) && final(self).is_dirty,
                None => final(self).graph.nodes@ == old(self).graph.nodes@ && final(self).is_dirty == old(self).is_dirty,
            },
            final(self).graph.edges@ == old(self).graph.edges@,
            final(self).selected == old(self).selected,
            old(self).graph.wf() ==> final(self).graph.wf(),
    {
        match self.graph.node_position(id) {
            Some(i) => {
                proof {
                    crate::models::lemma_node_index_props(self.graph.nodes@, id);
                    assert(node_index(old(self).graph.nodes@, id) == Some(i as int));
                }
                let ghost old_node = self.graph.nodes@[i as int];
                let mut node = self.graph.nodes[i].clone();
                node.is_collapsed = !node.is_collapsed;
                assert(node == with_collapsed(old_node, !old_node.is_collapsed));
                assert(old_node == old(self).graph.nodes@[i as int]);
                replace_node_at(&mut self.graph, i, node);
                assert(self.graph.nodes@ == old(self).graph.nodes@.update(i as int, with_collapsed(old_node, !old_node.is_collapsed)));
                self.is_dirty = true;
            },
            None => {},
        }
    }

    /// Places a task where it was dragged and freezes it there.
    pub fn move_node(&mut self, id: u128, x_bits: u32, y_bits: u32)
        ensures
            match node_index(old(self).graph.nodes@, id) {
                Some(i) => final(self).graph.nodes@ == old(self).graph.nodes@.update(
                    i,
                    with_frozen_position(old(self).graph.nodes@[i], x_bits, y_bits),
                ) && final(self).frozen@ == old(self).frozen@.insert(id) && final(self).is_dirty,
                None => final(self).graph.nodes@ == old(self).graph.nodes@ && final(self).frozen@ == old(self).frozen@
                    && final(self).is_dirty == old(self).is_dirty,
            },
            final(self).graph.edges@ == old(self).graph.edges@,
            old(self).graph.wf() ==> final(self).graph.wf(),
    {
        match self.graph.node_position(id) {
            Some(i) => {
                proof {
                    crate::models::lemma_node_index_props(self.graph.nodes@, id);
                    assert(node_index(old(self).graph.nodes@, id) == Some(i as int));
                }
                let ghost old_node = self.graph.nodes@[i as int];
                let mut node = self.graph.nodes[i].clone();
                node.x_bits = x_bits;
                node.y_bits = y_bits;
                node.is_frozen = true;
                assert(node == with_frozen_position(old_node, x_bits, y_bits));
                assert(old_node == old(self).graph.nodes@[i as int]);
                replace_node_at(&mut self.graph, i, node);
                assert(self.graph.nodes@ == old(self).graph.nodes@.update(i as int, with_frozen_position(old_node, x_bits, y_bits)));
                self.frozen.insert(id);
                self.is_dirty = true;
            },
            None => {},
        }
    }

    /// Folds every task whose level is at least one less than the new
    /// limit, unfolds the others, and remembers the limit.
    pub fn update_max_visible_level(&mut self, new_max_lvl: usize)
        requires
            old(self).graph.nodes@.len() * old(self).graph.nodes@.len() <= usize::MAX || layered(old(self).graph),
        ensures
            final(self).max_visible_level == new_max_lvl,
            old(self).graph.wf() ==> final(self).graph.wf(),
            final(self).graph.edges@ == old(self).graph.edges@,
            final(self).graph.nodes@.len() == old(self).graph.nodes@.len(),
            forall|i: int| 0 <= i < final(self).graph.nodes@.len() ==> #[trigger] final(self).graph.nodes@[i] == (FocusNode {
                is_collapsed: computed_levels(old(self).graph)[old(self).graph.nodes@[i].id] + 1 >= new_max_lvl,
                ..old(self).graph.nodes@[i]
            }),
            final(self).is_dirty,
    {
        self.max_visible_level = new_max_lvl;
        let levels = self.graph.get_node_levels();
        let ghost g0 = self.graph;
        let mut i: usize = 0;
        while i < self.graph.nodes.len()
            invariant
                i <= self.graph.nodes@.len(),
                self.max_visible_level == new_max_lvl,
                g0.wf() ==> self.graph.wf(),
                self.graph.edges@ == g0.edges@,
                self.graph.nodes@.len() == g0.nodes@.len(),
                levels@ == computed_levels(g0),
                forall|k: u128| levels@.contains_key(k) <==> has_node(g0.nodes@, k),
                forall|j: int| i <= j < self.graph.nodes@.len() ==> #[trigger] self.graph.nodes@[j] == g0.nodes@[j],
                forall|j: int| 0 <= j < i ==> #[trigger] self.graph.nodes@[j] == (FocusNode {
                    is_collapsed: levels@[g0.nodes@[j].id] + 1 >= new_max_lvl,
                    ..g0.nodes@[j]
                }),
            decreases self.graph.nodes@.len() - i,
        {
            let id = self.graph.nodes[i].id;
            assert(has_node(g0.nodes@, id)) by {
                assert(g0.nodes@[i as int].id == id);
            }
            match levels.get(&id) {
                Some(lvl) => {
                    let l = *lvl;
                    let collapse = new_max_lvl == 0 || l >= new_max_lvl - 1;
                    let mut node = self.graph.nodes[i].clone();
                    node.is_collapsed = collapse;
                    replace_node_at(&mut self.graph, i, node);
                },
                None => {},
            }
            i = i + 1;
        }
        self.is_dirty = true;
    }

    /// Records the Shift and Control keys: a press sets them (Control also
    /// when the Control modifier is held), a release clears them (Control
    /// also when the modifier is no longer held).
    pub fn handle_modifier(&mut self, pressed: bool, is_shift: bool, is_control: bool, control_modifier: bool)
        ensures
            final(self).is_shift_pressed == (if is_shift { pressed } else { old(self).is_shift_pressed }),
            final(self).is_ctrl_pressed == (if pressed {
                if is_control || control_modifier { true } else { old(self).is_ctrl_pressed }
            } else {
                if is_control || !control_modifier { false } else { old(self).is_ctrl_pressed }
            }),
            final(self).graph == old(self).graph,
    {
        if is_shift {
            self.is_shift_pressed = pressed;
        }
        if pressed {
            if is_control || control_modifier {
                self.is_ctrl_pressed = true;
            }
        } else {
            if is_control || !control_modifier {
                self.is_ctrl_pressed = false;
            }
        }
    }

    /// Whether the node form may change the selected task (see
    /// `editing_allowed`).
    pub fn can_edit_form(&self) -> (res: bool)
        ensures
            res == editing_allowed(*self),
    {
        self.is_editing_enabled || self.selected.is_none()
    }

    /// Switches the editing lock.
    pub fn toggle_editing(&mut self)
        ensures
            final(self).is_editing_enabled == !old(self).is_editing_enabled,
            final(self).graph == old(self).graph,
            final(self).selected == old(self).selected,
            final(self).is_dirty == old(self).is_dirty,
    {
        self.is_editing_enabled = !self.is_editing_enabled;
    }

    /// Copies the node form into the selected task.
    pub fn auto_sync_selected(&mut self, form: &FormValues)
        ensures
            final(self).graph.nodes@ == synced(old(self).graph.nodes@, old(self).selected, *form),
            final(self).graph.edges@ == old(self).graph.edges@,
            final(self).selected == old(self).selected,
            final(self).open_tabs@ == old(self).open_tabs@,
            final(self).is_editing_enabled == old(self).is_editing_enabled,
            final(self).frozen@ == old(self).frozen@,
            final(self).is_dirty == (old(self).is_dirty || selection_present(old(self).graph.nodes@, old(self).selected)),
            old(self).graph.wf() ==> final(self).graph.wf(),
    {
        if let Some(id) = self.selected {
            match self.graph.node_position(id) {
                Some(i) => {
                    proof {
                        crate::models::lemma_node_index_props(self.graph.nodes@, id);
                    }
                    let mut node = self.graph.nodes[i].clone();
                    node.title = form.title.clone();
                    node.description = form.description.clone();
                    node.progress_notes = form.progress_notes.clone();
                    node.image_id = form.image_id;
                    node.status = form.status;
                    replace_node_at(&mut self.graph, i, node);
                    self.is_dirty = true;
                },
                None => {},
            }
        }
    }

    /// A click on a task: with Control it folds or unfolds the task;
    /// otherwise, with Shift, the selected task first becomes its
    /// prerequisite, and then the form is copied into the selected task and
    /// the clicked task is selected.
    pub fn process_node_click(&mut self, id: u128, shift: bool, ctrl: bool, form: &FormValues)
        ensures
            ctrl ==> final(self).graph.nodes@ == collapse_toggled(old(self).graph.nodes@, id)
                && final(self).graph.edges@ == old(self).graph.edges@ && final(self).selected == old(self).selected
                && final(self).is_dirty == (old(self).is_dirty || node_index(old(self).graph.nodes@, id) is Some),
            !ctrl ==> final(self).graph.edges@ == (match old(self).selected {
                Some(p) => if shift && p != id {
                    linked(old(self).graph.nodes@, old(self).graph.edges@, p, id)
                } else {
                    old(self).graph.edges@
                },
                None => old(self).graph.edges@,
            }) && final(self).graph.nodes@ == synced(old(self).graph.nodes@, old(self).selected, *form)
                && final(self).selected == Some(id) && !final(self).is_editing_enabled
                && final(self).open_tabs@ == with_general_tab(old(self).open_tabs@),
            !ctrl ==> final(self).is_dirty == (old(self).is_dirty || (shift && old(self).selected is Some && old(self).selected->0
                != id) || selection_present(old(self).graph.nodes@, old(self).selected)),
            old(self).graph.wf() ==> final(self).graph.wf(),
    {
        if ctrl {
            self.toggle_node_collapse(id);
            return;
        }
        if shift {
            self.connect_selected_to_target(id);
        }
        self.auto_sync_selected(form);
        self.select_node(id);
    }

    /// Adds a task made from the node form at the given place, when its
    /// title is not blank; the emptied form (`cleared`) is then copied into
    /// the task selected before, and the new task is selected.
    pub fn spawn_new_node_at_viewport(&mut self, form: &FormValues, cleared: &FormValues, x_bits: u32, y_bits: u32) -> (res: Option<u128>)
        ensures
            trim(form.title@).len() == 0 ==> res is None && *final(self) == *old(self),
            trim(form.title@).len() > 0 ==> (res matches Some(id) && ({
                let n = form_node(id, form.title, form.description, form.progress_notes, form.image_id, form.status, x_bits, y_bits);
                let added = if has_node(old(self).graph.nodes@, id) {
                    old(self).graph.nodes@
                } else {
                    old(self).graph.nodes@.push(n)
                };
                &&& final(self).graph.nodes@ == synced(added, old(self).selected, *cleared)
                &&& final(self).graph.edges@ == old(self).graph.edges@
                &&& final(self).selected == Some(id)
                &&& !final(self).is_editing_enabled
                &&& final(self).open_tabs@ == with_general_tab(old(self).open_tabs@)
                &&& final(self).is_dirty
            })),
            old(self).graph.wf() ==> final(self).graph.wf(),
    {
        if !is_valid_title(form.title.as_str()) {
            return None;
        }
        let mut node = FocusNode::new(form.title.clone(), form.description.clone());
        node.progress_notes = form.progress_notes.clone();
        node.status = form.status;
        node.image_id = form.image_id;
        node.x_bits = x_bits;
        node.y_bits = y_bits;
        let ghost n = node;
        let new_id = self.graph.add_node(node);
        assert(n == form_node(new_id, form.title, form.description, form.progress_notes, form.image_id, form.status, x_bits, y_bits));
        self.auto_sync_selected(cleared);
        self.select_node(new_id);
        self.is_dirty = true;
        Some(new_id)
    }
}

/// Whether unsaved changes are old enough to be saved.
pub fn should_autosave(is_dirty: bool, elapsed_secs: u64) -> (res: bool)
    ensures
        res == (is_dirty && elapsed_secs >= AUTOSAVE_INTERVAL_SECS),
{
    is_dirty && elapsed_secs >= AUTOSAVE_INTERVAL_SECS
}

/// Puts `node` at position `i`, where a node with the same id was.
fn replace_node_at(graph: &mut FocusGraph, i: usize, node: FocusNode)
    requires
        i < old(graph).nodes@.len(),
        node.id == old(graph).nodes@[i as int].id,
    ensures
        final(graph).nodes@ == old(graph).nodes@.update(i as int, node),
        final(graph).edges@ == old(graph).edges@,
        old(graph).wf() ==> final(graph).wf(),
{
    let ghost g0 = *graph;
    graph.nodes.set(i, node);
    proof {
        let g = *graph;
        assert forall|k: u128| has_node(g.nodes@, k) <==> has_node(g0.nodes@, k) by {
            if has_node(g.nodes@, k) {
                let j = choose|j: int| 0 <= j < g.nodes@.len() && g.nodes@[j].id == k;
                assert(g0.nodes@[j].id == k);
            }
            if has_node(g0.nodes@, k) {
                let j = choose|j: int| 0 <= j < g0.nodes@.len() && g0.nodes@[j].id == k;
                assert(g.nodes@[j].id == k);
            }
        }
        if g0.wf() {
            assert forall|a: int, b: int| 0 <= a < g.nodes@.len() && 0 <= b < g.nodes@.len() && a != b implies g.nodes@[a].id != g.nodes@[b].id by {
                assert(g.nodes@[a].id == g0.nodes@[a].id);
                assert(g.nodes@[b].id == g0.nodes@[b].id);
            }
            assert forall|k: int| 0 <= k < g.edges@.len() implies has_node(g.nodes@, #[trigger] g.edges@[k].parent_id)
                && has_node(g.nodes@, g.edges@[k].child_id) by {
                assert(has_node(g0.nodes@, g0.edges@[k].parent_id));
                assert(has_node(g0.nodes@, g0.edges@[k].child_id));
            }
        }
    }
}

} // verus!
