//! Which tasks are shown on the canvas when some subtrees are collapsed.
//!
//! A task is visible when a chain of prerequisites leads from it to a task
//! without prerequisites, passing only through tasks that are not
//! collapsed, and every task on the chain has at least one prerequisite
//! node that is not collapsed.
use vstd::prelude::*;
use crate::models::{
    count_unreached, has_node, lemma_count_unreached_mono, lemma_node_index_props, node_index,
    parents_spec, Edge, FocusGraph, FocusNode,
};
use crate::reach::is_edge;
use std::collections::HashSet;

verus! {

broadcast use vstd::std_specs::hash::group_hash_axioms;

/// The task has no prerequisites.
pub open spec fn is_root(edges: Seq<Edge>, u: u128) -> bool {
    forall|k: int| 0 <= k < edges.len() ==> #[trigger] edges[k].child_id != u
}

/// The first node with this id exists and is collapsed.
pub open spec fn is_collapsed_node(nodes: Seq<FocusNode>, id: u128) -> bool {
    match node_index(nodes, id) {
        Some(i) => nodes[i].is_collapsed,
        None => false,
    }
}

/// Some prerequisite of `u` is a node that is not collapsed.
pub open spec fn passable(g: FocusGraph, u: u128) -> bool {
    exists|k: int|
        0 <= k < g.edges@.len() && #[trigger] g.edges@[k].child_id == u && has_node(
            g.nodes@,
            g.edges@[k].parent_id,
        ) && !is_collapsed_node(g.nodes@, g.edges@[k].parent_id)
}

/// The search may step from `u` up to its prerequisite `p`.
pub open spec fn allowed(g: FocusGraph, u: u128, p: u128) -> bool {
    is_edge(g.edges@, p, u) && !is_collapsed_node(g.nodes@, p)
}

/// `q` is a chain of prerequisites ending at a task without prerequisites,
/// every step leaving a passable task to a prerequisite that is not collapsed.
pub open spec fn vis_path(g: FocusGraph, q: Seq<u128>) -> bool {
    &&& q.len() >= 1
    &&& is_root(g.edges@, q.last())
    &&& forall|i: int|
        0 <= i < q.len() - 1 ==> passable(g, #[trigger] q[i]) && allowed(g, q[i], q[i + 1])
}

/// The task is shown.
pub open spec fn visible(g: FocusGraph, id: u128) -> bool {
    exists|q: Seq<u128>| #[trigger] vis_path(g, q) && q[0] == id
}

/// Every task added to `a` to make `b` has a prerequisite, and when it is
/// passable all the prerequisites it may step to are in `b`.
pub open spec fn closed_new(g: FocusGraph, a: Set<u128>, b: Set<u128>) -> bool {
    forall|v: u128|
        #[trigger] b.contains(v) && !a.contains(v) ==> !is_root(g.edges@, v) && (passable(g, v)
            ==> forall|p: u128| allowed(g, v, p) ==> b.contains(p))
}

/// The members of `parents_spec` are exactly the prerequisites.
pub proof fn lemma_parents_spec(edges: Seq<Edge>, u: u128)
    ensures
        forall|j: int|
            0 <= j < parents_spec(edges, u).len() ==> is_edge(edges, #[trigger] parents_spec(edges, u)[j], u),
        forall|p: u128| is_edge(edges, p, u) ==> parents_spec(edges, u).contains(p),
        parents_spec(edges, u).len() == 0 <==> is_root(edges, u),
    decreases edges.len(),
{
    if edges.len() > 0 {
        let init = edges.drop_last();
        lemma_parents_spec(init, u);
        let r = parents_spec(init, u);
        assert forall|j: int| 0 <= j < parents_spec(edges, u).len() implies is_edge(edges, #[trigger] parents_spec(edges, u)[j], u) by {
            if j < r.len() {
                assert(parents_spec(edges, u)[j] == r[j]);
                assert(is_edge(init, r[j], u));
                let k = choose|k: int| 0 <= k < init.len() && init[k].parent_id == r[j] && init[k].child_id == u;
                assert(edges[k] == init[k]);
            } else {
                assert(edges[edges.len() - 1].child_id == u);
            }
        }
        assert forall|p: u128| is_edge(edges, p, u) implies parents_spec(edges, u).contains(p) by {
            let k = choose|k: int| 0 <= k < edges.len() && edges[k].parent_id == p && edges[k].child_id == u;
            if k < edges.len() - 1 {
                assert(init[k] == edges[k]);
                assert(is_edge(init, p, u));
                assert(r.contains(p));
                let j = choose|j: int| 0 <= j < r.len() && r[j] == p;
                if edges.last().child_id == u {
                    assert(r.push(edges.last().parent_id)[j] == p);
                }
            } else {
                assert(parents_spec(edges, u) == r.push(p));
                assert(r.push(p)[r.len() as int] == p);
            }
        }
        if is_root(edges, u) {
            assert(is_root(init, u)) by {
                assert forall|k: int| 0 <= k < init.len() implies #[trigger] init[k].child_id != u by {
                    assert(init[k] == edges[k]);
                }
            }
        } else {
            let k = choose|k: int| 0 <= k < edges.len() && #[trigger] edges[k].child_id == u;
            assert(is_edge(edges, edges[k].parent_id, u));
            assert(parents_spec(edges, u).contains(edges[k].parent_id));
        }
    }
}

/// A chain starting in a closed set stays in it, so its end has a prerequisite.
pub proof fn lemma_closed_blocks_path(g: FocusGraph, b: Set<u128>, q: Seq<u128>, n: int)
    requires
        closed_new(g, Set::empty(), b),
        vis_path(g, q),
        b.contains(q[0]),
        0 <= n < q.len(),
    ensures
        b.contains(q[n]),
    decreases n,
{
    if n > 0 {
        lemma_closed_blocks_path(g, b, q, n - 1);
        assert(passable(g, q[n - 1]) && allowed(g, q[n - 1], q[(n - 1) + 1]));
        assert(!Set::<u128>::empty().contains(q[n - 1]));
    }
}


/// A task without prerequisites is always shown.
pub proof fn lemma_roots_visible(g: FocusGraph, id: u128)
    requires
        is_root(g.edges@, id),
    ensures
        visible(g, id),
{
    let q = seq![id];
    assert(vis_path(g, q));
}

/// Collapsing hides: a task that has prerequisites, none of them a node
/// that is shown open (every prerequisite node is collapsed), is hidden.
pub proof fn lemma_collapsed_parents_hide(g: FocusGraph, id: u128)
    requires
        !is_root(g.edges@, id),
        forall|k: int| 0 <= k < g.edges@.len() && #[trigger] g.edges@[k].child_id == id
            ==> !has_node(g.nodes@, g.edges@[k].parent_id) || is_collapsed_node(g.nodes@, g.edges@[k].parent_id),
    ensures
        !visible(g, id),
{
    if visible(g, id) {
        let q = choose|q: Seq<u128>| #[trigger] vis_path(g, q) && q[0] == id;
        if q.len() == 1 {
            assert(is_root(g.edges@, q.last()));
        } else {
            assert(passable(g, q[0]));
        }
    }
}

/// The visibility rule, one step at a time: a task is shown exactly when
/// it has no prerequisites, or it has a prerequisite node that is not
/// collapsed and some prerequisite that is not collapsed is itself shown.
pub proof fn lemma_visible_step(g: FocusGraph, u: u128)
    ensures
        visible(g, u) <==> (is_root(g.edges@, u) || (passable(g, u) && exists|p: u128| #[trigger] allowed(g, u, p)
            && visible(g, p))),
        is_root(g.edges@, u) <==> parents_spec(g.edges@, u).len() == 0,
{
    lemma_parents_spec(g.edges@, u);
    if visible(g, u) {
        let q = choose|q: Seq<u128>| #[trigger] vis_path(g, q) && q[0] == u;
        if q.len() > 1 {
            assert(passable(g, q[0]) && allowed(g, q[0], q[1]));
            let r = q.drop_first();
            assert forall|i: int| 0 <= i < r.len() - 1 implies passable(g, #[trigger] r[i]) && allowed(g, r[i], r[i + 1]) by {
                assert(r[i] == q[i + 1] && r[i + 1] == q[i + 2]);
                assert(passable(g, q[i + 1]) && allowed(g, q[i + 1], q[(i + 1) + 1]));
            }
            assert(r.last() == q.last());
            assert(vis_path(g, r));
            assert(allowed(g, u, q[1]) && visible(g, q[1]));
        } else {
            assert(q.last() == q[0]);
        }
    }
    if is_root(g.edges@, u) {
        let q = seq![u];
        assert(vis_path(g, q));
    } else if passable(g, u) && exists|p: u128| #[trigger] allowed(g, u, p) && visible(g, p) {
        let p = choose|p: u128| #[trigger] allowed(g, u, p) && visible(g, p);
        let r = choose|r: Seq<u128>| #[trigger] vis_path(g, r) && r[0] == p;
        let q = seq![u] + r;
        assert forall|i: int| 0 <= i < q.len() - 1 implies passable(g, #[trigger] q[i]) && allowed(g, q[i], q[i + 1]) by {
            if i == 0 {
                assert(q[0] == u && q[1] == r[0]);
            } else {
                assert(q[i] == r[i - 1] && q[i + 1] == r[i]);
                assert(passable(g, r[i - 1]) && allowed(g, r[i - 1], r[(i - 1) + 1]));
            }
        }
        assert(q.last() == r.last());
        assert(vis_path(g, q));
        assert(q[0] == u);
    }
}

impl FocusGraph {
    /// Whether the task is shown: see `visible`.
    pub fn is_node_visible(&self, id: u128) -> (res: bool)
        ensures
            res == visible(*self, id),
    {
        let mut visited: HashSet<u128> = HashSet::new();
        let res = self.check_visibility_dfs(id, &mut visited);
        proof {
            if !res && visible(*self, id) {
                let q = choose|q: Seq<u128>| vis_path(*self, q) && q[0] == id;
                lemma_closed_blocks_path(*self, visited@, q, q.len() - 1);
                assert(!Set::<u128>::empty().contains(q.last()));
            }
        }
        res
    }

    fn check_visibility_dfs(&self, id: u128, visited: &mut HashSet<u128>) -> (res: bool)
        ensures
            old(visited)@.subset_of(final(visited)@),
            final(visited)@.contains(id),
            res ==> visible(*self, id),
            !res ==> closed_new(*self, old(visited)@, final(visited)@),
        decreases count_unreached(self.edges@, old(visited)@),
    {
        let ghost entry = visited@;
        if !visited.insert(id) {
            return false;
        }
        let parent_ids = self.parents_of(id);
        proof {
            lemma_parents_spec(self.edges@, id);
        }
        if parent_ids.len() == 0 {
            proof {
                let q = seq![id];
                assert(vis_path(*self, q));
            }
            return true;
        }
        if self.are_all_parents_collapsed(&parent_ids) {
            proof {
                if passable(*self, id) {
                    let k = choose|k: int|
                        0 <= k < self.edges@.len() && #[trigger] self.edges@[k].child_id == id
                            && has_node(self.nodes@, self.edges@[k].parent_id) && !is_collapsed_node(
                            self.nodes@,
                            self.edges@[k].parent_id,
                        );
                    assert(is_edge(self.edges@, self.edges@[k].parent_id, id));
                    assert(parent_ids@.contains(self.edges@[k].parent_id));
                }
            }
            return false;
        }
        proof {
            let j = choose|j: int|
                0 <= j < parent_ids@.len() && has_node(self.nodes@, #[trigger] parent_ids@[j])
                    && !is_collapsed_node(self.nodes@, parent_ids@[j]);
            assert(is_edge(self.edges@, parent_ids@[j], id));
            let k = choose|k: int|
                0 <= k < self.edges@.len() && self.edges@[k].parent_id == parent_ids@[j]
                    && self.edges@[k].child_id == id;
            assert(passable(*self, id));
            lemma_count_unreached_mono(self.edges@, entry, visited@);
        }
        let mut i: usize = 0;
        while i < parent_ids.len()
            invariant
                parent_ids@ == parents_spec(self.edges@, id),
                parent_ids@.len() > 0,
                passable(*self, id),
                i <= parent_ids@.len(),
                entry.subset_of(visited@),
                visited@.contains(id),
                !entry.contains(id),
                forall|j: int|
                    0 <= j < parent_ids@.len() ==> is_edge(self.edges@, #[trigger] parent_ids@[j], id),
                forall|p: u128| is_edge(self.edges@, p, id) ==> parent_ids@.contains(p),
                forall|v: u128|
                    #[trigger] visited@.contains(v) && !entry.contains(v) && v != id ==> !is_root(
                        self.edges@,
                        v,
                    ) && (passable(*self, v) ==> forall|p: u128|
                        allowed(*self, v, p) ==> visited@.contains(p)),
                forall|j: int|
                    0 <= j < i && allowed(*self, id, #[trigger] parent_ids@[j]) ==> visited@.contains(
                        parent_ids@[j],
                    ),
                count_unreached(self.edges@, visited@) < count_unreached(self.edges@, entry),
                entry == old(visited)@,
            decreases parent_ids@.len() - i,
        {
            let p_id = parent_ids[i];
            let skip = match self.get_node(p_id) {
                Some(parent_node) => parent_node.is_collapsed,
                None => false,
            };
            proof {
                lemma_node_index_props(self.nodes@, p_id);
            }
            if !skip {
                let ghost before = visited@;
                if self.check_visibility_dfs(p_id, visited) {
                    proof {
                        let q = choose|q: Seq<u128>| vis_path(*self, q) && q[0] == p_id;
                        let q2 = seq![id] + q;
                        assert(allowed(*self, id, p_id));
                        assert forall|k: int| 0 <= k < q2.len() - 1 implies passable(*self, #[trigger] q2[k])
                            && allowed(*self, q2[k], q2[k + 1]) by {
                            if k > 0 {
                                assert(q2[k] == q[k - 1] && q2[k + 1] == q[k]);
                                assert(passable(*self, q[k - 1]) && allowed(*self, q[k - 1], q[(k - 1) + 1]));
                            }
                        }
                        assert(vis_path(*self, q2));
                        assert forall|v: u128| entry.contains(v) implies visited@.contains(v) by {
                            assert(before.contains(v));
                        }
                    }
                    return true;
                }
                proof {
                    lemma_count_unreached_mono(self.edges@, before, visited@);
                    assert forall|v: u128|
                        #[trigger] visited@.contains(v) && !entry.contains(v) && v != id implies !is_root(
                            self.edges@,
                            v,
                        ) && (passable(*self, v) ==> forall|p: u128|
                            allowed(*self, v, p) ==> visited@.contains(p)) by {
                        if before.contains(v) {
                        } else {
                        }
                    }
                }
            }
            i = i + 1;
        }
        proof {
            assert forall|v: u128|
                #[trigger] visited@.contains(v) && !entry.contains(v) implies !is_root(self.edges@, v) && (
                passable(*self, v) ==> forall|p: u128| allowed(*self, v, p) ==> visited@.contains(p)) by {
                if v == id {
                    assert forall|p: u128| allowed(*self, v, p) implies visited@.contains(p) by {
                        assert(parent_ids@.contains(p));
                        let j = choose|j: int| 0 <= j < parent_ids@.len() && parent_ids@[j] == p;
                        assert(allowed(*self, id, parent_ids@[j]));
                    }
                }
            }
        }
        false
    }

    fn are_all_parents_collapsed(&self, parent_ids: &Vec<u128>) -> (res: bool)
        ensures
            res == (forall|j: int|
                0 <= j < parent_ids@.len() && has_node(self.nodes@, #[trigger] parent_ids@[j])
                    ==> is_collapsed_node(self.nodes@, parent_ids@[j])),
    {
        let mut i: usize = 0;
        while i < parent_ids.len()
            invariant
                i <= parent_ids@.len(),
                forall|j: int|
                    0 <= j < i && has_node(self.nodes@, #[trigger] parent_ids@[j]) ==> is_collapsed_node(
                        self.nodes@,
                        parent_ids@[j],
                    ),
            decreases parent_ids@.len() - i,
        {
            let p = parent_ids[i];
            proof {
                lemma_node_index_props(self.nodes@, p);
            }
            match self.get_node(p) {
                Some(node) => {
                    if !node.is_collapsed {
                        return false;
                    }
                },
                None => {},
            }
            i = i + 1;
        }
        true
    }
}

} // verus!
