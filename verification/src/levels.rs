//! Topological levels: a task without prerequisites is on level 0, any
//! other task one level below its deepest prerequisite.
use vstd::prelude::*;
use crate::models::{has_node, lemma_no_dup_subset_len, parents_spec, Edge, FocusGraph, ROOT_LEVEL_INDEX};
use crate::reach::{acyclic, is_edge, is_path, reaches};
use crate::visibility::lemma_parents_spec;
use std::collections::HashMap;

verus! {

broadcast use vstd::std_specs::hash::group_hash_axioms;

/// An acyclic graph whose links join existing tasks.
pub open spec fn layered(g: FocusGraph) -> bool {
    g.edges_closed() && acyclic(g.edges@)
}

/// The level recorded for `p`, or 0 when none is.
pub open spec fn recorded_level(m: Map<u128, usize>, p: u128) -> int {
    if m.contains_key(p) {
        m[p] as int
    } else {
        0
    }
}

/// The highest level recorded for the given tasks (0 for none).
pub open spec fn max_recorded(ps: Seq<u128>, m: Map<u128, usize>) -> int
    decreases ps.len(),
{
    if ps.len() == 0 {
        0
    } else {
        let r = max_recorded(ps.drop_last(), m);
        let x = recorded_level(m, ps.last());
        if x > r {
            x
        } else {
            r
        }
    }
}

/// The level of `v` computed from the levels recorded for its prerequisites.
pub open spec fn level_from(edges: Seq<Edge>, m: Map<u128, usize>, v: u128) -> int {
    let ps = parents_spec(edges, v);
    if ps.len() == 0 {
        0
    } else {
        max_recorded(ps, m) + 1
    }
}

/// `m` gives every task of the graph its level: 0 without prerequisites,
/// otherwise one more than the deepest prerequisite.
pub open spec fn is_level_assignment(g: FocusGraph, m: Map<u128, usize>) -> bool {
    &&& forall|k: u128| m.contains_key(k) <==> has_node(g.nodes@, k)
    &&& forall|i: int|
        0 <= i < g.nodes@.len() ==> m[#[trigger] g.nodes@[i].id] as int == level_from(
            g.edges@,
            m,
            g.nodes@[i].id,
        )
}

/// A walk of exactly `k` links ends at `v`.
pub open spec fn path_to(edges: Seq<Edge>, v: u128, k: nat) -> bool {
    exists|p: Seq<u128>| #[trigger] is_path(edges, p) && p.len() == k + 1 && p.last() == v
}

/// `v` is settled in `m`: recorded, with the level its prerequisites give.
pub open spec fn settled(edges: Seq<Edge>, m: Map<u128, usize>, v: u128) -> bool {
    m.contains_key(v) && m[v] as int == level_from(edges, m, v)
}

/// Every task reached by no walk of `k` links is settled.
pub open spec fn settled_below(g: FocusGraph, m: Map<u128, usize>, k: nat) -> bool {
    forall|v: u128| has_node(g.nodes@, v) && !path_to(g.edges@, v, k) ==> #[trigger] settled(g.edges@, m, v)
}

/// Every task reached by no walk of `k` links keeps the level recorded in `l0`.
pub open spec fn unchanged_below(
    nodes: Seq<crate::models::FocusNode>,
    edges: Seq<Edge>,
    m: Map<u128, usize>,
    l0: Map<u128, usize>,
    k: nat,
) -> bool {
    forall|v: u128|
        #[trigger] has_node(nodes, v) && !path_to(edges, v, k) ==> m.contains_key(v) && m[v] == l0[v]
}

/// `m` records exactly what `l0` records and the ids of the first `i` nodes.
pub open spec fn dom_after(m: Map<u128, usize>, l0: Map<u128, usize>, nodes: Seq<crate::models::FocusNode>, i: int) -> bool {
    forall|key: u128|
        #[trigger] m.contains_key(key) <==> (l0.contains_key(key) || exists|j: int|
            0 <= j < i && nodes[j].id == key)
}

/// All recorded levels are at most `b`.
pub open spec fn bounded_by(m: Map<u128, usize>, b: int) -> bool {
    forall|k: u128| #[trigger] m.contains_key(k) ==> m[k] as int <= b
}

pub proof fn lemma_max_recorded_same(ps: Seq<u128>, m1: Map<u128, usize>, m2: Map<u128, usize>)
    requires
        forall|j: int| 0 <= j < ps.len() ==> recorded_level(m1, #[trigger] ps[j]) == recorded_level(m2, ps[j]),
    ensures
        max_recorded(ps, m1) == max_recorded(ps, m2),
    decreases ps.len(),
{
    if ps.len() > 0 {
        lemma_max_recorded_same(ps.drop_last(), m1, m2);
        assert(recorded_level(m1, ps[ps.len() - 1]) == recorded_level(m2, ps[ps.len() - 1]));
    }
}

pub proof fn lemma_max_recorded_bound(ps: Seq<u128>, m: Map<u128, usize>, b: int)
    requires
        b >= 0,
        bounded_by(m, b),
    ensures
        0 <= max_recorded(ps, m) <= b,
    decreases ps.len(),
{
    if ps.len() > 0 {
        lemma_max_recorded_bound(ps.drop_last(), m, b);
    }
}

/// The level computed for `v` only depends on what is recorded for its prerequisites.
pub proof fn lemma_level_from_same(edges: Seq<Edge>, m1: Map<u128, usize>, m2: Map<u128, usize>, v: u128)
    requires
        forall|p: u128| is_edge(edges, p, v) ==> recorded_level(m1, p) == recorded_level(m2, p),
    ensures
        level_from(edges, m1, v) == level_from(edges, m2, v),
{
    lemma_parents_spec(edges, v);
    let ps = parents_spec(edges, v);
    assert forall|j: int| 0 <= j < ps.len() implies recorded_level(m1, #[trigger] ps[j]) == recorded_level(m2, ps[j]) by {
        assert(is_edge(edges, ps[j], v));
    }
    lemma_max_recorded_same(ps, m1, m2);
}

/// A prerequisite of a task reached by no walk of `k + 1` links is reached
/// by no walk of `k` links.
pub proof fn lemma_path_to_parent(edges: Seq<Edge>, p: u128, v: u128, k: nat)
    requires
        is_edge(edges, p, v),
        path_to(edges, p, k),
    ensures
        path_to(edges, v, k + 1),
{
    let q = choose|q: Seq<u128>| is_path(edges, q) && q.len() == k + 1 && q.last() == p;
    let r = q.push(v);
    assert forall|i: int| 0 <= i < r.len() - 1 implies #[trigger] is_edge(edges, r[i], r[i + 1]) by {
        if i < q.len() - 1 {
            assert(r[i] == q[i] && r[i + 1] == q[i + 1]);
            assert(is_edge(edges, q[i], q[i + 1]));
        }
    }
    assert(is_path(edges, r));
}

/// A walk of `k + 1` links contains one of `k` links.
pub proof fn lemma_path_to_shorter(edges: Seq<Edge>, v: u128, k: nat)
    requires
        path_to(edges, v, k + 1),
    ensures
        path_to(edges, v, k),
{
    let q = choose|q: Seq<u128>| is_path(edges, q) && q.len() == k + 2 && q.last() == v;
    let r = q.drop_first();
    assert forall|i: int| 0 <= i < r.len() - 1 implies #[trigger] is_edge(edges, r[i], r[i + 1]) by {
        assert(r[i] == q[i + 1] && r[i + 1] == q[i + 2]);
        assert(is_edge(edges, q[i + 1], q[(i + 1) + 1]));
    }
    assert(is_path(edges, r));
}

/// In an acyclic graph of `n` tasks whose links join tasks, no walk has `n` links.
pub proof fn lemma_no_long_path(g: FocusGraph, v: u128)
    requires
        layered(g),
        has_node(g.nodes@, v),
    ensures
        !path_to(g.edges@, v, g.nodes@.len() as nat),
{
    let n = g.nodes@.len();
    if path_to(g.edges@, v, n as nat) {
        let edges = g.edges@;
        let q = choose|q: Seq<u128>| is_path(edges, q) && q.len() == n + 1 && q.last() == v;
        // every vertex is a node
        let ids = g.nodes@.map_values(|x: crate::models::FocusNode| x.id);
        assert forall|x: u128| #[trigger] q.contains(x) implies ids.contains(x) by {
            let i = choose|i: int| 0 <= i < q.len() && q[i] == x;
            if n == 0 {
                assert(q.len() == 1);
            }
            if i < q.len() - 1 {
                assert(is_edge(edges, q[i], q[i + 1]));
                let k = choose|k: int| 0 <= k < edges.len() && edges[k].parent_id == q[i] && edges[k].child_id == q[i + 1];
                assert(has_node(g.nodes@, edges[k].parent_id));
                let j = choose|j: int| 0 <= j < g.nodes@.len() && g.nodes@[j].id == x;
                assert(ids[j] == x);
            } else {
                assert(is_edge(edges, q[i - 1], q[(i - 1) + 1]));
                let k = choose|k: int| 0 <= k < edges.len() && edges[k].parent_id == q[i - 1] && edges[k].child_id == q[i];
                assert(has_node(g.nodes@, edges[k].child_id));
                let j = choose|j: int| 0 <= j < g.nodes@.len() && g.nodes@[j].id == x;
                assert(ids[j] == x);
            }
        }
        // vertices are distinct, else some link would close a cycle
        assert forall|a: int, b: int| 0 <= a < q.len() && 0 <= b < q.len() && a != b implies q[a] != q[b] by {
            if q[a] == q[b] {
                let (lo, hi) = if a < b { (a, b) } else { (b, a) };
                let seg = q.subrange(lo, hi);
                assert forall|i: int| 0 <= i < seg.len() - 1 implies #[trigger] is_edge(edges, seg[i], seg[i + 1]) by {
                    assert(seg[i] == q[lo + i] && seg[i + 1] == q[lo + i + 1]);
                    assert(is_edge(edges, q[lo + i], q[(lo + i) + 1]));
                }
                assert(is_path(edges, seg));
                assert(reaches(edges, q[lo], q[hi - 1]));
                assert(is_edge(edges, q[hi - 1], q[(hi - 1) + 1]));
                let k = choose|k: int| 0 <= k < edges.len() && edges[k].parent_id == q[hi - 1] && edges[k].child_id == q[hi];
                assert(!reaches(edges, edges[k].child_id, edges[k].parent_id));
            }
        }
        lemma_no_dup_subset_len(q, ids);
    }
}

/// Every recorded level is the length of some walk ending at its task.
pub open spec fn witnessed(edges: Seq<Edge>, m: Map<u128, usize>) -> bool {
    forall|v: u128| #[trigger] m.contains_key(v) ==> path_to(edges, v, m[v] as nat)
}

/// Every recorded task is a task of the graph.
pub open spec fn keys_are_nodes(g: FocusGraph, m: Map<u128, usize>) -> bool {
    forall|v: u128| #[trigger] m.contains_key(v) ==> has_node(g.nodes@, v)
}

/// A walk of `l` links ending at `v` contains one of any fewer links.
pub proof fn lemma_path_to_suffix(edges: Seq<Edge>, v: u128, l: nat, k: nat)
    requires
        path_to(edges, v, l),
        k <= l,
    ensures
        path_to(edges, v, k),
    decreases l - k,
{
    if k < l {
        lemma_path_to_shorter(edges, v, (l - 1) as nat);
        lemma_path_to_suffix(edges, v, (l - 1) as nat, k);
    }
}

/// Some prerequisite carries the highest recorded level, when there is one.
proof fn lemma_max_recorded_attained(ps: Seq<u128>, m: Map<u128, usize>)
    requires
        ps.len() > 0,
    ensures
        exists|j: int| 0 <= j < ps.len() && max_recorded(ps, m) == recorded_level(m, #[trigger] ps[j]),
    decreases ps.len(),
{
    let last = ps.len() - 1;
    assert(recorded_level(m, ps[last]) >= 0);
    if ps.len() > 1 {
        lemma_max_recorded_attained(ps.drop_last(), m);
        let j = choose|j: int| 0 <= j < ps.drop_last().len() && max_recorded(ps.drop_last(), m) == recorded_level(m, #[trigger] ps.drop_last()[j]);
        assert(ps.drop_last()[j] == ps[j]);
        if max_recorded(ps, m) == recorded_level(m, ps[last]) {
            assert(0 <= last < ps.len());
        } else {
            assert(max_recorded(ps, m) == recorded_level(m, ps[j]));
        }
    } else {
        assert(ps.drop_last().len() == 0);
        assert(max_recorded(ps.drop_last(), m) == 0);
        assert(ps.last() == ps[last]);
        assert(max_recorded(ps, m) == recorded_level(m, ps[last]));
    }
}

/// The level computed from witnessed levels is witnessed too.
pub proof fn lemma_level_from_witnessed(edges: Seq<Edge>, m: Map<u128, usize>, v: u128)
    requires
        witnessed(edges, m),
    ensures
        level_from(edges, m, v) >= 0,
        path_to(edges, v, level_from(edges, m, v) as nat),
{
    let ps = parents_spec(edges, v);
    lemma_parents_spec(edges, v);
    if ps.len() == 0 {
        assert(is_path(edges, seq![v]));
        assert(seq![v].last() == v);
    } else {
        lemma_max_recorded_attained(ps, m);
        let j = choose|j: int| 0 <= j < ps.len() && max_recorded(ps, m) == recorded_level(m, #[trigger] ps[j]);
        let p = ps[j];
        assert(is_edge(edges, p, v));
        if m.contains_key(p) {
            assert(path_to(edges, p, m[p] as nat));
        } else {
            assert(is_path(edges, seq![p]));
            assert(seq![p].last() == p);
            assert(path_to(edges, p, 0));
        }
        lemma_path_to_parent(edges, p, v, recorded_level(m, p) as nat);
    }
}

/// In a `layered` graph witnessed levels of tasks are below the number of
/// tasks.
pub proof fn lemma_witnessed_bound(g: FocusGraph, m: Map<u128, usize>)
    requires
        layered(g),
        witnessed(g.edges@, m),
        keys_are_nodes(g, m),
    ensures
        bounded_by(m, g.nodes@.len() - 1),
{
    assert forall|v: u128| #[trigger] m.contains_key(v) implies m[v] as int <= g.nodes@.len() - 1 by {
        lemma_no_long_path(g, v);
        if m[v] as int >= g.nodes@.len() {
            lemma_path_to_suffix(g.edges@, v, m[v] as nat, g.nodes@.len() as nat);
        }
    }
}

/// The level assignment of a graph (unique when the graph is `layered`).
pub open spec fn node_levels_spec(g: FocusGraph) -> Map<u128, usize> {
    choose|m: Map<u128, usize>| is_level_assignment(g, m)
}

/// The levels after recomputing, in node order, the first `i` tasks'
/// levels from those recorded so far, starting from `m`.
pub open spec fn sweep_upto(g: FocusGraph, m: Map<u128, usize>, i: nat) -> Map<u128, usize>
    decreases i,
{
    if i == 0 || i > g.nodes@.len() {
        m
    } else {
        let prev = sweep_upto(g, m, (i - 1) as nat);
        let id = g.nodes@[i - 1].id;
        prev.insert(id, level_from(g.edges@, prev, id) as usize)
    }
}

/// One sweep over all tasks.
pub open spec fn sweep(g: FocusGraph, m: Map<u128, usize>) -> Map<u128, usize> {
    sweep_upto(g, m, g.nodes@.len())
}

/// The levels after `k` sweeps from no levels.
pub open spec fn levels_after(g: FocusGraph, k: nat) -> Map<u128, usize>
    decreases k,
{
    if k == 0 {
        Map::empty()
    } else {
        sweep(g, levels_after(g, (k - 1) as nat))
    }
}

/// The levels the sweeps settle on: one sweep per task, fewer when a sweep
/// changes nothing (see `get_node_levels`). On a `layered` graph they are
/// `node_levels_spec`.
pub open spec fn computed_levels(g: FocusGraph) -> Map<u128, usize> {
    levels_after(g, g.nodes@.len())
}

/// Once a sweep changes nothing, further sweeps change nothing either.
proof fn lemma_fixpoint_stays(g: FocusGraph, t: nat, j: nat)
    requires
        sweep(g, levels_after(g, t)) == levels_after(g, t),
        t <= j,
    ensures
        levels_after(g, j) == levels_after(g, t),
    decreases j - t,
{
    if j > t {
        lemma_fixpoint_stays(g, t, (j - 1) as nat);
    }
}

/// Two level assignments of an acyclic graph whose links join tasks agree on every task
/// reached by no walk of `k` links.
pub proof fn lemma_level_assignment_agree(g: FocusGraph, m1: Map<u128, usize>, m2: Map<u128, usize>, k: nat)
    requires
        layered(g),
        is_level_assignment(g, m1),
        is_level_assignment(g, m2),
    ensures
        forall|v: u128| #[trigger] has_node(g.nodes@, v) && !path_to(g.edges@, v, k) ==> m1[v] == m2[v],
    decreases k,
{
    let edges = g.edges@;
    if k > 0 {
        lemma_level_assignment_agree(g, m1, m2, (k - 1) as nat);
        assert forall|v: u128| #[trigger] has_node(g.nodes@, v) && !path_to(edges, v, k) implies m1[v] == m2[v] by {
            assert forall|p: u128| is_edge(edges, p, v) implies recorded_level(m1, p) == recorded_level(m2, p) by {
                if path_to(edges, p, (k - 1) as nat) {
                    lemma_path_to_parent(edges, p, v, (k - 1) as nat);
                }
                let kk = choose|kk: int| 0 <= kk < edges.len() && edges[kk].parent_id == p && edges[kk].child_id == v;
                assert(has_node(g.nodes@, edges[kk].parent_id));
            }
            lemma_level_from_same(edges, m1, m2, v);
            let i = choose|i: int| 0 <= i < g.nodes@.len() && g.nodes@[i].id == v;
            assert(m1[g.nodes@[i].id] as int == level_from(edges, m1, g.nodes@[i].id));
            assert(m2[g.nodes@[i].id] as int == level_from(edges, m2, g.nodes@[i].id));
        }
    } else {
        assert forall|v: u128| #[trigger] has_node(g.nodes@, v) implies path_to(edges, v, 0) by {
            assert(is_path(edges, seq![v]));
        }
    }
}

/// An acyclic graph whose links join tasks has exactly one level assignment.
pub proof fn lemma_level_assignment_unique(g: FocusGraph, m: Map<u128, usize>)
    requires
        layered(g),
        is_level_assignment(g, m),
    ensures
        node_levels_spec(g) == m,
{
    let m2 = node_levels_spec(g);
    assert(is_level_assignment(g, m2));
    lemma_level_assignment_agree(g, m, m2, g.nodes@.len() as nat);
    assert forall|v: u128| has_node(g.nodes@, v) implies m[v] == m2[v] by {
        lemma_no_long_path(g, v);
    }
    assert(m =~= m2);
}

impl FocusGraph {
    /// Whether the graph is `layered`: every link joins two tasks and none
    /// closes a cycle.
    pub fn is_layered(&self) -> (res: bool)
        ensures
            res == layered(*self),
    {
        let mut k: usize = 0;
        while k < self.edges.len()
            invariant
                k <= self.edges@.len(),
                forall|j: int| 0 <= j < k ==> has_node(self.nodes@, #[trigger] self.edges@[j].parent_id)
                    && has_node(self.nodes@, self.edges@[j].child_id)
                    && !reaches(self.edges@, self.edges@[j].child_id, self.edges@[j].parent_id),
            decreases self.edges@.len() - k,
        {
            let p = self.edges[k].parent_id;
            let c = self.edges[k].child_id;
            let has_p = self.get_node(p).is_some();
            let has_c = self.get_node(c).is_some();
            if !has_p || !has_c || self.would_create_cycle(p, c) {
                proof {
                    if has_p && has_c {
                        assert(reaches(self.edges@, c, p) || p == c);
                        if p == c {
                            crate::reach::lemma_reaches_self(self.edges@, c);
                        }
                        assert(!acyclic(self.edges@));
                    } else {
                        assert(self.edges@[k as int].parent_id == p);
                        assert(!self.edges_closed());
                    }
                }
                return false;
            }
            k = k + 1;
        }
        true
    }
}

impl FocusGraph {
    /// The level of every task (see `is_level_assignment`), computed by
    /// repeated sweeps over the tasks until nothing changes, at most one
    /// sweep per task.
    pub fn get_node_levels(&self) -> (res: HashMap<u128, usize>)
        requires
            self.nodes@.len() * self.nodes@.len() <= usize::MAX || layered(*self),
        ensures
            forall|k: u128| res@.contains_key(k) <==> has_node(self.nodes@, k),
            res@ == computed_levels(*self),
            self.nodes@.len() * self.nodes@.len() <= usize::MAX ==> bounded_by(
                res@,
                (self.nodes@.len() * self.nodes@.len()) as int,
            ),
            layered(*self) ==> bounded_by(res@, self.nodes@.len() - 1),
            layered(*self) ==> is_level_assignment(*self, res@),
            layered(*self) ==> res@ == node_levels_spec(*self),
    {
        let mut node_levels: HashMap<u128, usize> = HashMap::new();
        let max_iterations = self.nodes.len();
        let mut iteration: usize = 0;
        let mut stable = false;
        let ghost big = self.nodes@.len() * self.nodes@.len() <= usize::MAX;
        proof {
            assert forall|v: u128| has_node(self.nodes@, v) implies path_to(self.edges@, v, 0) by {
                assert(is_path(self.edges@, seq![v]));
            }
        }
        while iteration < max_iterations
            invariant_except_break
                !stable,
            invariant
                max_iterations == self.nodes@.len(),
                big == (self.nodes@.len() * self.nodes@.len() <= usize::MAX),
                !big ==> layered(*self),
                iteration <= max_iterations,
                big ==> bounded_by(node_levels@, (iteration * max_iterations) as int),
                witnessed(self.edges@, node_levels@),
                keys_are_nodes(*self, node_levels@),
                node_levels@ == levels_after(*self, iteration as nat),
                iteration > 0 ==> forall|k: u128| node_levels@.contains_key(k) <==> has_node(self.nodes@, k),
                iteration == 0 ==> node_levels@ == Map::<u128, usize>::empty(),
                layered(*self) ==> settled_below(*self, node_levels@, iteration as nat),
                stable ==> forall|i: int| 0 <= i < self.nodes@.len() ==> #[trigger] settled(self.edges@, node_levels@, self.nodes@[i].id),
            ensures
                stable ==> iteration > 0,
                stable || iteration == max_iterations,
                big ==> bounded_by(node_levels@, (iteration * max_iterations) as int),
                witnessed(self.edges@, node_levels@),
                keys_are_nodes(*self, node_levels@),
                iteration <= max_iterations,
                node_levels@ == levels_after(*self, iteration as nat),
                stable ==> sweep(*self, node_levels@) == node_levels@,
                stable ==> forall|i: int| 0 <= i < self.nodes@.len() ==> #[trigger] settled(self.edges@, node_levels@, self.nodes@[i].id),
                layered(*self) ==> settled_below(*self, node_levels@, iteration as nat),
                iteration > 0 ==> forall|k: u128| node_levels@.contains_key(k) <==> has_node(self.nodes@, k),
                iteration == 0 ==> node_levels@ == Map::<u128, usize>::empty(),
            decreases max_iterations - iteration,
        {
            proof {
                assert((iteration + 1) * max_iterations == iteration * max_iterations + max_iterations) by (nonlinear_arith);
                assert(iteration * max_iterations + max_iterations <= max_iterations * max_iterations) by (nonlinear_arith)
                    requires iteration < max_iterations;
            }
            let ghost prior = node_levels@;
            let state_changed = self.calculate_and_update_node_levels(
                &mut node_levels,
                Ghost(if big { (iteration * max_iterations) as int } else { 0 }),
                Ghost(iteration as nat),
                Ghost(!big),
            );
            iteration = iteration + 1;
            if !state_changed {
                stable = true;
                break ;
            }
        }
        proof {
            if stable {
                lemma_fixpoint_stays(*self, iteration as nat, max_iterations as nat);
            }
            assert(iteration * max_iterations <= max_iterations * max_iterations) by (nonlinear_arith)
                requires iteration <= max_iterations;
            if layered(*self) {
                lemma_witnessed_bound(*self, node_levels@);
            }
            if self.nodes@.len() == 0 {
                assert(iteration == 0);
                assert(node_levels@ == Map::<u128, usize>::empty());
                assert forall|k: u128| node_levels@.contains_key(k) <==> has_node(self.nodes@, k) by {}
            } else {
                assert(iteration > 0);
            }
            if layered(*self) && !stable {
                assert forall|i: int| 0 <= i < self.nodes@.len() implies #[trigger] settled(self.edges@, node_levels@, self.nodes@[i].id) by {
                    lemma_no_long_path(*self, self.nodes@[i].id);
                    assert(has_node(self.nodes@, self.nodes@[i].id));
                }
            }
            if layered(*self) {
                assert forall|i: int| 0 <= i < self.nodes@.len() implies node_levels@[#[trigger] self.nodes@[i].id] as int
                    == level_from(self.edges@, node_levels@, self.nodes@[i].id) by {
                    assert(settled(self.edges@, node_levels@, self.nodes@[i].id));
                }
                lemma_level_assignment_unique(*self, node_levels@);
            }
        }
        node_levels
    }
}

impl FocusGraph {
    /// One sweep: recomputes each task's level in order, recording it when
    /// it differs; reports whether anything changed.
    fn calculate_and_update_node_levels(
        &self,
        node_levels: &mut HashMap<u128, usize>,
        Ghost(bound): Ghost<int>,
        Ghost(k): Ghost<nat>,
        Ghost(short): Ghost<bool>,
    ) -> (state_changed: bool)
        requires
            bound >= 0,
            !short ==> bound + self.nodes@.len() <= usize::MAX && bounded_by(old(node_levels)@, bound),
            short ==> layered(*self),
            witnessed(self.edges@, old(node_levels)@),
            keys_are_nodes(*self, old(node_levels)@),
        ensures
            !short ==> bounded_by(final(node_levels)@, bound + self.nodes@.len()),
            witnessed(self.edges@, final(node_levels)@),
            keys_are_nodes(*self, final(node_levels)@),
            final(node_levels)@ == sweep(*self, old(node_levels)@),
            forall|key: u128| final(node_levels)@.contains_key(key) <==> (old(node_levels)@.contains_key(key) || has_node(self.nodes@, key)),
            !state_changed ==> final(node_levels)@ == old(node_levels)@ && forall|i: int|
                0 <= i < self.nodes@.len() ==> #[trigger] settled(self.edges@, old(node_levels)@, self.nodes@[i].id),
            layered(*self) && settled_below(*self, old(node_levels)@, k) ==> settled_below(*self, final(node_levels)@, k + 1),
    {
        let ghost l0 = node_levels@;
        let ghost edges = self.edges@;
        let ghost pre = layered(*self) && settled_below(*self, l0, k);
        let mut state_changed = false;
        let mut i: usize = 0;
        proof {
            if pre {
                assert forall|v: u128| #[trigger] has_node(self.nodes@, v) && !path_to(edges, v, k) implies node_levels@.contains_key(v)
                    && node_levels@[v] == l0[v] by {
                    assert(settled(edges, l0, v));
                }
                assert(unchanged_below(self.nodes@, edges, node_levels@, l0, k));
            }
        }
        while i < self.nodes.len()
            invariant
                edges == self.edges@,
                l0 == old(node_levels)@,
                pre == (layered(*self) && settled_below(*self, l0, k)),
                i <= self.nodes@.len(),
                bound >= 0,
                !short ==> bound + self.nodes@.len() <= usize::MAX && bounded_by(node_levels@, bound + i),
                short ==> layered(*self),
                witnessed(edges, node_levels@),
                keys_are_nodes(*self, node_levels@),
                node_levels@ == sweep_upto(*self, l0, i as nat),
                dom_after(node_levels@, l0, self.nodes@, i as int),
                pre ==> unchanged_below(self.nodes@, edges, node_levels@, l0, k),
                pre ==> forall|j: int| 0 <= j < i && !path_to(edges, self.nodes@[j].id, k + 1) ==> node_levels@.contains_key(self.nodes@[j].id)
                    && node_levels@[#[trigger] self.nodes@[j].id] as int == level_from(edges, l0, self.nodes@[j].id),
                !state_changed ==> node_levels@ == l0 && forall|j: int| 0 <= j < i ==> #[trigger] settled(edges, l0, self.nodes@[j].id),
            decreases self.nodes@.len() - i,
        {
            let node_id = self.nodes[i].id;
            proof {
                if short {
                    lemma_witnessed_bound(*self, node_levels@);
                }
            }
            let calculated_level = self.compute_level_for_node(
                node_id,
                node_levels,
                Ghost(if short { self.nodes@.len() - 1 } else { bound + i }),
            );
            let current_level = match node_levels.get(&node_id) {
                Some(v) => Some(*v),
                None => None,
            };
            let ghost before = node_levels@;
            proof {
                if pre {
                    // prerequisites of a node reached by no walk of k + 1 links are unchanged
                    assert forall|p: u128| is_edge(edges, p, node_id) && !path_to(edges, node_id, k + 1)
                        implies recorded_level(before, p) == recorded_level(l0, p) by {
                        if path_to(edges, p, k) {
                            lemma_path_to_parent(edges, p, node_id, k);
                        }
                        let kk = choose|kk: int| 0 <= kk < edges.len() && edges[kk].parent_id == p && edges[kk].child_id == node_id;
                        assert(has_node(self.nodes@, edges[kk].parent_id));
                        assert(node_levels@.contains_key(p) && node_levels@[p] == l0[p]);
                        assert(settled(edges, l0, p));
                    }
                    if !path_to(edges, node_id, k + 1) {
                        lemma_level_from_same(edges, before, l0, node_id);
                    }
                    if !path_to(edges, node_id, k) {
                        if k > 0 {
                            assert forall|p: u128| is_edge(edges, p, node_id)
                                implies recorded_level(before, p) == recorded_level(l0, p) by {
                                if path_to(edges, p, (k - 1) as nat) {
                                    lemma_path_to_parent(edges, p, node_id, (k - 1) as nat);
                                }
                                if path_to(edges, p, k) {
                                    lemma_path_to_shorter(edges, p, (k - 1) as nat);
                                }
                                let kk = choose|kk: int| 0 <= kk < edges.len() && edges[kk].parent_id == p && edges[kk].child_id == node_id;
                                assert(has_node(self.nodes@, edges[kk].parent_id));
                                assert(node_levels@.contains_key(p) && node_levels@[p] == l0[p]);
                                assert(settled(edges, l0, p));
                            }
                            lemma_level_from_same(edges, before, l0, node_id);
                            assert(has_node(self.nodes@, node_id)) by {
                                assert(self.nodes@[i as int].id == node_id);
                            }
                            assert(settled(edges, l0, node_id));
                        } else {
                            let q = seq![node_id];
                            assert(is_path(edges, q));
                        }
                    }
                }
            }
            if current_level != Some(calculated_level) {
                node_levels.insert(node_id, calculated_level);
                state_changed = true;
            }
            proof {
                lemma_level_from_witnessed(edges, before, node_id);
                assert(has_node(self.nodes@, node_id)) by {
                    assert(self.nodes@[i as int].id == node_id);
                }
                assert(sweep_upto(*self, l0, (i + 1) as nat) == before.insert(node_id, calculated_level));
                assert(node_levels@ =~= before.insert(node_id, calculated_level));
                assert(node_levels@.contains_key(node_id));
                assert forall|key: u128| node_levels@.contains_key(key) <==> (l0.contains_key(key) || exists|j: int| 0 <= j < i + 1 && self.nodes@[j].id == key) by {
                    if key == node_id {
                        assert(self.nodes@[i as int].id == key);
                    } else {
                        assert(node_levels@.contains_key(key) == before.contains_key(key));
                        if exists|j: int| 0 <= j < i + 1 && self.nodes@[j].id == key {
                            let j = choose|j: int| 0 <= j < i + 1 && self.nodes@[j].id == key;
                            assert(j != i);
                            assert(exists|j2: int| 0 <= j2 < i && self.nodes@[j2].id == key);
                        }
                        if exists|j: int| 0 <= j < i && self.nodes@[j].id == key {
                            let j = choose|j: int| 0 <= j < i && self.nodes@[j].id == key;
                            assert(0 <= j < i + 1 && self.nodes@[j].id == key);
                        }
                    }
                }
                assert(dom_after(node_levels@, l0, self.nodes@, i + 1));
                if pre {
                    assert forall|j: int| 0 <= j < i + 1 && !path_to(edges, self.nodes@[j].id, k + 1) implies node_levels@.contains_key(self.nodes@[j].id)
                        && node_levels@[#[trigger] self.nodes@[j].id] as int == level_from(edges, l0, self.nodes@[j].id) by {
                        if self.nodes@[j].id == node_id {
                            assert(node_levels@[node_id] as int == level_from(edges, before, node_id));
                        }
                    }
                }
                if !state_changed {
                    assert(before == l0);
                    assert(settled(edges, l0, node_id));
                }
            }
            i = i + 1;
        }
        proof {
            if pre {
                assert forall|v: u128| has_node(self.nodes@, v) && !path_to(edges, v, k + 1) implies #[trigger] settled(edges, node_levels@, v) by {
                    let j = choose|j: int| 0 <= j < self.nodes@.len() && self.nodes@[j].id == v;
                    assert(node_levels@[self.nodes@[j].id] as int == level_from(edges, l0, self.nodes@[j].id));
                    assert forall|p: u128| is_edge(edges, p, v) implies recorded_level(node_levels@, p) == recorded_level(l0, p) by {
                        if path_to(edges, p, k) {
                            lemma_path_to_parent(edges, p, v, k);
                        }
                        let kk = choose|kk: int| 0 <= kk < edges.len() && edges[kk].parent_id == p && edges[kk].child_id == v;
                        assert(has_node(self.nodes@, edges[kk].parent_id));
                        assert(settled(edges, l0, p));
                    }
                    lemma_level_from_same(edges, node_levels@, l0, v);
                }
            }
        }
        state_changed
    }

    /// The level of `node_id` from the levels recorded so far.
    fn compute_level_for_node(&self, node_id: u128, node_levels: &HashMap<u128, usize>, Ghost(bound): Ghost<int>) -> (res: usize)
        requires
            bound >= 0,
            bound < usize::MAX,
            bounded_by(node_levels@, bound),
        ensures
            res as int == level_from(self.edges@, node_levels@, node_id),
            res as int <= bound + 1,
    {
        let parent_ids = self.parents_of(node_id);
        if parent_ids.len() == 0 {
            return ROOT_LEVEL_INDEX;
        }
        let mut max_parent_level: usize = ROOT_LEVEL_INDEX;
        let mut i: usize = 0;
        while i < parent_ids.len()
            invariant
                i <= parent_ids@.len(),
                bounded_by(node_levels@, bound),
                bound >= 0,
                max_parent_level as int == max_recorded(parent_ids@.subrange(0, i as int), node_levels@),
                max_parent_level as int <= bound,
            decreases parent_ids@.len() - i,
        {
            let level = match node_levels.get(&parent_ids[i]) {
                Some(v) => *v,
                None => ROOT_LEVEL_INDEX,
            };
            assert(parent_ids@.subrange(0, i + 1).drop_last() == parent_ids@.subrange(0, i as int));
            if level > max_parent_level {
                max_parent_level = level;
            }
            i = i + 1;
        }
        assert(parent_ids@.subrange(0, parent_ids@.len() as int) == parent_ids@);
        max_parent_level + 1
    }
}

} // verus!
