//! Rebuilding a graph from each node's list of prerequisites.
use vstd::prelude::*;
use crate::models::{has_node, parents_spec, Edge, FocusGraph, FocusNode};
use crate::reach::{acyclic, edges_within, is_edge, lemma_reaches_mono, lemma_reaches_self, reaches};
use crate::records::{added_nodes, link_all, link_ok};

verus! {

/// The links a graph's nodes ask for when each names its prerequisites
/// in order: node by node, `(parent, node)` for each parent.
pub open spec fn graph_requests(nodes: Seq<FocusNode>, edges: Seq<Edge>) -> Seq<(u128, u128)>
    decreases nodes.len(),
{
    if nodes.len() == 0 {
        Seq::empty()
    } else {
        graph_requests(nodes.drop_last(), edges) + parents_spec(edges, nodes.last().id).map_values(
            |p: u128| (p, nodes.last().id),
        )
    }
}

pub open spec fn request_edges(reqs: Seq<(u128, u128)>) -> Seq<Edge> {
    reqs.map_values(|r: (u128, u128)| Edge { parent_id: r.0, child_id: r.1 })
}

/// The parents listed for `c` are exactly the sources of its links.
pub proof fn lemma_parents_spec_members(edges: Seq<Edge>, c: u128)
    ensures
        forall|x: u128|
            #![trigger parents_spec(edges, c).contains(x)]
            #![trigger is_edge(edges, x, c)]
            parents_spec(edges, c).contains(x) <==> is_edge(edges, x, c),
    decreases edges.len(),
{
    if edges.len() > 0 {
        let pre = edges.drop_last();
        lemma_parents_spec_members(pre, c);
        assert forall|x: u128| parents_spec(edges, c).contains(x) <==> is_edge(edges, x, c) by {
            if is_edge(edges, x, c) {
                let k = choose|k: int| 0 <= k < edges.len() && edges[k].parent_id == x && edges[k].child_id == c;
                if k < pre.len() {
                    assert(pre[k] == edges[k]);
                    assert(is_edge(pre, x, c));
                    assert(parents_spec(pre, c).contains(x));
                    let j = choose|j: int| 0 <= j < parents_spec(pre, c).len() && parents_spec(pre, c)[j] == x;
                    if edges.last().child_id == c {
                        assert(parents_spec(edges, c)[j] == x);
                    }
                } else {
                    assert(parents_spec(edges, c) == parents_spec(pre, c).push(x));
                    assert(parents_spec(edges, c)[parents_spec(pre, c).len() as int] == x);
                }
            }
            if parents_spec(edges, c).contains(x) {
                let j = choose|j: int| 0 <= j < parents_spec(edges, c).len() && parents_spec(edges, c)[j] == x;
                if edges.last().child_id == c && j == parents_spec(pre, c).len() {
                    assert(edges[edges.len() - 1].parent_id == x);
                } else {
                    assert(parents_spec(pre, c)[j] == x);
                    assert(parents_spec(pre, c).contains(x));
                    assert(is_edge(pre, x, c));
                    let k = choose|k: int| 0 <= k < pre.len() && pre[k].parent_id == x && pre[k].child_id == c;
                    assert(edges[k] == pre[k]);
                }
            }
        }
    }
}

/// Without repeated links, no parent is listed twice.
pub proof fn lemma_parents_spec_distinct(g: FocusGraph, c: u128)
    requires
        g.distinct_edges(),
    ensures
        parents_spec(g.edges@, c).no_duplicates(),
{
    lemma_parents_distinct_of(g.edges@, c);
}

proof fn lemma_parents_distinct_of(edges: Seq<Edge>, c: u128)
    requires
        forall|k: int, l: int| 0 <= k < edges.len() && 0 <= l < edges.len() && k != l ==> edges[k] != edges[l],
    ensures
        parents_spec(edges, c).no_duplicates(),
    decreases edges.len(),
{
    if edges.len() > 0 {
        let pre = edges.drop_last();
        assert forall|k: int, l: int| 0 <= k < pre.len() && 0 <= l < pre.len() && k != l implies pre[k] != pre[l] by {
            assert(pre[k] == edges[k] && pre[l] == edges[l]);
        }
        lemma_parents_distinct_of(pre, c);
        if edges.last().child_id == c {
            let x = edges.last().parent_id;
            lemma_parents_spec_members(pre, c);
            if parents_spec(pre, c).contains(x) {
                assert(is_edge(pre, x, c));
                let k = choose|k: int| 0 <= k < pre.len() && pre[k].parent_id == x && pre[k].child_id == c;
                assert(edges[k] == pre[k]);
                assert(edges[k] == edges[edges.len() - 1]);
            }
            let ps = parents_spec(edges, c);
            assert(ps == parents_spec(pre, c).push(x));
            assert forall|i: int, j: int| 0 <= i < ps.len() && 0 <= j < ps.len() && i != j implies ps[i] != ps[j] by {
                if i < ps.len() - 1 && j < ps.len() - 1 {
                    assert(ps[i] == parents_spec(pre, c)[i]);
                    assert(ps[j] == parents_spec(pre, c)[j]);
                } else if i == ps.len() - 1 {
                    assert(ps[j] == parents_spec(pre, c)[j]);
                } else {
                    assert(ps[i] == parents_spec(pre, c)[i]);
                }
            }
        }
    }
}

/// A request names a node of the list as child and one of its links.
pub proof fn lemma_graph_requests_members(nodes: Seq<FocusNode>, edges: Seq<Edge>)
    ensures
        forall|r: (u128, u128)|
            graph_requests(nodes, edges).contains(r) <==> (has_node(nodes, r.1) && is_edge(edges, r.0, r.1)),
    decreases nodes.len(),
{
    if nodes.len() > 0 {
        let pre = nodes.drop_last();
        let c = nodes.last().id;
        lemma_graph_requests_members(pre, edges);
        lemma_parents_spec_members(edges, c);
        let a = graph_requests(pre, edges);
        let b = parents_spec(edges, c).map_values(|p: u128| (p, c));
        assert(graph_requests(nodes, edges) == a + b);
        assert forall|r: (u128, u128)|
            (a + b).contains(r) <==> (has_node(nodes, r.1) && is_edge(edges, r.0, r.1)) by {
            if (a + b).contains(r) {
                let j = choose|j: int| 0 <= j < (a + b).len() && (a + b)[j] == r;
                if j < a.len() {
                    assert(a[j] == r);
                    assert(a.contains(r));
                    let i = choose|i: int| 0 <= i < pre.len() && pre[i].id == r.1;
                    assert(nodes[i] == pre[i]);
                } else {
                    assert(b[j - a.len()] == r);
                    assert(parents_spec(edges, c)[j - a.len()] == r.0);
                    assert(parents_spec(edges, c).contains(r.0));
                    assert(nodes[nodes.len() - 1].id == c);
                }
            }
            if has_node(nodes, r.1) && is_edge(edges, r.0, r.1) {
                let i = choose|i: int| 0 <= i < nodes.len() && nodes[i].id == r.1;
                if i < pre.len() {
                    assert(pre[i] == nodes[i]);
                    assert(a.contains(r));
                    let j = choose|j: int| 0 <= j < a.len() && a[j] == r;
                    assert((a + b)[j] == r);
                } else {
                    assert(r.1 == c);
                    assert(parents_spec(edges, c).contains(r.0));
                    let j = choose|j: int| 0 <= j < parents_spec(edges, c).len() && parents_spec(edges, c)[j] == r.0;
                    assert(b[j] == (r.0, c));
                    assert((a + b)[a.len() + j] == r);
                }
            }
        }
    }
}

/// With unique node ids and no repeated links, no request repeats.
pub proof fn lemma_graph_requests_distinct(nodes: Seq<FocusNode>, g: FocusGraph)
    requires
        g.distinct_edges(),
        forall|i: int, j: int| 0 <= i < nodes.len() && 0 <= j < nodes.len() && i != j ==> nodes[i].id != nodes[j].id,
    ensures
        graph_requests(nodes, g.edges@).no_duplicates(),
    decreases nodes.len(),
{
    if nodes.len() > 0 {
        let edges = g.edges@;
        let pre = nodes.drop_last();
        let c = nodes.last().id;
        assert forall|i: int, j: int| 0 <= i < pre.len() && 0 <= j < pre.len() && i != j implies pre[i].id != pre[j].id by {
            assert(pre[i] == nodes[i] && pre[j] == nodes[j]);
        }
        lemma_graph_requests_distinct(pre, g);
        lemma_graph_requests_members(pre, edges);
        lemma_parents_spec_distinct(g, c);
        let a = graph_requests(pre, edges);
        let ps = parents_spec(edges, c);
        let b = ps.map_values(|p: u128| (p, c));
        let r = a + b;
        assert forall|i: int, j: int| 0 <= i < r.len() && 0 <= j < r.len() && i != j implies r[i] != r[j] by {
            if i < a.len() && j < a.len() {
                assert(r[i] == a[i] && r[j] == a[j]);
            } else if i >= a.len() && j >= a.len() {
                assert(r[i] == b[i - a.len()] && r[j] == b[j - a.len()]);
                assert(ps[i - a.len()] != ps[j - a.len()]);
            } else {
                let (ia, jb) = if i < a.len() { (i, j) } else { (j, i) };
                assert(r[jb] == b[jb - a.len()]);
                assert(r[jb].1 == c);
                assert(r[ia] == a[ia]);
                assert(a.contains(a[ia]));
                if r[ia] == r[jb] {
                    let k = choose|k: int| 0 <= k < pre.len() && pre[k].id == c;
                    assert(nodes[k].id == c);
                    assert(nodes[nodes.len() - 1].id == c);
                }
            }
        }
    }
}

/// Asking, in order, for every link of a valid graph whose child is one
/// of `nodes` grants each of them.
pub proof fn lemma_link_all_grants(g: FocusGraph, reqs: Seq<(u128, u128)>, m: int)
    requires
        g.wf(),
        reqs.no_duplicates(),
        forall|k: int| 0 <= k < reqs.len() ==> is_edge(g.edges@, (#[trigger] reqs[k]).0, reqs[k].1),
        0 <= m <= reqs.len(),
    ensures
        link_all(g.nodes@, reqs.subrange(0, m)) == request_edges(reqs.subrange(0, m)),
    decreases m,
{
    if m == 0 {
        assert(reqs.subrange(0, 0) =~= Seq::<(u128, u128)>::empty());
        assert(request_edges(reqs.subrange(0, 0)) =~= Seq::<Edge>::empty());
    } else {
        lemma_link_all_grants(g, reqs, m - 1);
        let sub = reqs.subrange(0, m);
        assert(sub.drop_last() =~= reqs.subrange(0, m - 1));
        let prev = request_edges(reqs.subrange(0, m - 1));
        let (p, c) = reqs[m - 1];
        assert(sub.last() == (p, c));
        let edges = g.edges@;
        assert(is_edge(edges, p, c));
        let k = choose|k: int| 0 <= k < edges.len() && edges[k].parent_id == p && edges[k].child_id == c;
        assert(crate::models::has_node(g.nodes@, edges[k].parent_id));
        assert(crate::models::has_node(g.nodes@, edges[k].child_id));
        assert(!reaches(edges, edges[k].child_id, edges[k].parent_id));
        if p == c {
            lemma_reaches_self(edges, c);
        }
        assert(edges_within(prev, edges)) by {
            assert forall|x: u128, y: u128| is_edge(prev, x, y) implies is_edge(edges, x, y) by {
                let j = choose|j: int| 0 <= j < prev.len() && prev[j].parent_id == x && prev[j].child_id == y;
                assert(reqs[j] == (x, y));
            }
        }
        if reaches(prev, c, p) {
            lemma_reaches_mono(prev, edges, c, p);
        }
        if is_edge(prev, p, c) {
            let j = choose|j: int| 0 <= j < prev.len() && prev[j].parent_id == p && prev[j].child_id == c;
            assert(reqs[j] == reqs[m - 1]);
        }
        assert(link_ok(g.nodes@, prev, p, c));
        assert(request_edges(sub) =~= prev.push(Edge { parent_id: p, child_id: c }));
    }
}

/// Rebuilding a valid graph's links, node by node from each node's
/// prerequisites, gives exactly its links.
pub proof fn lemma_rebuild_links(g: FocusGraph)
    requires
        g.wf(),
    ensures
        forall|p: u128, c: u128|
            is_edge(link_all(g.nodes@, graph_requests(g.nodes@, g.edges@)), p, c) <==> is_edge(g.edges@, p, c),
{
    let reqs = graph_requests(g.nodes@, g.edges@);
    lemma_graph_requests_members(g.nodes@, g.edges@);
    lemma_graph_requests_distinct(g.nodes@, g);
    assert forall|k: int| 0 <= k < reqs.len() implies is_edge(g.edges@, (#[trigger] reqs[k]).0, reqs[k].1) by {
        assert(reqs.contains(reqs[k]));
    }
    lemma_link_all_grants(g, reqs, reqs.len() as int);
    assert(reqs.subrange(0, reqs.len() as int) =~= reqs);
    let res = request_edges(reqs);
    assert forall|p: u128, c: u128| is_edge(res, p, c) <==> is_edge(g.edges@, p, c) by {
        if is_edge(res, p, c) {
            let j = choose|j: int| 0 <= j < res.len() && res[j].parent_id == p && res[j].child_id == c;
            assert(reqs[j] == (p, c));
            assert(reqs.contains((p, c)));
        }
        if is_edge(g.edges@, p, c) {
            let k = choose|k: int| 0 <= k < g.edges@.len() && g.edges@[k].parent_id == p && g.edges@[k].child_id == c;
            assert(has_node(g.nodes@, g.edges@[k].child_id));
            assert(reqs.contains((p, c)));
            let j = choose|j: int| 0 <= j < reqs.len() && reqs[j] == (p, c);
            assert(res[j] == Edge { parent_id: p, child_id: c });
        }
    }
}

/// Adding nodes with distinct ids keeps them all.
pub proof fn lemma_added_nodes_distinct(nodes: Seq<FocusNode>)
    requires
        forall|i: int, j: int| 0 <= i < nodes.len() && 0 <= j < nodes.len() && i != j ==> nodes[i].id != nodes[j].id,
    ensures
        added_nodes(nodes) == nodes,
    decreases nodes.len(),
{
    if nodes.len() > 0 {
        let pre = nodes.drop_last();
        assert forall|i: int, j: int| 0 <= i < pre.len() && 0 <= j < pre.len() && i != j implies pre[i].id != pre[j].id by {
            assert(pre[i] == nodes[i] && pre[j] == nodes[j]);
        }
        lemma_added_nodes_distinct(pre);
        if has_node(pre, nodes.last().id) {
            let i = choose|i: int| 0 <= i < pre.len() && pre[i].id == nodes.last().id;
            assert(nodes[i] == pre[i]);
        }
        assert(pre.push(nodes.last()) =~= nodes);
    }
}

/// Asking for links never adds one twice.
pub proof fn lemma_link_all_distinct(nodes: Seq<FocusNode>, reqs: Seq<(u128, u128)>)
    ensures
        link_all(nodes, reqs).no_duplicates(),
    decreases reqs.len(),
{
    if reqs.len() > 0 {
        lemma_link_all_distinct(nodes, reqs.drop_last());
        let prev = link_all(nodes, reqs.drop_last());
        let (p, c) = reqs.last();
        if link_ok(nodes, prev, p, c) {
            let e = Edge { parent_id: p, child_id: c };
            let l = prev.push(e);
            assert forall|a: int, b: int| 0 <= a < l.len() && 0 <= b < l.len() && a != b implies l[a] != l[b] by {
                if a == prev.len() || b == prev.len() {
                    let k = if a == prev.len() { b } else { a };
                    assert(l[k] == prev[k]);
                    if prev[k] == e {
                        assert(is_edge(prev, p, c));
                    }
                }
            }
        }
    }
}

/// Two lists of distinct links with the same links have the same length.
pub proof fn lemma_same_links_same_count(a: Seq<Edge>, b: Seq<Edge>)
    requires
        a.no_duplicates(),
        b.no_duplicates(),
        forall|p: u128, c: u128| is_edge(a, p, c) <==> is_edge(b, p, c),
    ensures
        a.len() == b.len(),
{
    assert forall|e: Edge| a.to_set().contains(e) <==> b.to_set().contains(e) by {
        if a.contains(e) {
            let k = choose|k: int| 0 <= k < a.len() && a[k] == e;
            assert(is_edge(a, e.parent_id, e.child_id));
            let j = choose|j: int| 0 <= j < b.len() && b[j].parent_id == e.parent_id && b[j].child_id == e.child_id;
            assert(b[j] == e);
        }
        if b.contains(e) {
            let k = choose|k: int| 0 <= k < b.len() && b[k] == e;
            assert(is_edge(b, e.parent_id, e.child_id));
            let j = choose|j: int| 0 <= j < a.len() && a[j].parent_id == e.parent_id && a[j].child_id == e.child_id;
            assert(a[j] == e);
        }
    }
    assert(a.to_set() =~= b.to_set());
    a.unique_seq_to_set();
    b.unique_seq_to_set();
}

} // verus!
