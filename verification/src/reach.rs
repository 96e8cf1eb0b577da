//! Paths and reachability over a list of prerequisite edges.
use vstd::prelude::*;
use crate::models::Edge;

verus! {

/// There is an edge from `a` to `b` (`a` is a prerequisite of `b`).
pub open spec fn is_edge(edges: Seq<Edge>, a: u128, b: u128) -> bool {
    exists|i: int| 0 <= i < edges.len() && edges[i].parent_id == a && edges[i].child_id == b
}

/// `p` is a non-empty walk along edges.
pub open spec fn is_path(edges: Seq<Edge>, p: Seq<u128>) -> bool {
    &&& p.len() >= 1
    &&& forall|i: int| 0 <= i < p.len() - 1 ==> #[trigger] is_edge(edges, p[i], p[i + 1])
}

/// `b` can be reached from `a` by following edges (every node reaches itself).
pub open spec fn reaches(edges: Seq<Edge>, a: u128, b: u128) -> bool {
    exists|p: Seq<u128>| #[trigger] is_path(edges, p) && p[0] == a && p.last() == b
}

/// No edge closes a cycle: the child of an edge never reaches its parent.
pub open spec fn acyclic(edges: Seq<Edge>) -> bool {
    forall|i: int| 0 <= i < edges.len() ==> !reaches(edges, #[trigger] edges[i].child_id, edges[i].parent_id)
}

/// Every edge of `a` is an edge of `b`.
pub open spec fn edges_within(a: Seq<Edge>, b: Seq<Edge>) -> bool {
    forall|x: u128, y: u128| is_edge(a, x, y) ==> is_edge(b, x, y)
}

pub proof fn lemma_reaches_self(edges: Seq<Edge>, a: u128)
    ensures
        reaches(edges, a, a),
{
    let p = seq![a];
    assert(is_path(edges, p));
}

/// A reachable node followed by an edge is reachable.
pub proof fn lemma_reaches_extend(edges: Seq<Edge>, a: u128, b: u128, c: u128)
    requires
        reaches(edges, a, b),
        is_edge(edges, b, c),
    ensures
        reaches(edges, a, c),
{
    let p = choose|p: Seq<u128>| is_path(edges, p) && p[0] == a && p.last() == b;
    let q = p.push(c);
    assert forall|i: int| 0 <= i < q.len() - 1 implies #[trigger] is_edge(edges, q[i], q[i + 1]) by {
        if i < p.len() - 1 {
            assert(q[i] == p[i] && q[i + 1] == p[i + 1]);
            assert(is_edge(edges, p[i], p[i + 1]));
        }
    }
    assert(is_path(edges, q));
}

/// An edge followed by a reachable node is reachable.
pub proof fn lemma_reaches_prepend(edges: Seq<Edge>, a: u128, b: u128, c: u128)
    requires
        is_edge(edges, a, b),
        reaches(edges, b, c),
    ensures
        reaches(edges, a, c),
{
    let p = choose|p: Seq<u128>| is_path(edges, p) && p[0] == b && p.last() == c;
    let q = seq![a] + p;
    assert forall|i: int| 0 <= i < q.len() - 1 implies #[trigger] is_edge(edges, q[i], q[i + 1]) by {
        if i > 0 {
            assert(q[i] == p[i - 1] && q[i + 1] == p[i]);
            assert(is_edge(edges, p[i - 1], p[(i - 1) + 1]));
        }
    }
    assert(is_path(edges, q));
}

/// Reachability is transitive.
pub proof fn lemma_reaches_trans(edges: Seq<Edge>, a: u128, b: u128, c: u128)
    requires
        reaches(edges, a, b),
        reaches(edges, b, c),
    ensures
        reaches(edges, a, c),
{
    let p = choose|p: Seq<u128>| is_path(edges, p) && p[0] == a && p.last() == b;
    let q = choose|q: Seq<u128>| is_path(edges, q) && q[0] == b && q.last() == c;
    let r = p + q.drop_first();
    assert forall|i: int| 0 <= i < r.len() - 1 implies #[trigger] is_edge(edges, r[i], r[i + 1]) by {
        if i < p.len() - 1 {
            assert(r[i] == p[i] && r[i + 1] == p[i + 1]);
            assert(is_edge(edges, p[i], p[i + 1]));
        } else {
            let j = i - (p.len() - 1);
            assert(r[i] == q[j] && r[i + 1] == q[j + 1]);
            assert(is_edge(edges, q[j], q[j + 1]));
        }
    }
    assert(is_path(edges, r));
}

/// Reachability only grows with the edge set.
pub proof fn lemma_reaches_mono(a: Seq<Edge>, b: Seq<Edge>, x: u128, y: u128)
    requires
        edges_within(a, b),
        reaches(a, x, y),
    ensures
        reaches(b, x, y),
{
    let p = choose|p: Seq<u128>| is_path(a, p) && p[0] == x && p.last() == y;
    assert forall|i: int| 0 <= i < p.len() - 1 implies #[trigger] is_edge(b, p[i], p[i + 1]) by {
        assert(is_edge(a, p[i], p[i + 1]));
    }
    assert(is_path(b, p));
}

/// A path that may use one added edge `(u, v)` either avoids it, or passes
/// from `x` to `u` and from `v` to `y` without it.
pub proof fn lemma_reaches_with_added_edge(edges: Seq<Edge>, e: Edge, x: u128, p: Seq<u128>)
    requires
        is_path(edges.push(e), p),
        p[0] == x,
    ensures
        reaches(edges, x, p.last()) || (reaches(edges, x, e.parent_id) && reaches(
            edges,
            e.child_id,
            p.last(),
        )),
    decreases p.len(),
{
    let ext = edges.push(e);
    if p.len() == 1 {
        lemma_reaches_self(edges, x);
    } else {
        let q = p.drop_last();
        assert forall|i: int| 0 <= i < q.len() - 1 implies #[trigger] is_edge(ext, q[i], q[i + 1]) by {
            assert(q[i] == p[i] && q[i + 1] == p[i + 1]);
            assert(is_edge(ext, p[i], p[i + 1]));
        }
        lemma_reaches_with_added_edge(edges, e, x, q);
        let a = q.last();
        let b = p.last();
        assert(a == p[p.len() - 2]);
        assert(is_edge(ext, p[p.len() - 2], p[p.len() - 2 + 1]));
        let k = choose|k: int|
            0 <= k < ext.len() && ext[k].parent_id == a && ext[k].child_id == b;
        if k < edges.len() {
            assert(edges[k] == ext[k]);
            assert(is_edge(edges, a, b));
            if reaches(edges, x, a) {
                lemma_reaches_extend(edges, x, a, b);
            } else {
                lemma_reaches_extend(edges, e.child_id, a, b);
            }
        } else {
            assert(ext[k] == e);
            lemma_reaches_self(edges, e.child_id);
            if reaches(edges, x, a) {
            }
        }
    }
}

/// Appending an edge whose child does not reach its parent keeps the edges acyclic.
pub proof fn lemma_acyclic_push(edges: Seq<Edge>, e: Edge)
    requires
        acyclic(edges),
        !reaches(edges, e.child_id, e.parent_id),
    ensures
        acyclic(edges.push(e)),
{
    let ext = edges.push(e);
    assert forall|i: int| 0 <= i < ext.len() implies !reaches(ext, #[trigger] ext[i].child_id, ext[i].parent_id) by {
        let c = ext[i].child_id;
        let par = ext[i].parent_id;
        if reaches(ext, c, par) {
            let p = choose|p: Seq<u128>| is_path(ext, p) && p[0] == c && p.last() == par;
            lemma_reaches_with_added_edge(edges, e, c, p);
            if i < edges.len() {
                assert(edges[i] == ext[i]);
                if reaches(edges, c, par) {
                    assert(!reaches(edges, edges[i].child_id, edges[i].parent_id));
                } else {
                    // c reaches e.parent and e.child reaches par; with edge (par, c) this closes a cycle
                    assert(is_edge(edges, par, c));
                    lemma_reaches_prepend(edges, par, c, e.parent_id);
                    lemma_reaches_trans(edges, e.child_id, par, e.parent_id);
                }
            } else {
                assert(ext[i] == e);
            }
        }
    }
}

/// Removing edges keeps them acyclic.
pub proof fn lemma_acyclic_sub(a: Seq<Edge>, b: Seq<Edge>)
    requires
        acyclic(b),
        edges_within(a, b),
    ensures
        acyclic(a),
{
    assert forall|i: int| 0 <= i < a.len() implies !reaches(a, #[trigger] a[i].child_id, a[i].parent_id) by {
        assert(is_edge(a, a[i].parent_id, a[i].child_id));
        assert(is_edge(b, a[i].parent_id, a[i].child_id));
        let k = choose|k: int|
            0 <= k < b.len() && b[k].parent_id == a[i].parent_id && b[k].child_id == a[i].child_id;
        if reaches(a, a[i].child_id, a[i].parent_id) {
            lemma_reaches_mono(a, b, a[i].child_id, a[i].parent_id);
            assert(!reaches(b, b[k].child_id, b[k].parent_id));
        }
    }
}

} // verus!
