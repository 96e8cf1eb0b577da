//! Writing computed coordinates into the graph: every task takes the row
//! of its layer and its computed column, except the frozen tasks, which
//! keep the place the user gave them.
use vstd::prelude::*;
use crate::models::{node_index, FocusGraph, FocusNode};
use crate::sugiyama::SugiyamaEngine;
use std::collections::{HashMap, HashSet};

verus! {

broadcast use vstd::std_specs::hash::group_hash_axioms;

/// The index of the last of `layers` that holds `id`.
pub open spec fn last_layer_of(layers: Seq<Seq<u128>>, id: u128) -> Option<int>
    decreases layers.len(),
{
    if layers.len() == 0 {
        None
    } else if layers.last().contains(id) {
        Some(layers.len() - 1)
    } else {
        last_layer_of(layers.drop_last(), id)
    }
}

/// The `i`-th node after the row pass: the first node with its id, unless
/// frozen, takes the row of the last layer that holds the id.
pub open spec fn y_placed(nodes: Seq<FocusNode>, i: int, layers: Seq<Seq<u128>>, ys: Seq<u32>, frozen: Set<u128>) -> FocusNode {
    let n = nodes[i];
    if !frozen.contains(n.id) && node_index(nodes, n.id) == Some(i) {
        match last_layer_of(layers, n.id) {
            Some(l) => FocusNode { y_bits: ys[l], ..n },
            None => n,
        }
    } else {
        n
    }
}

/// The `i`-th node after the column pass: the first node with its id, unless
/// frozen, takes the column computed for the id, if one was.
pub open spec fn x_placed(nodes: Seq<FocusNode>, i: int, xs: Map<u128, u32>, frozen: Set<u128>) -> FocusNode {
    let n = nodes[i];
    if !frozen.contains(n.id) && node_index(nodes, n.id) == Some(i) && xs.contains_key(n.id) {
        FocusNode { x_bits: xs[n.id], ..n }
    } else {
        n
    }
}

proof fn lemma_last_layer_push(s: Seq<Seq<u128>>, layer: Seq<u128>, id: u128)
    ensures
        last_layer_of(s.push(layer), id) == (if layer.contains(id) { Some(s.len() as int) } else { last_layer_of(s, id) }),
{
    assert(s.push(layer).drop_last() =~= s);
}

proof fn lemma_layer_grow(layer: Seq<u128>, m: int, x: u128)
    requires
        0 <= m < layer.len(),
        layer[m] == x,
    ensures
        forall|id: u128| layer.subrange(0, m + 1).contains(id) <==> (layer.subrange(0, m).contains(id) || id == x),
{
    assert forall|id: u128| layer.subrange(0, m + 1).contains(id) <==> (layer.subrange(0, m).contains(id) || id == x) by {
        if layer.subrange(0, m + 1).contains(id) {
            let k = choose|k: int| 0 <= k < m + 1 && #[trigger] layer.subrange(0, m + 1)[k] == id;
            if k < m {
                assert(layer.subrange(0, m)[k] == id);
            }
        }
        if layer.subrange(0, m).contains(id) {
            let k = choose|k: int| 0 <= k < m && #[trigger] layer.subrange(0, m)[k] == id;
            assert(layer.subrange(0, m + 1)[k] == id);
        }
        if id == x {
            assert(layer.subrange(0, m + 1)[m] == id);
        }
    }
}

/// Puts `node` at position `i`, where a node with the same id was.
fn set_node_at(graph: &mut FocusGraph, i: usize, node: FocusNode)
    requires
        i < old(graph).nodes@.len(),
        node.id == old(graph).nodes@[i as int].id,
    ensures
        final(graph).nodes@ == old(graph).nodes@.update(i as int, node),
        final(graph).edges@ == old(graph).edges@,
        old(graph).wf() ==> final(graph).wf(),
{
    let ghost g0 = *graph;
    graph.nodes.set(i, node);
    proof {
        let g = *graph;
        assert forall|k: u128| crate::models::has_node(g.nodes@, k) <==> crate::models::has_node(g0.nodes@, k) by {
            if crate::models::has_node(g.nodes@, k) {
                let j = choose|j: int| 0 <= j < g.nodes@.len() && g.nodes@[j].id == k;
                assert(g0.nodes@[j].id == k);
            }
            if crate::models::has_node(g0.nodes@, k) {
                let j = choose|j: int| 0 <= j < g0.nodes@.len() && g0.nodes@[j].id == k;
                assert(g.nodes@[j].id == k);
            }
        }
        if g0.wf() {
            assert forall|a: int, b: int| 0 <= a < g.nodes@.len() && 0 <= b < g.nodes@.len() && a != b implies g.nodes@[a].id != g.nodes@[b].id by {
                assert(g.nodes@[a].id == g0.nodes@[a].id);
                assert(g.nodes@[b].id == g0.nodes@[b].id);
            }
            assert forall|k: int| 0 <= k < g.edges@.len() implies crate::models::has_node(g.nodes@, #[trigger] g.edges@[k].parent_id)
                && crate::models::has_node(g.nodes@, g.edges@[k].child_id) by {
                assert(crate::models::has_node(g0.nodes@, g0.edges@[k].parent_id));
                assert(crate::models::has_node(g0.nodes@, g0.edges@[k].child_id));
            }
        }
    }
}

impl SugiyamaEngine {
    /// Gives every task the row of its layer: the tasks of `ordered_layers[l]`
    /// take the y coordinate `layer_y_bits[l]`; frozen tasks keep theirs.
    pub fn assign_y_coordinates(
        graph: &mut FocusGraph,
        ordered_layers: &Vec<Vec<u128>>,
        layer_y_bits: &Vec<u32>,
        frozen: &HashSet<u128>,
    )
        requires
            layer_y_bits@.len() == ordered_layers@.len(),
        ensures
            final(graph).edges@ == old(graph).edges@,
            final(graph).nodes@.len() == old(graph).nodes@.len(),
            forall|k: int| 0 <= k < old(graph).nodes@.len() ==> #[trigger] final(graph).nodes@[k] == y_placed(
                old(graph).nodes@,
                k,
                ordered_layers@.map_values(|l: Vec<u128>| l@),
                layer_y_bits@,
                frozen@,
            ),
            forall|k: int| 0 <= k < old(graph).nodes@.len() && frozen@.contains(#[trigger] old(graph).nodes@[k].id)
                ==> final(graph).nodes@[k] == old(graph).nodes@[k],
            old(graph).wf() ==> final(graph).wf(),
    {
        let ghost nodes0 = graph.nodes@;
        let ghost ls = ordered_layers@.map_values(|l: Vec<u128>| l@);
        let ghost wf0 = graph.wf();
        let mut l: usize = 0;
        while l < ordered_layers.len()
            invariant
                l <= ordered_layers@.len(),
                ls == ordered_layers@.map_values(|l: Vec<u128>| l@),
                layer_y_bits@.len() == ordered_layers@.len(),
                graph.edges@ == old(graph).edges@,
                nodes0 == old(graph).nodes@,
                wf0 == old(graph).wf(),
                wf0 ==> graph.wf(),
                graph.nodes@.len() == nodes0.len(),
                forall|k: int| 0 <= k < nodes0.len() ==> #[trigger] graph.nodes@[k] == y_placed(nodes0, k, ls.subrange(0, l as int), layer_y_bits@, frozen@),
            decreases ordered_layers@.len() - l,
        {
            let layer = &ordered_layers[l];
            let ghost base = ls.subrange(0, l as int);
            let mut m: usize = 0;
            proof {
                assert forall|k: int| 0 <= k < nodes0.len() implies #[trigger] graph.nodes@[k] == y_placed(nodes0, k, base.push(layer@.subrange(0, 0)), layer_y_bits@, frozen@) by {
                    lemma_last_layer_push(base, layer@.subrange(0, 0), nodes0[k].id);
                }
            }
            while m < layer.len()
                invariant
                    l < ordered_layers@.len(),
                    layer@ == ls[l as int],
                    base == ls.subrange(0, l as int),
                    m <= layer@.len(),
                    ls == ordered_layers@.map_values(|l: Vec<u128>| l@),
                    layer_y_bits@.len() == ordered_layers@.len(),
                    graph.edges@ == old(graph).edges@,
                    nodes0 == old(graph).nodes@,
                    wf0 == old(graph).wf(),
                    wf0 ==> graph.wf(),
                    graph.nodes@.len() == nodes0.len(),
                    forall|k: int| 0 <= k < nodes0.len() ==> #[trigger] graph.nodes@[k] == y_placed(nodes0, k, base.push(layer@.subrange(0, m as int)), layer_y_bits@, frozen@),
                decreases layer@.len() - m,
            {
                let id = layer[m];
                let ghost before = graph.nodes@;
                proof {
                    lemma_layer_grow(layer@, m as int, id);
                    assert forall|k: int| 0 <= k < nodes0.len() implies before[k].id == nodes0[k].id by {
                        assert(before[k] == y_placed(nodes0, k, base.push(layer@.subrange(0, m as int)), layer_y_bits@, frozen@));
                    }
                    assert forall|x: u128| #[trigger] node_index(before, x) == node_index(nodes0, x) by {
                        lemma_same_ids_index(before, nodes0, x);
                    }
                }
                if !frozen.contains(&id) {
                    match graph.node_position(id) {
                        Some(i) => {
                            let mut node = graph.nodes[i].clone();
                            node.y_bits = layer_y_bits[l];
                            set_node_at(graph, i, node);
                        },
                        None => {},
                    }
                }
                proof {
                    let after = base.push(layer@.subrange(0, m + 1));
                    let prior = base.push(layer@.subrange(0, m as int));
                    assert forall|k: int| 0 <= k < nodes0.len() implies #[trigger] graph.nodes@[k] == y_placed(nodes0, k, after, layer_y_bits@, frozen@) by {
                        lemma_last_layer_push(base, layer@.subrange(0, m + 1), nodes0[k].id);
                        lemma_last_layer_push(base, layer@.subrange(0, m as int), nodes0[k].id);
                        crate::models::lemma_node_index_props(nodes0, id);
                        if nodes0[k].id == id {
                            assert(last_layer_of(after, id) == Some(l as int));
                            assert(ls[l as int] == ordered_layers@[l as int]@);
                        }
                    }
                }
                m = m + 1;
            }
            proof {
                assert(layer@.subrange(0, layer@.len() as int) =~= layer@);
                assert(ls.subrange(0, l + 1) =~= base.push(layer@));
            }
            l = l + 1;
        }
        proof {
            assert(ls.subrange(0, ls.len() as int) =~= ls);
            assert forall|k: int| 0 <= k < nodes0.len() && frozen@.contains(#[trigger] nodes0[k].id) implies graph.nodes@[k] == nodes0[k] by {
                assert(graph.nodes@[k] == y_placed(nodes0, k, ls, layer_y_bits@, frozen@));
            }
        }
    }

    /// Gives every task the column computed for it in `positions`; frozen
    /// tasks, and tasks without a computed column, keep theirs.
    pub fn apply_x_coordinates(graph: &mut FocusGraph, positions: &HashMap<u128, u32>, frozen: &HashSet<u128>)
        ensures
            final(graph).edges@ == old(graph).edges@,
            final(graph).nodes@.len() == old(graph).nodes@.len(),
            forall|k: int| 0 <= k < old(graph).nodes@.len() ==> #[trigger] final(graph).nodes@[k] == x_placed(
                old(graph).nodes@,
                k,
                positions@,
                frozen@,
            ),
            forall|k: int| 0 <= k < old(graph).nodes@.len() && frozen@.contains(#[trigger] old(graph).nodes@[k].id)
                ==> final(graph).nodes@[k] == old(graph).nodes@[k],
            old(graph).wf() ==> final(graph).wf(),
    {
        let ghost nodes0 = graph.nodes@;
        let ghost wf0 = graph.wf();
        let mut k: usize = 0;
        while k < graph.nodes.len()
            invariant
                k <= graph.nodes@.len(),
                graph.edges@ == old(graph).edges@,
                nodes0 == old(graph).nodes@,
                wf0 == old(graph).wf(),
                wf0 ==> graph.wf(),
                graph.nodes@.len() == nodes0.len(),
                forall|j: int| 0 <= j < k ==> #[trigger] graph.nodes@[j] == x_placed(nodes0, j, positions@, frozen@),
                forall|j: int| k <= j < nodes0.len() ==> #[trigger] graph.nodes@[j] == nodes0[j],
            decreases nodes0.len() - k,
        {
            let id = graph.nodes[k].id;
            let ghost before = graph.nodes@;
            proof {
                assert forall|j: int| 0 <= j < nodes0.len() implies before[j].id == nodes0[j].id by {
                    if j < k {
                        assert(before[j] == x_placed(nodes0, j, positions@, frozen@));
                    }
                }
                lemma_same_ids_index(before, nodes0, id);
            }
            if !frozen.contains(&id) {
                match positions.get(&id) {
                    Some(x) => {
                        let first = match graph.node_position(id) {
                            Some(i) => i == k,
                            None => false,
                        };
                        if first {
                            let mut node = graph.nodes[k].clone();
                            node.x_bits = *x;
                            set_node_at(graph, k, node);
                        }
                    },
                    None => {},
                }
            }
            k = k + 1;
        }
        proof {
            assert forall|j: int| 0 <= j < nodes0.len() && frozen@.contains(#[trigger] nodes0[j].id) implies graph.nodes@[j] == nodes0[j] by {
                assert(graph.nodes@[j] == x_placed(nodes0, j, positions@, frozen@));
            }
        }
    }
}

/// Sequences of nodes with the same ids, position by position, find an id
/// at the same place.
proof fn lemma_same_ids_index(a: Seq<FocusNode>, b: Seq<FocusNode>, id: u128)
    requires
        a.len() == b.len(),
        forall|j: int| 0 <= j < a.len() ==> a[j].id == b[j].id,
    ensures
        node_index(a, id) == node_index(b, id),
    decreases a.len(),
{
    if a.len() > 0 {
        assert(a[0].id == b[0].id);
        assert forall|j: int| 0 <= j < a.drop_first().len() implies a.drop_first()[j].id == b.drop_first()[j].id by {
            assert(a[j + 1].id == b[j + 1].id);
        }
        lemma_same_ids_index(a.drop_first(), b.drop_first(), id);
    }
}

} // verus!
