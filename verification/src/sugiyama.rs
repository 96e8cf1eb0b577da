//! The layered (Sugiyama) layout plan of the focus tree.
//!
//! Tasks are put on layers by their level, each layer is ordered to reduce
//! link crossings by barycenter sweeps, and every task below the top layer
//! is classed by its prerequisites: one prerequisite makes it a child in
//! that prerequisite's subtree, several make it an independent merge task.
//! Turning the plan into canvas coordinates is floating-point work and is
//! done by the caller.
use vstd::prelude::*;
use crate::levels::is_level_assignment;
use crate::models::{children_spec, has_node, parents_spec, FocusGraph};
use std::collections::HashMap;

verus! {

broadcast use vstd::std_specs::hash::group_hash_axioms;

/// Scale applied to barycenters before the integer division.
pub const BARYCENTER_SCALE_FACTOR: usize = 1000;

/// Number of down-and-up sweep pairs.
pub const CROSSING_REDUCTION_PASSES: usize = 4;

/// Index of the first occurrence of `x` in `s`.
pub open spec fn first_index(s: Seq<u128>, x: u128) -> int
    decreases s.len(),
{
    if s.len() == 0 {
        -1
    } else if s[0] == x {
        0
    } else {
        let r = first_index(s.drop_first(), x);
        if r < 0 {
            -1
        } else {
            r + 1
        }
    }
}

/// The position of each task of a layer, later occurrences winning.
pub open spec fn position_map(layer: Seq<u128>) -> Map<u128, usize>
    decreases layer.len(),
{
    if layer.len() == 0 {
        Map::empty()
    } else {
        position_map(layer.drop_last()).insert(layer.last(), (layer.len() - 1) as usize)
    }
}

/// Sum of the positions of the given tasks that have one.
pub open spec fn sum_positions(ns: Seq<u128>, pm: Map<u128, usize>) -> int
    decreases ns.len(),
{
    if ns.len() == 0 {
        0
    } else {
        sum_positions(ns.drop_last(), pm) + if pm.contains_key(ns.last()) {
            pm[ns.last()] as int
        } else {
            0
        }
    }
}

/// The scaled average position of the neighbours (0 without neighbours).
pub open spec fn barycenter(ns: Seq<u128>, pm: Map<u128, usize>) -> int {
    if ns.len() == 0 {
        0
    } else {
        (sum_positions(ns, pm) * BARYCENTER_SCALE_FACTOR) / (ns.len() as int)
    }
}

/// Prerequisites (going down) or dependants (going up) of a task.
pub open spec fn neighbors(g: FocusGraph, id: u128, down: bool) -> Seq<u128> {
    if down {
        parents_spec(g.edges@, id)
    } else {
        children_spec(g.edges@, id)
    }
}

/// The sort key of a task against a reference layer.
pub open spec fn bary_key(g: FocusGraph, refl: Seq<u128>, down: bool) -> spec_fn(u128) -> int {
    |id: u128| barycenter(neighbors(g, id, down), position_map(refl))
}

/// `x` comes before `y`: smaller key, or equal key and earlier in `input`.
pub open spec fn ranks_before(input: Seq<u128>, key: spec_fn(u128) -> int, x: u128, y: u128) -> bool {
    key(x) < key(y) || (key(x) == key(y) && first_index(input, x) < first_index(input, y))
}

/// `out` is `input` stably sorted by `key`.
pub open spec fn is_stable_sort(input: Seq<u128>, out: Seq<u128>, key: spec_fn(u128) -> int) -> bool {
    &&& out.len() == input.len()
    &&& out.no_duplicates()
    &&& forall|x: u128| out.contains(x) <==> input.contains(x)
    &&& forall|i: int, j: int|
        0 <= i < j < out.len() ==> ranks_before(input, key, #[trigger] out[i], #[trigger] out[j])
}

/// `input` stably sorted by `key`.
pub open spec fn stable_sorted(input: Seq<u128>, key: spec_fn(u128) -> int) -> Seq<u128> {
    choose|out: Seq<u128>| is_stable_sort(input, out, key)
}

/// Layers `1..i` re-sorted top-down, each against the one above it.
pub open spec fn sweep_down_upto(g: FocusGraph, layers: Seq<Seq<u128>>, i: nat) -> Seq<Seq<u128>>
    decreases i,
{
    if i <= 1 || i > layers.len() {
        layers
    } else {
        let prev = sweep_down_upto(g, layers, (i - 1) as nat);
        prev.update(i - 1, stable_sorted(prev[i - 1], bary_key(g, prev[i - 2], true)))
    }
}

/// Layers `len - 1 - n .. len - 1` re-sorted bottom-up, each against the one below it.
pub open spec fn sweep_up_count(g: FocusGraph, layers: Seq<Seq<u128>>, n: nat) -> Seq<Seq<u128>>
    decreases n,
{
    if n == 0 || n >= layers.len() {
        layers
    } else {
        let prev = sweep_up_count(g, layers, (n - 1) as nat);
        let i = layers.len() - 1 - n;
        prev.update(i, stable_sorted(prev[i], bary_key(g, prev[i + 1], false)))
    }
}

pub open spec fn sweep_down(g: FocusGraph, layers: Seq<Seq<u128>>) -> Seq<Seq<u128>> {
    sweep_down_upto(g, layers, layers.len())
}

pub open spec fn sweep_up(g: FocusGraph, layers: Seq<Seq<u128>>) -> Seq<Seq<u128>> {
    if layers.len() == 0 {
        layers
    } else {
        sweep_up_count(g, layers, (layers.len() - 1) as nat)
    }
}

/// `passes` rounds of a downward then an upward sweep.
pub open spec fn crossing_reduction(g: FocusGraph, layers: Seq<Seq<u128>>, passes: nat) -> Seq<Seq<u128>>
    decreases passes,
{
    if passes == 0 {
        layers
    } else {
        sweep_up(g, sweep_down(g, crossing_reduction(g, layers, (passes - 1) as nat)))
    }
}

/// The layers as plain sequences.
pub open spec fn layer_views(v: Seq<Vec<u128>>) -> Seq<Seq<u128>> {
    v.map_values(|x: Vec<u128>| x@)
}

/// Every layer holds distinct tasks.
pub open spec fn layers_distinct(layers: Seq<Seq<u128>>) -> bool {
    forall|l: int| 0 <= l < layers.len() ==> (#[trigger] layers[l]).no_duplicates()
}

pub proof fn lemma_first_index(s: Seq<u128>, x: u128)
    ensures
        s.contains(x) ==> 0 <= first_index(s, x) < s.len() && s[first_index(s, x)] == x,
        !s.contains(x) ==> first_index(s, x) == -1,
        s.no_duplicates() ==> forall|i: int| 0 <= i < s.len() && s[i] == x ==> first_index(s, x) == i,
    decreases s.len(),
{
    if s.len() > 0 {
        lemma_first_index(s.drop_first(), x);
        if s[0] != x {
            if s.contains(x) {
                let i = choose|i: int| 0 <= i < s.len() && s[i] == x;
                assert(s.drop_first()[i - 1] == x);
            }
            if s.drop_first().contains(x) {
                let i = choose|i: int| 0 <= i < s.drop_first().len() && s.drop_first()[i] == x;
                assert(s[i + 1] == x);
            }
            if s.no_duplicates() {
                assert(s.drop_first().no_duplicates()) by {
                    assert forall|a: int, b: int| 0 <= a < s.drop_first().len() && 0 <= b < s.drop_first().len() && a != b
                        implies s.drop_first()[a] != s.drop_first()[b] by {
                        assert(s[a + 1] != s[b + 1]);
                    }
                }
                assert forall|i: int| 0 <= i < s.len() && s[i] == x implies first_index(s, x) == i by {
                    assert(i != 0);
                    assert(s.drop_first()[i - 1] == x);
                }
            }
        } else {
            if s.no_duplicates() {
                assert forall|i: int| 0 <= i < s.len() && s[i] == x implies first_index(s, x) == i by {
                    if i != 0 {
                        assert(s[i] == s[0]);
                    }
                }
            }
        }
    }
}

/// Two sequences strictly ordered by the same ranking and holding the same
/// tasks are equal.
pub proof fn lemma_ranked_unique(input: Seq<u128>, key: spec_fn(u128) -> int, a: Seq<u128>, b: Seq<u128>)
    requires
        input.no_duplicates(),
        forall|x: u128| a.contains(x) ==> input.contains(x),
        forall|x: u128| a.contains(x) <==> b.contains(x),
        forall|i: int, j: int| 0 <= i < j < a.len() ==> ranks_before(input, key, #[trigger] a[i], #[trigger] a[j]),
        forall|i: int, j: int| 0 <= i < j < b.len() ==> ranks_before(input, key, #[trigger] b[i], #[trigger] b[j]),
    ensures
        a == b,
    decreases a.len() + b.len(),
{
    if a.len() == 0 {
        if b.len() > 0 {
            assert(b.contains(b[0]));
        }
        assert(a =~= b);
    } else if b.len() == 0 {
        assert(a.contains(a[0]));
    } else {
        assert(a.contains(a[0]));
        assert(b.contains(b[0]));
        let j = choose|j: int| 0 <= j < b.len() && b[j] == a[0];
        let i = choose|i: int| 0 <= i < a.len() && a[i] == b[0];
        lemma_first_index(input, a[0]);
        lemma_first_index(input, b[0]);
        if j > 0 && i > 0 {
            assert(ranks_before(input, key, b[0], b[j]));
            assert(ranks_before(input, key, a[0], a[i]));
        }
        if j > 0 && i == 0 {
            assert(ranks_before(input, key, b[0], b[j]));
        }
        if i > 0 && j == 0 {
            assert(ranks_before(input, key, a[0], a[i]));
        }
        assert(a[0] == b[0]);
        let a2 = a.drop_first();
        let b2 = b.drop_first();
        assert forall|x: u128| a2.contains(x) <==> b2.contains(x) by {
            if a2.contains(x) {
                let k = choose|k: int| 0 <= k < a2.len() && a2[k] == x;
                assert(a.contains(x));
                assert(ranks_before(input, key, a[0], a[k + 1]));
                let m = choose|m: int| 0 <= m < b.len() && b[m] == x;
                if m == 0 {
                    lemma_first_index(input, x);
                }
                assert(b2[m - 1] == x);
            }
            if b2.contains(x) {
                let k = choose|k: int| 0 <= k < b2.len() && b2[k] == x;
                assert(b.contains(x));
                assert(ranks_before(input, key, b[0], b[k + 1]));
                let m = choose|m: int| 0 <= m < a.len() && a[m] == x;
                if m == 0 {
                    lemma_first_index(input, x);
                }
                assert(a2[m - 1] == x);
            }
        }
        assert forall|x: u128| a2.contains(x) implies input.contains(x) by {
            let k = choose|k: int| 0 <= k < a2.len() && a2[k] == x;
            assert(a[k + 1] == x);
        }
        assert forall|p: int, q: int| 0 <= p < q < a2.len() implies ranks_before(input, key, #[trigger] a2[p], #[trigger] a2[q]) by {
            assert(ranks_before(input, key, a[p + 1], a[q + 1]));
        }
        assert forall|p: int, q: int| 0 <= p < q < b2.len() implies ranks_before(input, key, #[trigger] b2[p], #[trigger] b2[q]) by {
            assert(ranks_before(input, key, b[p + 1], b[q + 1]));
        }
        lemma_ranked_unique(input, key, a2, b2);
        assert(a =~= b) by {
            assert forall|k: int| 0 <= k < a.len() implies a[k] == b[k] by {
                if k > 0 {
                    assert(a[k] == a2[k - 1] && b[k] == b2[k - 1]);
                }
            }
        }
    }
}

/// A stable sort of distinct tasks is the stable sort.
pub proof fn lemma_stable_sort_is(input: Seq<u128>, out: Seq<u128>, key: spec_fn(u128) -> int)
    requires
        input.no_duplicates(),
        is_stable_sort(input, out, key),
    ensures
        stable_sorted(input, key) == out,
{
    let s = stable_sorted(input, key);
    assert(is_stable_sort(input, s, key));
    lemma_ranked_unique(input, key, s, out);
}

/// `s` is strictly ordered by the ranking of `input` and `key`.
pub open spec fn ranked(input: Seq<u128>, key: spec_fn(u128) -> int, s: Seq<u128>) -> bool {
    forall|i: int, j: int| 0 <= i < j < s.len() ==> ranks_before(input, key, #[trigger] s[i], #[trigger] s[j])
}

/// `x` put into the ranked sequence `s` at its place.
pub open spec fn insert_ranked(input: Seq<u128>, key: spec_fn(u128) -> int, s: Seq<u128>, x: u128) -> Seq<u128>
    decreases s.len(),
{
    if s.len() == 0 {
        seq![x]
    } else if ranks_before(input, key, s.last(), x) {
        s.push(x)
    } else {
        insert_ranked(input, key, s.drop_last(), x).push(s.last())
    }
}

/// The first `n` tasks of `input`, ranked.
pub open spec fn ranked_prefix(input: Seq<u128>, key: spec_fn(u128) -> int, n: nat) -> Seq<u128>
    decreases n,
{
    if n == 0 || n > input.len() {
        Seq::empty()
    } else {
        insert_ranked(input, key, ranked_prefix(input, key, (n - 1) as nat), input[n - 1])
    }
}

proof fn lemma_ranks_total(input: Seq<u128>, key: spec_fn(u128) -> int, x: u128, y: u128)
    requires
        input.contains(x),
        input.contains(y),
        x != y,
    ensures
        ranks_before(input, key, x, y) || ranks_before(input, key, y, x),
{
    lemma_first_index(input, x);
    lemma_first_index(input, y);
}

proof fn lemma_insert_ranked(input: Seq<u128>, key: spec_fn(u128) -> int, s: Seq<u128>, x: u128)
    requires
        ranked(input, key, s),
        forall|y: u128| s.contains(y) ==> input.contains(y),
        input.contains(x),
        !s.contains(x),
    ensures
        insert_ranked(input, key, s, x).len() == s.len() + 1,
        forall|y: u128| insert_ranked(input, key, s, x).contains(y) <==> (s.contains(y) || y == x),
        ranked(input, key, insert_ranked(input, key, s, x)),
    decreases s.len(),
{
    let r = insert_ranked(input, key, s, x);
    if s.len() == 0 {
        assert forall|y: u128| r.contains(y) <==> (s.contains(y) || y == x) by {
            if r.contains(y) {
                let k = choose|k: int| 0 <= k < r.len() && r[k] == y;
            }
            if y == x {
                assert(r[0] == y);
            }
        }
    } else if ranks_before(input, key, s.last(), x) {
        lemma_push_contains(s, x, x);
        assert forall|y: u128| r.contains(y) <==> (s.contains(y) || y == x) by {
            lemma_push_contains(s, x, y);
        }
        assert forall|i: int, j: int| 0 <= i < j < r.len() implies ranks_before(input, key, #[trigger] r[i], #[trigger] r[j]) by {
            if j < s.len() {
                assert(r[i] == s[i] && r[j] == s[j]);
            } else if i < s.len() - 1 {
                assert(ranks_before(input, key, s[i], s[s.len() - 1]));
            }
        }
    } else {
        let pre = s.drop_last();
        assert(s.contains(s.last()));
        lemma_ranks_total(input, key, x, s.last());
        assert forall|i: int, j: int| 0 <= i < j < pre.len() implies ranks_before(input, key, #[trigger] pre[i], #[trigger] pre[j]) by {
            assert(pre[i] == s[i] && pre[j] == s[j]);
        }
        assert forall|y: u128| pre.contains(y) implies input.contains(y) && s.contains(y) by {
            let k = choose|k: int| 0 <= k < pre.len() && pre[k] == y;
            assert(s[k] == y);
        }
        lemma_insert_ranked(input, key, pre, x);
        let t = insert_ranked(input, key, pre, x);
        assert(r == t.push(s.last()));
        lemma_push_contains(pre, s.last(), s.last());
        assert(pre.push(s.last()) =~= s);
        assert forall|y: u128| r.contains(y) <==> (s.contains(y) || y == x) by {
            lemma_push_contains(t, s.last(), y);
            lemma_push_contains(pre, s.last(), y);
        }
        assert forall|i: int, j: int| 0 <= i < j < r.len() implies ranks_before(input, key, #[trigger] r[i], #[trigger] r[j]) by {
            if j < t.len() {
                assert(r[i] == t[i] && r[j] == t[j]);
            } else {
                assert(r[i] == t[i]);
                assert(t.contains(t[i]));
                if t[i] != x {
                    assert(pre.contains(t[i]));
                    let m = choose|m: int| 0 <= m < pre.len() && pre[m] == t[i];
                    assert(ranks_before(input, key, s[m], s[s.len() - 1]));
                }
            }
        }
    }
}

proof fn lemma_ranked_prefix(input: Seq<u128>, key: spec_fn(u128) -> int, n: nat)
    requires
        input.no_duplicates(),
        n <= input.len(),
    ensures
        ranked_prefix(input, key, n).len() == n,
        forall|y: u128| ranked_prefix(input, key, n).contains(y) <==> input.take(n as int).contains(y),
        ranked(input, key, ranked_prefix(input, key, n)),
    decreases n,
{
    if n > 0 {
        let m = (n - 1) as nat;
        lemma_ranked_prefix(input, key, m);
        let s = ranked_prefix(input, key, m);
        assert(input.take(n as int) =~= input.take(m as int).push(input[m as int]));
        assert forall|y: u128| s.contains(y) implies input.contains(y) by {
            let k = choose|k: int| 0 <= k < input.take(m as int).len() && input.take(m as int)[k] == y;
            assert(input[k] == y);
        }
        assert(!s.contains(input[m as int])) by {
            if s.contains(input[m as int]) {
                let k = choose|k: int| 0 <= k < input.take(m as int).len() && input.take(m as int)[k] == input[m as int];
                assert(input[k] == input[m as int]);
            }
        }
        assert(input.contains(input[m as int]));
        lemma_insert_ranked(input, key, s, input[m as int]);
        assert forall|y: u128| ranked_prefix(input, key, n).contains(y) <==> input.take(n as int).contains(y) by {
            lemma_push_contains(input.take(m as int), input[m as int], y);
        }
    } else {
        assert(input.take(0) =~= Seq::<u128>::empty());
    }
}

/// Distinct tasks can always be stably sorted.
pub proof fn lemma_stable_sort_exists(input: Seq<u128>, key: spec_fn(u128) -> int)
    requires
        input.no_duplicates(),
    ensures
        is_stable_sort(input, stable_sorted(input, key), key),
{
    let out = ranked_prefix(input, key, input.len());
    lemma_ranked_prefix(input, key, input.len());
    assert(input.take(input.len() as int) =~= input);
    assert forall|a: int, b: int| 0 <= a < out.len() && 0 <= b < out.len() && a != b implies out[a] != out[b] by {
        if a < b {
            assert(ranks_before(input, key, out[a], out[b]));
        } else {
            assert(ranks_before(input, key, out[b], out[a]));
        }
    }
    assert(is_stable_sort(input, out, key));
}

proof fn lemma_sweep_down_upto(g: FocusGraph, layers: Seq<Seq<u128>>, n: nat)
    requires
        layers_distinct(layers),
        n <= layers.len(),
    ensures
        sweep_down_upto(g, layers, n).len() == layers.len(),
        forall|k: int| 0 <= k < layers.len() && (k == 0 || k >= n) ==> #[trigger] sweep_down_upto(g, layers, n)[k] == layers[k],
        forall|k: int| 1 <= k < n ==> is_stable_sort(layers[k], #[trigger] sweep_down_upto(g, layers, n)[k],
            bary_key(g, sweep_down_upto(g, layers, n)[k - 1], true)),
    decreases n,
{
    if n > 1 {
        let m = (n - 1) as nat;
        lemma_sweep_down_upto(g, layers, m);
        let prev = sweep_down_upto(g, layers, m);
        assert(prev[n - 1] == layers[n - 1]);
        assert(layers[n - 1].no_duplicates());
        lemma_stable_sort_exists(layers[n - 1], bary_key(g, prev[n - 2], true));
        let r = sweep_down_upto(g, layers, n);
        assert(r == prev.update(n - 1, stable_sorted(prev[n - 1], bary_key(g, prev[n - 2], true))));
        assert forall|k: int| 1 <= k < n implies is_stable_sort(layers[k], #[trigger] r[k], bary_key(g, r[k - 1], true)) by {
            if k < n - 1 {
                assert(r[k] == prev[k] && r[k - 1] == prev[k - 1]);
            } else {
                assert(r[k - 1] == prev[k - 1]);
            }
        }
    }
}

proof fn lemma_sweep_up_count(g: FocusGraph, layers: Seq<Seq<u128>>, n: nat)
    requires
        layers_distinct(layers),
        n < layers.len(),
    ensures
        sweep_up_count(g, layers, n).len() == layers.len(),
        forall|k: int| 0 <= k < layers.len() && (k == layers.len() - 1 || k < layers.len() - 1 - n)
            ==> #[trigger] sweep_up_count(g, layers, n)[k] == layers[k],
        forall|k: int| layers.len() - 1 - n <= k < layers.len() - 1 ==> is_stable_sort(layers[k],
            #[trigger] sweep_up_count(g, layers, n)[k], bary_key(g, sweep_up_count(g, layers, n)[k + 1], false)),
    decreases n,
{
    if n > 0 {
        let m = (n - 1) as nat;
        lemma_sweep_up_count(g, layers, m);
        let prev = sweep_up_count(g, layers, m);
        let i = layers.len() - 1 - n;
        assert(prev[i] == layers[i]);
        assert(layers[i].no_duplicates());
        lemma_stable_sort_exists(layers[i], bary_key(g, prev[i + 1], false));
        let r = sweep_up_count(g, layers, n);
        assert(r == prev.update(i, stable_sorted(prev[i], bary_key(g, prev[i + 1], false))));
        assert forall|k: int| i <= k < layers.len() - 1 implies is_stable_sort(layers[k], #[trigger] r[k], bary_key(g, r[k + 1], false)) by {
            if k > i {
                assert(r[k] == prev[k] && r[k + 1] == prev[k + 1]);
            } else {
                assert(r[k + 1] == prev[k + 1]);
            }
        }
    }
}

/// A downward sweep keeps the top layer and the tasks of every layer, and
/// orders each lower layer by the average position of each task's
/// prerequisites in the (already reordered) layer above it, ties keeping
/// their earlier order.
pub proof fn lemma_sweep_down_orders_by_prerequisites(g: FocusGraph, layers: Seq<Seq<u128>>)
    requires
        layers_distinct(layers),
    ensures
        ({
            let r = sweep_down(g, layers);
            &&& r.len() == layers.len()
            &&& layers.len() > 0 ==> r[0] == layers[0]
            &&& layers_distinct(r)
            &&& forall|k: int, x: u128| 0 <= k < layers.len() ==> (#[trigger] r[k].contains(x) <==> layers[k].contains(x))
            &&& forall|k: int, a: int, b: int| 1 <= k < r.len() && 0 <= a < b < r[k].len() ==>
                barycenter(parents_spec(g.edges@, #[trigger] r[k][a]), position_map(r[k - 1]))
                    <= barycenter(parents_spec(g.edges@, #[trigger] r[k][b]), position_map(r[k - 1]))
        }),
{
    let r = sweep_down(g, layers);
    lemma_sweep_down_upto(g, layers, layers.len());
    assert forall|k: int| 0 <= k < r.len() implies (#[trigger] r[k]).no_duplicates() by {
        if k >= 1 {
            assert(is_stable_sort(layers[k], r[k], bary_key(g, r[k - 1], true)));
        }
    }
    assert forall|k: int, a: int, b: int| 1 <= k < r.len() && 0 <= a < b < r[k].len() implies
        barycenter(parents_spec(g.edges@, #[trigger] r[k][a]), position_map(r[k - 1]))
            <= barycenter(parents_spec(g.edges@, #[trigger] r[k][b]), position_map(r[k - 1])) by {
        assert(is_stable_sort(layers[k], r[k], bary_key(g, r[k - 1], true)));
        assert(ranks_before(layers[k], bary_key(g, r[k - 1], true), r[k][a], r[k][b]));
    }
    assert forall|k: int, x: u128| 0 <= k < layers.len() implies (#[trigger] r[k].contains(x) <==> layers[k].contains(x)) by {
        if k >= 1 {
            assert(is_stable_sort(layers[k], r[k], bary_key(g, r[k - 1], true)));
        }
    }
}

/// An upward sweep keeps the bottom layer and the tasks of every layer,
/// and orders each higher layer by the average position of each task's
/// dependants in the (already reordered) layer below it, ties keeping
/// their earlier order.
pub proof fn lemma_sweep_up_orders_by_dependants(g: FocusGraph, layers: Seq<Seq<u128>>)
    requires
        layers_distinct(layers),
    ensures
        ({
            let r = sweep_up(g, layers);
            &&& r.len() == layers.len()
            &&& layers.len() > 0 ==> r[layers.len() - 1] == layers[layers.len() - 1]
            &&& layers_distinct(r)
            &&& forall|k: int, x: u128| 0 <= k < layers.len() ==> (#[trigger] r[k].contains(x) <==> layers[k].contains(x))
            &&& forall|k: int, a: int, b: int| 0 <= k < r.len() - 1 && 0 <= a < b < r[k].len() ==>
                barycenter(children_spec(g.edges@, #[trigger] r[k][a]), position_map(r[k + 1]))
                    <= barycenter(children_spec(g.edges@, #[trigger] r[k][b]), position_map(r[k + 1]))
        }),
{
    if layers.len() > 0 {
        let r = sweep_up(g, layers);
        lemma_sweep_up_count(g, layers, (layers.len() - 1) as nat);
        assert forall|k: int| 0 <= k < r.len() implies (#[trigger] r[k]).no_duplicates() by {
            if k < r.len() - 1 {
                assert(is_stable_sort(layers[k], r[k], bary_key(g, r[k + 1], false)));
            }
        }
        assert forall|k: int, a: int, b: int| 0 <= k < r.len() - 1 && 0 <= a < b < r[k].len() implies
            barycenter(children_spec(g.edges@, #[trigger] r[k][a]), position_map(r[k + 1]))
                <= barycenter(children_spec(g.edges@, #[trigger] r[k][b]), position_map(r[k + 1])) by {
            assert(is_stable_sort(layers[k], r[k], bary_key(g, r[k + 1], false)));
            assert(ranks_before(layers[k], bary_key(g, r[k + 1], false), r[k][a], r[k][b]));
        }
        assert forall|k: int, x: u128| 0 <= k < layers.len() implies (#[trigger] r[k].contains(x) <==> layers[k].contains(x)) by {
            if k < r.len() - 1 {
                assert(is_stable_sort(layers[k], r[k], bary_key(g, r[k + 1], false)));
            }
        }
    }
}

/// Crossing reduction keeps the tasks of every layer, and after at least
/// one round each layer but the last is ordered by the average position of
/// its tasks' dependants in the layer below it.
pub proof fn lemma_crossing_reduction_orders_layers(g: FocusGraph, layers: Seq<Seq<u128>>, passes: nat)
    requires
        layers_distinct(layers),
    ensures
        ({
            let r = crossing_reduction(g, layers, passes);
            &&& r.len() == layers.len()
            &&& layers_distinct(r)
            &&& forall|k: int, x: u128| 0 <= k < layers.len() ==> (#[trigger] r[k].contains(x) <==> layers[k].contains(x))
            &&& passes >= 1 ==> forall|k: int, a: int, b: int| 0 <= k < r.len() - 1 && 0 <= a < b < r[k].len() ==>
                barycenter(children_spec(g.edges@, #[trigger] r[k][a]), position_map(r[k + 1]))
                    <= barycenter(children_spec(g.edges@, #[trigger] r[k][b]), position_map(r[k + 1]))
        }),
    decreases passes,
{
    if passes > 0 {
        let prev = crossing_reduction(g, layers, (passes - 1) as nat);
        lemma_crossing_reduction_orders_layers(g, layers, (passes - 1) as nat);
        let d = sweep_down(g, prev);
        lemma_sweep_down_orders_by_prerequisites(g, prev);
        lemma_sweep_up_orders_by_dependants(g, d);
        let r = crossing_reduction(g, layers, passes);
        assert(r == sweep_up(g, d));
        assert forall|k: int, x: u128| 0 <= k < layers.len() implies (#[trigger] r[k].contains(x) <==> layers[k].contains(x)) by {
            assert(r[k].contains(x) <==> d[k].contains(x));
            assert(d[k].contains(x) <==> prev[k].contains(x));
        }
    }
}

pub struct SugiyamaEngine;

/// The layout plan: ordered layers, the subtree children of each task, and
/// the merge tasks in layer order.
pub struct LayoutPlan {
    pub ordered_layers: Vec<Vec<u128>>,
    pub children_of_primary: HashMap<u128, Vec<u128>>,
    pub independent_nodes: Vec<u128>,
}

/// Positions recorded for a layer are below its length.
pub proof fn lemma_position_map_bound(layer: Seq<u128>)
    ensures
        forall|k: u128| position_map(layer).contains_key(k) ==> position_map(layer)[k] < layer.len(),
    decreases layer.len(),
{
    if layer.len() > 0 {
        lemma_position_map_bound(layer.drop_last());
        let m = position_map(layer.drop_last());
        assert forall|k: u128| position_map(layer).contains_key(k) implies position_map(layer)[k] < layer.len() by {
            if k != layer.last() {
                assert(m.contains_key(k));
            }
        }
    }
}

/// Every task's prerequisites, and its dependants, can be summed at
/// positions below `b` and scaled without overflow.
pub open spec fn neighbors_fit(g: FocusGraph, b: int) -> bool {
    forall|id: u128, down: bool| #[trigger] neighbors(g, id, down).len() * b * BARYCENTER_SCALE_FACTOR <= usize::MAX
}

/// Fitting below `b` means fitting below anything smaller.
pub proof fn lemma_neighbors_fit_smaller(g: FocusGraph, b: int, r: int)
    requires
        neighbors_fit(g, b),
        0 <= r <= b,
    ensures
        neighbors_fit(g, r),
{
    assert forall|id: u128, down: bool| #[trigger] neighbors(g, id, down).len() * r * BARYCENTER_SCALE_FACTOR <= usize::MAX by {
        let d = neighbors(g, id, down).len();
        assert(d * b * BARYCENTER_SCALE_FACTOR <= usize::MAX);
        assert(d * r * BARYCENTER_SCALE_FACTOR <= d * b * BARYCENTER_SCALE_FACTOR) by (nonlinear_arith)
            requires 0 <= r <= b, d >= 0;
    }
}

/// A task with prerequisites is the child of some link; one with
/// dependants is the parent of some link.
pub proof fn lemma_neighbors_from_edge(edges: Seq<crate::models::Edge>, id: u128)
    ensures
        parents_spec(edges, id).len() > 0 ==> exists|k: int| 0 <= k < edges.len() && #[trigger] edges[k].child_id == id,
        children_spec(edges, id).len() > 0 ==> exists|k: int| 0 <= k < edges.len() && #[trigger] edges[k].parent_id == id,
    decreases edges.len(),
{
    if edges.len() > 0 {
        let pre = edges.drop_last();
        lemma_neighbors_from_edge(pre, id);
        if parents_spec(pre, id).len() > 0 {
            let k = choose|k: int| 0 <= k < pre.len() && #[trigger] pre[k].child_id == id;
            assert(edges[k].child_id == id);
        }
        if children_spec(pre, id).len() > 0 {
            let k = choose|k: int| 0 <= k < pre.len() && #[trigger] pre[k].parent_id == id;
            assert(edges[k].parent_id == id);
        }
        let last = edges.len() - 1;
        assert(edges.last() == edges[last]);
    }
}

/// Whether every task's prerequisites, and its dependants, can be summed
/// at positions below the number of tasks and scaled without overflow.
pub fn fits_barycenter_scale(graph: &FocusGraph) -> (res: bool)
    ensures
        res == neighbors_fit(*graph, graph.nodes@.len() as int),
{
    let n = graph.nodes.len();
    let mut k: usize = 0;
    while k < graph.edges.len()
        invariant
            k <= graph.edges@.len(),
            n == graph.nodes@.len(),
            forall|j: int| 0 <= j < k ==> neighbors(*graph, #[trigger] graph.edges@[j].child_id, true).len() * n
                * BARYCENTER_SCALE_FACTOR <= usize::MAX && neighbors(*graph, graph.edges@[j].parent_id, false).len() * n
                * BARYCENTER_SCALE_FACTOR <= usize::MAX,
        decreases graph.edges@.len() - k,
    {
        let up = graph.parents_of(graph.edges[k].child_id).len();
        let down = graph.children_of(graph.edges[k].parent_id).len();
        let a = up.checked_mul(n);
        let b = down.checked_mul(n);
        let ok = match (a, b) {
            (Some(x), Some(y)) => x.checked_mul(BARYCENTER_SCALE_FACTOR).is_some() && y.checked_mul(BARYCENTER_SCALE_FACTOR).is_some(),
            _ => false,
        };
        if !ok {
            proof {
                let c = graph.edges@[k as int].child_id;
                let p = graph.edges@[k as int].parent_id;
                assert(neighbors(*graph, c, true).len() == up);
                assert(neighbors(*graph, p, false).len() == down);
                assert(up * n * BARYCENTER_SCALE_FACTOR > usize::MAX || down * n * BARYCENTER_SCALE_FACTOR > usize::MAX) by (nonlinear_arith)
                    requires
                        a is None ==> up * n > usize::MAX,
                        b is None ==> down * n > usize::MAX,
                        a matches Some(x) ==> x == up * n,
                        b matches Some(y) ==> y == down * n,
                        !ok,
                        ok == (match (a, b) {
                            (Some(x), Some(y)) => x * BARYCENTER_SCALE_FACTOR <= usize::MAX && y * BARYCENTER_SCALE_FACTOR <= usize::MAX,
                            _ => false,
                        }),
                        up >= 0, down >= 0, n >= 0;
            }
            return false;
        }
        proof {
            assert(up * n * BARYCENTER_SCALE_FACTOR <= usize::MAX);
            assert(down * n * BARYCENTER_SCALE_FACTOR <= usize::MAX);
        }
        k = k + 1;
    }
    proof {
        assert forall|id: u128, down: bool| #[trigger] neighbors(*graph, id, down).len() * n * BARYCENTER_SCALE_FACTOR <= usize::MAX by {
            lemma_neighbors_from_edge(graph.edges@, id);
            if neighbors(*graph, id, down).len() > 0 {
                if down {
                    let j = choose|j: int| 0 <= j < graph.edges@.len() && #[trigger] graph.edges@[j].child_id == id;
                    assert(neighbors(*graph, graph.edges@[j].child_id, true).len() * n * BARYCENTER_SCALE_FACTOR <= usize::MAX);
                } else {
                    let j = choose|j: int| 0 <= j < graph.edges@.len() && #[trigger] graph.edges@[j].parent_id == id;
                    assert(neighbors(*graph, graph.edges@[j].child_id, true).len() * n * BARYCENTER_SCALE_FACTOR <= usize::MAX);
                    assert(neighbors(*graph, graph.edges@[j].parent_id, false).len() * n * BARYCENTER_SCALE_FACTOR <= usize::MAX);
                }
            }
        }
    }
    true
}

pub proof fn lemma_parents_len(edges: Seq<crate::models::Edge>, id: u128)
    ensures
        parents_spec(edges, id).len() <= edges.len(),
    decreases edges.len(),
{
    if edges.len() > 0 {
        lemma_parents_len(edges.drop_last(), id);
    }
}

pub proof fn lemma_children_len(edges: Seq<crate::models::Edge>, id: u128)
    ensures
        children_spec(edges, id).len() <= edges.len(),
    decreases edges.len(),
{
    if edges.len() > 0 {
        lemma_children_len(edges.drop_last(), id);
    }
}

impl SugiyamaEngine {
    fn build_position_map(layer: &Vec<u128>) -> (res: HashMap<u128, usize>)
        ensures
            res@ == position_map(layer@),
    {
        let mut res: HashMap<u128, usize> = HashMap::new();
        let mut i: usize = 0;
        while i < layer.len()
            invariant
                i <= layer@.len(),
                res@ == position_map(layer@.subrange(0, i as int)),
            decreases layer@.len() - i,
        {
            assert(layer@.subrange(0, i + 1).drop_last() == layer@.subrange(0, i as int));
            res.insert(layer[i], i);
            i = i + 1;
        }
        assert(layer@.subrange(0, layer@.len() as int) == layer@);
        res
    }

    fn calculate_barycenter_weight(neighbors: &Vec<u128>, pos_map: &HashMap<u128, usize>, Ghost(bound): Ghost<int>) -> (res: usize)
        requires
            bound >= 0,
            forall|k: u128| pos_map@.contains_key(k) ==> pos_map@[k] < bound,
            neighbors@.len() * bound * BARYCENTER_SCALE_FACTOR <= usize::MAX,
        ensures
            res as int == barycenter(neighbors@, pos_map@),
    {
        if neighbors.len() == 0 {
            return 0;
        }
        let mut position_sum: usize = 0;
        let mut i: usize = 0;
        while i < neighbors.len()
            invariant
                i <= neighbors@.len(),
                bound >= 0,
                forall|k: u128| pos_map@.contains_key(k) ==> pos_map@[k] < bound,
                neighbors@.len() * bound * BARYCENTER_SCALE_FACTOR <= usize::MAX,
                position_sum as int == sum_positions(neighbors@.subrange(0, i as int), pos_map@),
                position_sum as int <= i * bound,
            decreases neighbors@.len() - i,
        {
            assert(neighbors@.subrange(0, i + 1).drop_last() == neighbors@.subrange(0, i as int));
            let pos = match pos_map.get(&neighbors[i]) {
                Some(p) => *p,
                None => 0,
            };
            proof {
                assert((i + 1) * bound == i * bound + bound) by (nonlinear_arith);
                assert(neighbors@.len() * bound * BARYCENTER_SCALE_FACTOR >= (i + 1) * bound) by (nonlinear_arith)
                    requires i + 1 <= neighbors@.len(), bound >= 0;
            }
            position_sum = position_sum + pos;
            i = i + 1;
        }
        assert(neighbors@.subrange(0, neighbors@.len() as int) == neighbors@);
        proof {
            assert(position_sum * BARYCENTER_SCALE_FACTOR <= neighbors@.len() * bound * BARYCENTER_SCALE_FACTOR) by (nonlinear_arith)
                requires position_sum <= neighbors@.len() * bound, bound >= 0;
        }
        (position_sum * BARYCENTER_SCALE_FACTOR) / neighbors.len()
    }

    /// Stably sorts `target_layer` by the barycenter of each task's
    /// neighbours in `reference_layer`.
    fn sort_layer_by_barycenter(
        graph: &FocusGraph,
        target_layer: &mut Vec<u128>,
        reference_layer: &Vec<u128>,
        parents_to_children: bool,
    )
        requires
            old(target_layer)@.no_duplicates(),
            neighbors_fit(*graph, reference_layer@.len() as int),
        ensures
            is_stable_sort(old(target_layer)@, final(target_layer)@, bary_key(*graph, reference_layer@, parents_to_children)),
    {
        let ghost key = bary_key(*graph, reference_layer@, parents_to_children);
        let ghost input = target_layer@;
        let ref_positions = Self::build_position_map(reference_layer);
        proof {
            lemma_position_map_bound(reference_layer@);
        }
        let mut out_ids: Vec<u128> = Vec::new();
        let mut out_keys: Vec<usize> = Vec::new();
        let mut t: usize = 0;
        while t < target_layer.len()
            invariant
                input == target_layer@,
                input.no_duplicates(),
                key == bary_key(*graph, reference_layer@, parents_to_children),
                ref_positions@ == position_map(reference_layer@),
                forall|k: u128| ref_positions@.contains_key(k) ==> ref_positions@[k] < reference_layer@.len(),
                neighbors_fit(*graph, reference_layer@.len() as int),
                t <= input.len(),
                out_ids@.len() == t,
                out_keys@.len() == t,
                forall|q: int| 0 <= q < t ==> out_keys@[q] as int == key(#[trigger] out_ids@[q]),
                out_ids@.no_duplicates(),
                forall|x: u128| out_ids@.contains(x) <==> input.subrange(0, t as int).contains(x),
                forall|i: int, j: int| 0 <= i < j < t ==> ranks_before(input, key, #[trigger] out_ids@[i], #[trigger] out_ids@[j]),
            decreases input.len() - t,
        {
            let node_id = target_layer[t];
            let neighbor_ids = if parents_to_children {
                graph.parents_of(node_id)
            } else {
                graph.children_of(node_id)
            };
            proof {
                assert(neighbor_ids@ == neighbors(*graph, node_id, parents_to_children));
                assert(neighbors(*graph, node_id, parents_to_children).len() * reference_layer@.len() * BARYCENTER_SCALE_FACTOR <= usize::MAX);
            }
            let weight = Self::calculate_barycenter_weight(&neighbor_ids, &ref_positions, Ghost(reference_layer@.len() as int));
            assert(weight as int == key(node_id));
            let mut p: usize = 0;
            while p < out_keys.len() && out_keys[p] <= weight
                invariant
                    p <= out_keys@.len(),
                    forall|q: int| 0 <= q < p ==> out_keys@[q] <= weight,
                decreases out_keys@.len() - p,
            {
                p = p + 1;
            }
            let ghost old_ids = out_ids@;
            let ghost old_keys = out_keys@;
            proof {
                lemma_first_index(input, node_id);
                assert(input[t as int] == node_id);
                assert(first_index(input, node_id) == t);
                // keys along the output never decrease
                assert forall|q: int| p <= q < t implies old_keys[q] > weight by {
                    if p < t {
                        assert(old_keys[p as int] > weight);
                        if q > p {
                            assert(ranks_before(input, key, old_ids[p as int], old_ids[q]));
                        }
                    }
                }
                assert forall|q: int| 0 <= q < t implies first_index(input, #[trigger] old_ids[q]) < t by {
                    assert(old_ids.contains(old_ids[q]));
                    assert(input.subrange(0, t as int).contains(old_ids[q]));
                    let m = choose|m: int| 0 <= m < t && input.subrange(0, t as int)[m] == old_ids[q];
                    assert(input[m] == old_ids[q]);
                    lemma_first_index(input, old_ids[q]);
                }
                assert(!old_ids.contains(node_id)) by {
                    if old_ids.contains(node_id) {
                        let m = choose|m: int| 0 <= m < t && input.subrange(0, t as int)[m] == node_id;
                        assert(input[m] == input[t as int]);
                    }
                }
            }
            out_ids.insert(p, node_id);
            out_keys.insert(p, weight);
            proof {
                let ids = out_ids@;
                let sub1 = input.subrange(0, t + 1);
                assert(ids == old_ids.insert(p as int, node_id));
                assert forall|q: int| 0 <= q < t + 1 implies out_keys@[q] as int == key(#[trigger] out_ids@[q]) by {
                    if q < p {
                        assert(out_ids@[q] == old_ids[q] && out_keys@[q] == old_keys[q]);
                    } else if q > p {
                        assert(out_ids@[q] == old_ids[q - 1] && out_keys@[q] == old_keys[q - 1]);
                    }
                }
                assert forall|x: u128| ids.contains(x) <==> sub1.contains(x) by {
                    if ids.contains(x) {
                        let m = choose|m: int| 0 <= m < ids.len() && ids[m] == x;
                        if m < p {
                            assert(old_ids[m] == x);
                            assert(old_ids.contains(x));
                        } else if m > p {
                            assert(old_ids[m - 1] == x);
                            assert(old_ids.contains(x));
                        }
                        if x != node_id {
                            let n = choose|n: int| 0 <= n < t && input.subrange(0, t as int)[n] == x;
                            assert(sub1[n] == x);
                        } else {
                            assert(sub1[t as int] == x);
                        }
                    }
                    if sub1.contains(x) {
                        let n = choose|n: int| 0 <= n < t + 1 && sub1[n] == x;
                        if n < t {
                            assert(input.subrange(0, t as int)[n] == x);
                            assert(old_ids.contains(x));
                            let m = choose|m: int| 0 <= m < old_ids.len() && old_ids[m] == x;
                            if m < p {
                                assert(ids[m] == x);
                            } else {
                                assert(ids[m + 1] == x);
                            }
                        } else {
                            assert(ids[p as int] == x);
                        }
                    }
                }
                assert forall|a: int, b: int| 0 <= a < ids.len() && 0 <= b < ids.len() && a != b implies ids[a] != ids[b] by {
                    if a == p {
                        if b < p {
                            assert(old_ids.contains(old_ids[b]));
                        } else {
                            assert(old_ids.contains(old_ids[b - 1]));
                        }
                    } else if b == p {
                        if a < p {
                            assert(old_ids.contains(old_ids[a]));
                        } else {
                            assert(old_ids.contains(old_ids[a - 1]));
                        }
                    } else {
                        let a2 = if a < p { a } else { a - 1 };
                        let b2 = if b < p { b } else { b - 1 };
                        assert(ids[a] == old_ids[a2] && ids[b] == old_ids[b2]);
                    }
                }
                assert forall|i: int, j: int| 0 <= i < j < t + 1 implies ranks_before(input, key, #[trigger] ids[i], #[trigger] ids[j]) by {
                    if i == p {
                        assert(ids[j] == old_ids[j - 1]);
                        assert(old_keys[j - 1] as int == key(old_ids[j - 1]));
                    } else if j == p {
                        assert(ids[i] == old_ids[i]);
                        assert(old_keys[i] as int == key(old_ids[i]));
                        assert(first_index(input, old_ids[i]) < t);
                    } else {
                        let i2 = if i < p { i } else { i - 1 };
                        let j2 = if j < p { j } else { j - 1 };
                        assert(ids[i] == old_ids[i2] && ids[j] == old_ids[j2]);
                        assert(ranks_before(input, key, old_ids[i2], old_ids[j2]));
                    }
                }
            }
            t = t + 1;
        }
        proof {
            assert(input.subrange(0, input.len() as int) == input);
        }
        *target_layer = out_ids;
    }
}


/// Each layer keeps its tasks and its length, and stays duplicate-free.
pub open spec fn same_layer_sets(a: Seq<Seq<u128>>, b: Seq<Seq<u128>>) -> bool {
    &&& a.len() == b.len()
    &&& forall|l: int| 0 <= l < a.len() ==> (#[trigger] a[l]).len() == b[l].len()
    &&& forall|l: int, x: u128| 0 <= l < a.len() ==> (#[trigger] a[l].contains(x) <==> b[l].contains(x))
}

/// Every layer is at most `b` tasks long.
pub open spec fn layers_bounded(layers: Seq<Seq<u128>>, b: int) -> bool {
    forall|l: int| 0 <= l < layers.len() ==> (#[trigger] layers[l]).len() <= b
}

pub proof fn lemma_same_layer_sets_trans(a: Seq<Seq<u128>>, b: Seq<Seq<u128>>, c: Seq<Seq<u128>>)
    requires
        same_layer_sets(a, b),
        same_layer_sets(b, c),
    ensures
        same_layer_sets(a, c),
{
    assert forall|l: int, x: u128| 0 <= l < a.len() implies (#[trigger] a[l].contains(x) <==> c[l].contains(x)) by {
        assert(a[l].contains(x) <==> b[l].contains(x));
        assert(b[l].contains(x) <==> c[l].contains(x));
    }
    assert forall|l: int| 0 <= l < a.len() implies (#[trigger] a[l]).len() == c[l].len() by {
        assert(b[l].len() == c[l].len());
    }
}

fn copy_ids(v: &Vec<u128>) -> (res: Vec<u128>)
    ensures
        res@ == v@,
{
    let mut res: Vec<u128> = Vec::new();
    let mut i: usize = 0;
    while i < v.len()
        invariant
            i <= v@.len(),
            res@ == v@.subrange(0, i as int),
        decreases v@.len() - i,
    {
        res.push(v[i]);
        i = i + 1;
        assert(res@ == v@.subrange(0, i as int));
    }
    assert(v@.subrange(0, v@.len() as int) == v@);
    res
}

impl SugiyamaEngine {
    /// Re-sorts layers `1..`, top-down, each against the layer above it.
    fn sweep_downward(graph: &FocusGraph, grouped_layers: &mut Vec<Vec<u128>>, Ghost(b): Ghost<int>)
        requires
            layers_distinct(layer_views(old(grouped_layers)@)),
            layers_bounded(layer_views(old(grouped_layers)@), b),
            neighbors_fit(*graph, b),
        ensures
            layer_views(final(grouped_layers)@) == sweep_down(*graph, layer_views(old(grouped_layers)@)),
            layers_distinct(layer_views(final(grouped_layers)@)),
            same_layer_sets(layer_views(final(grouped_layers)@), layer_views(old(grouped_layers)@)),
    {
        let ghost v0 = layer_views(grouped_layers@);
        let n = grouped_layers.len();
        let mut i: usize = 1;
        proof {
            assert(same_layer_sets(v0, v0));
        }
        while i < n
            invariant
                n == grouped_layers@.len(),
                n == v0.len(),
                1 <= i,
                i <= n || n == 0,
                layer_views(grouped_layers@) == sweep_down_upto(*graph, v0, i as nat),
                layers_distinct(layer_views(grouped_layers@)),
                same_layer_sets(layer_views(grouped_layers@), v0),
                layers_bounded(v0, b),
                neighbors_fit(*graph, b),
            decreases n - i,
        {
            let ghost cur = layer_views(grouped_layers@);
            let reference = copy_ids(&grouped_layers[i - 1]);
            let mut current = copy_ids(&grouped_layers[i]);
            proof {
                assert(cur[i - 1] == reference@);
                assert(cur[i as int] == current@);
                assert(reference@.len() == v0[i - 1].len());
                lemma_neighbors_fit_smaller(*graph, b, reference@.len() as int);
            }
            Self::sort_layer_by_barycenter(graph, &mut current, &reference, true);
            let ghost sorted = current@;
            grouped_layers.set(i, current);
            proof {
                lemma_stable_sort_is(cur[i as int], sorted, bary_key(*graph, cur[i - 1], true));
                let nv = layer_views(grouped_layers@);
                assert(nv =~= cur.update(i as int, sorted));
                assert(sweep_down_upto(*graph, v0, (i + 1) as nat) == cur.update(i as int, stable_sorted(cur[i as int], bary_key(*graph, cur[i - 1], true))));
                assert(same_layer_sets(nv, cur)) by {
                    assert forall|l: int, x: u128| 0 <= l < nv.len() implies (#[trigger] nv[l].contains(x) <==> cur[l].contains(x)) by {
                        if l == i {
                            assert(sorted.contains(x) <==> cur[l].contains(x));
                        }
                    }
                }
                lemma_same_layer_sets_trans(nv, cur, v0);
                assert(layers_distinct(nv));
            }
            i = i + 1;
        }
        proof {
            if n > 0 {
                assert(i == n);
            }
        }
    }

    /// Re-sorts layers `..len - 1`, bottom-up, each against the layer below it.
    fn sweep_upward(graph: &FocusGraph, grouped_layers: &mut Vec<Vec<u128>>, Ghost(b): Ghost<int>)
        requires
            layers_distinct(layer_views(old(grouped_layers)@)),
            layers_bounded(layer_views(old(grouped_layers)@), b),
            neighbors_fit(*graph, b),
        ensures
            layer_views(final(grouped_layers)@) == sweep_up(*graph, layer_views(old(grouped_layers)@)),
            layers_distinct(layer_views(final(grouped_layers)@)),
            same_layer_sets(layer_views(final(grouped_layers)@), layer_views(old(grouped_layers)@)),
    {
        let ghost v0 = layer_views(grouped_layers@);
        let n = grouped_layers.len();
        proof {
            assert(same_layer_sets(v0, v0));
        }
        if n == 0 {
            return;
        }
        let mut count: usize = 0;
        while count + 1 < n
            invariant
                n == grouped_layers@.len(),
                n == v0.len(),
                n > 0,
                count + 1 <= n,
                layer_views(grouped_layers@) == sweep_up_count(*graph, v0, count as nat),
                layers_distinct(layer_views(grouped_layers@)),
                same_layer_sets(layer_views(grouped_layers@), v0),
                layers_bounded(v0, b),
                neighbors_fit(*graph, b),
            decreases n - count,
        {
            let i = n - 2 - count;
            let ghost cur = layer_views(grouped_layers@);
            let reference = copy_ids(&grouped_layers[i + 1]);
            let mut current = copy_ids(&grouped_layers[i]);
            proof {
                assert(cur[i + 1] == reference@);
                assert(cur[i as int] == current@);
                assert(reference@.len() == v0[i + 1].len());
                lemma_neighbors_fit_smaller(*graph, b, reference@.len() as int);
            }
            Self::sort_layer_by_barycenter(graph, &mut current, &reference, false);
            let ghost sorted = current@;
            grouped_layers.set(i, current);
            proof {
                lemma_stable_sort_is(cur[i as int], sorted, bary_key(*graph, cur[i + 1], false));
                let nv = layer_views(grouped_layers@);
                assert(nv =~= cur.update(i as int, sorted));
                assert(sweep_up_count(*graph, v0, (count + 1) as nat) == cur.update(i as int, stable_sorted(cur[i as int], bary_key(*graph, cur[i + 1], false))));
                assert(same_layer_sets(nv, cur)) by {
                    assert forall|l: int, x: u128| 0 <= l < nv.len() implies (#[trigger] nv[l].contains(x) <==> cur[l].contains(x)) by {
                        if l == i {
                            assert(sorted.contains(x) <==> cur[l].contains(x));
                        }
                    }
                }
                lemma_same_layer_sets_trans(nv, cur, v0);
                assert(layers_distinct(nv));
            }
            count = count + 1;
        }
    }

    /// Runs the crossing-reduction passes over grouped layers.
    fn reduce_layers(graph: &FocusGraph, grouped_layers: &mut Vec<Vec<u128>>, Ghost(b): Ghost<int>)
        requires
            layers_distinct(layer_views(old(grouped_layers)@)),
            layers_bounded(layer_views(old(grouped_layers)@), b),
            neighbors_fit(*graph, b),
        ensures
            layer_views(final(grouped_layers)@) == crossing_reduction(*graph, layer_views(old(grouped_layers)@), CROSSING_REDUCTION_PASSES as nat),
            layers_distinct(layer_views(final(grouped_layers)@)),
            same_layer_sets(layer_views(final(grouped_layers)@), layer_views(old(grouped_layers)@)),
    {
        let ghost v0 = layer_views(grouped_layers@);
        proof {
            assert(same_layer_sets(v0, v0));
        }
        let mut pass: usize = 0;
        while pass < CROSSING_REDUCTION_PASSES
            invariant
                pass <= CROSSING_REDUCTION_PASSES,
                layer_views(grouped_layers@) == crossing_reduction(*graph, v0, pass as nat),
                layers_distinct(layer_views(grouped_layers@)),
                same_layer_sets(layer_views(grouped_layers@), v0),
                layers_bounded(v0, b),
                neighbors_fit(*graph, b),
            decreases CROSSING_REDUCTION_PASSES - pass,
        {
            let ghost before = layer_views(grouped_layers@);
            assert(layers_bounded(before, b)) by {
                assert forall|l: int| 0 <= l < before.len() implies (#[trigger] before[l]).len() <= b by {
                    assert(before[l].len() == v0[l].len());
                }
            }
            Self::sweep_downward(graph, grouped_layers, Ghost(b));
            let ghost mid = layer_views(grouped_layers@);
            proof {
                lemma_same_layer_sets_trans(mid, before, v0);
                assert(layers_bounded(mid, b)) by {
                    assert forall|l: int| 0 <= l < mid.len() implies (#[trigger] mid[l]).len() <= b by {
                        assert(mid[l].len() == v0[l].len());
                    }
                }
            }
            Self::sweep_upward(graph, grouped_layers, Ghost(b));
            proof {
                lemma_same_layer_sets_trans(layer_views(grouped_layers@), mid, v0);
            }
            pass = pass + 1;
        }
    }
}


/// Strictly increasing sequence of ids.
pub open spec fn strictly_increasing(s: Seq<u128>) -> bool {
    forall|i: int, j: int| 0 <= i < j < s.len() ==> #[trigger] s[i] < #[trigger] s[j]
}

/// `gl` puts every recorded task on the layer of its level, in increasing
/// id order, with one layer per level up to the highest.
pub open spec fn grouping_ok(gl: Seq<Seq<u128>>, m: Map<u128, usize>) -> bool {
    &&& gl.len() >= 1
    &&& forall|k: u128| m.contains_key(k) ==> m[k] < gl.len()
    &&& (gl.len() > 1 ==> exists|k: u128| m.contains_key(k) && m[k] == gl.len() - 1)
    &&& forall|l: int| 0 <= l < gl.len() ==> strictly_increasing(#[trigger] gl[l])
    &&& forall|l: int, x: u128| 0 <= l < gl.len() ==> (#[trigger] gl[l].contains(x) <==> m.contains_key(x) && m[x] == l)
}

/// The grouping of the tasks of `m` by level.
pub open spec fn grouped_by_level(m: Map<u128, usize>) -> Seq<Seq<u128>> {
    choose|gl: Seq<Seq<u128>>| grouping_ok(gl, m)
}

/// The id as a sort key.
pub open spec fn id_key() -> spec_fn(u128) -> int {
    |x: u128| x as int
}

pub proof fn lemma_increasing_unique(a: Seq<u128>, b: Seq<u128>)
    requires
        strictly_increasing(a),
        strictly_increasing(b),
        forall|x: u128| a.contains(x) <==> b.contains(x),
    ensures
        a == b,
{
    assert(a.no_duplicates()) by {
        assert forall|i: int, j: int| 0 <= i < a.len() && 0 <= j < a.len() && i != j implies a[i] != a[j] by {
            if i < j {
                assert(a[i] < a[j]);
            } else {
                assert(a[j] < a[i]);
            }
        }
    }
    assert forall|i: int, j: int| 0 <= i < j < a.len() implies ranks_before(a, id_key(), #[trigger] a[i], #[trigger] a[j]) by {
        assert(a[i] < a[j]);
    }
    assert forall|i: int, j: int| 0 <= i < j < b.len() implies ranks_before(a, id_key(), #[trigger] b[i], #[trigger] b[j]) by {
        assert(b[i] < b[j]);
    }
    lemma_ranked_unique(a, id_key(), a, b);
}

/// The grouping is unique.
pub proof fn lemma_grouping_unique(gl: Seq<Seq<u128>>, m: Map<u128, usize>)
    requires
        grouping_ok(gl, m),
    ensures
        grouped_by_level(m) == gl,
{
    let g2 = grouped_by_level(m);
    assert(grouping_ok(g2, m));
    assert(gl.len() == g2.len()) by {
        if gl.len() < g2.len() {
            let k = choose|k: u128| m.contains_key(k) && m[k] == g2.len() - 1;
        } else if g2.len() < gl.len() {
            let k = choose|k: u128| m.contains_key(k) && m[k] == gl.len() - 1;
        }
    }
    assert forall|l: int| 0 <= l < gl.len() implies gl[l] == g2[l] by {
        assert forall|x: u128| gl[l].contains(x) <==> g2[l].contains(x) by {
            assert(gl[l].contains(x) <==> m.contains_key(x) && m[x] == l);
            assert(g2[l].contains(x) <==> m.contains_key(x) && m[x] == l);
        }
        lemma_increasing_unique(gl[l], g2[l]);
    }
    assert(gl =~= g2);
}

/// The tasks of all layers, top to bottom.
pub open spec fn flat(layers: Seq<Seq<u128>>) -> Seq<u128>
    decreases layers.len(),
{
    if layers.len() == 0 {
        Seq::empty()
    } else {
        flat(layers.drop_last()) + layers.last()
    }
}

/// The single prerequisite of a task that has exactly one.
pub open spec fn primary_parent(g: FocusGraph, c: u128) -> Option<u128> {
    if parents_spec(g.edges@, c).len() == 1 {
        Some(parents_spec(g.edges@, c)[0])
    } else {
        None
    }
}

/// The tasks of `s` with more than one prerequisite, in order.
pub open spec fn merge_tasks(g: FocusGraph, s: Seq<u128>) -> Seq<u128>
    decreases s.len(),
{
    if s.len() == 0 {
        Seq::empty()
    } else if parents_spec(g.edges@, s.last()).len() > 1 {
        merge_tasks(g, s.drop_last()).push(s.last())
    } else {
        merge_tasks(g, s.drop_last())
    }
}

/// The tasks of `s` that lie below the top layer and whose single
/// prerequisite is `p`, in order.
pub open spec fn children_under(g: FocusGraph, lower: Seq<u128>, s: Seq<u128>, p: u128) -> Seq<u128>
    decreases s.len(),
{
    if s.len() == 0 {
        Seq::empty()
    } else if lower.contains(s.last()) && primary_parent(g, s.last()) == Some(p) {
        children_under(g, lower, s.drop_last(), p).push(s.last())
    } else {
        children_under(g, lower, s.drop_last(), p)
    }
}

/// The tasks of `s` that occur in `t`, in order.
pub open spec fn kept_in(s: Seq<u128>, t: Seq<u128>) -> Seq<u128>
    decreases s.len(),
{
    if s.len() == 0 {
        Seq::empty()
    } else if t.contains(s.last()) {
        kept_in(s.drop_last(), t).push(s.last())
    } else {
        kept_in(s.drop_last(), t)
    }
}

/// The plan of a well-formed graph.
pub open spec fn plan_layers(g: FocusGraph) -> Seq<Seq<u128>> {
    crossing_reduction(g, grouped_by_level(crate::levels::computed_levels(g)), CROSSING_REDUCTION_PASSES as nat)
}

proof fn lemma_push_contains(s: Seq<u128>, y: u128, x: u128)
    ensures
        s.push(y).contains(x) <==> (s.contains(x) || x == y),
{
    if s.push(y).contains(x) {
        let k = choose|k: int| 0 <= k < s.push(y).len() && s.push(y)[k] == x;
        if k < s.len() {
            assert(s[k] == x);
        }
    }
    if s.contains(x) {
        let k = choose|k: int| 0 <= k < s.len() && s[k] == x;
        assert(s.push(y)[k] == x);
    }
    if x == y {
        assert(s.push(y)[s.len() as int] == x);
    }
}

proof fn lemma_merge_tasks_contains(g: FocusGraph, s: Seq<u128>, x: u128)
    ensures
        merge_tasks(g, s).contains(x) <==> (s.contains(x) && parents_spec(g.edges@, x).len() > 1),
    decreases s.len(),
{
    if s.len() > 0 {
        lemma_merge_tasks_contains(g, s.drop_last(), x);
        lemma_push_contains(merge_tasks(g, s.drop_last()), s.last(), x);
        lemma_push_contains(s.drop_last(), s.last(), x);
        assert(s.drop_last().push(s.last()) =~= s);
    }
}

proof fn lemma_kept_in_contains(s: Seq<u128>, t: Seq<u128>, x: u128)
    ensures
        kept_in(s, t).contains(x) <==> (s.contains(x) && t.contains(x)),
    decreases s.len(),
{
    if s.len() > 0 {
        lemma_kept_in_contains(s.drop_last(), t, x);
        lemma_push_contains(kept_in(s.drop_last(), t), s.last(), x);
        lemma_push_contains(s.drop_last(), s.last(), x);
        assert(s.drop_last().push(s.last()) =~= s);
    }
}

proof fn lemma_children_under_contains(g: FocusGraph, lower: Seq<u128>, s: Seq<u128>, p: u128, x: u128)
    ensures
        children_under(g, lower, s, p).contains(x) <==> (s.contains(x) && lower.contains(x) && primary_parent(g, x) == Some(p)),
    decreases s.len(),
{
    if s.len() > 0 {
        lemma_children_under_contains(g, lower, s.drop_last(), p, x);
        lemma_push_contains(children_under(g, lower, s.drop_last(), p), s.last(), x);
        lemma_push_contains(s.drop_last(), s.last(), x);
        assert(s.drop_last().push(s.last()) =~= s);
    }
}

proof fn lemma_flat_contains(ls: Seq<Seq<u128>>, x: u128)
    ensures
        flat(ls).contains(x) <==> exists|l: int| 0 <= l < ls.len() && (#[trigger] ls[l]).contains(x),
    decreases ls.len(),
{
    if ls.len() > 0 {
        let pre = ls.drop_last();
        lemma_flat_contains(pre, x);
        let f = flat(ls);
        assert(f == flat(pre) + ls.last());
        if f.contains(x) {
            let k = choose|k: int| 0 <= k < f.len() && f[k] == x;
            if k < flat(pre).len() {
                assert(flat(pre)[k] == x);
                let l = choose|l: int| 0 <= l < pre.len() && (#[trigger] pre[l]).contains(x);
                assert(ls[l] == pre[l]);
            } else {
                assert(ls.last()[k - flat(pre).len()] == x);
                assert(ls[ls.len() - 1].contains(x));
            }
        }
        if exists|l: int| 0 <= l < ls.len() && (#[trigger] ls[l]).contains(x) {
            let l = choose|l: int| 0 <= l < ls.len() && (#[trigger] ls[l]).contains(x);
            let k = choose|k: int| 0 <= k < ls[l].len() && ls[l][k] == x;
            if l < pre.len() {
                assert(pre[l] == ls[l]);
                assert(flat(pre).contains(x));
                let m = choose|m: int| 0 <= m < flat(pre).len() && flat(pre)[m] == x;
                assert(f[m] == x);
            } else {
                assert(f[flat(pre).len() + k] == x);
            }
        }
    }
}

/// How the tasks below the top layer are classed: a task there with at
/// least two prerequisites is a merge task, and a task there with exactly
/// one prerequisite is listed under that prerequisite and under no other.
/// Nothing else is a merge task or listed under a task.
pub proof fn lemma_plan_classification(g: FocusGraph, lv: Seq<Seq<u128>>, x: u128)
    requires
        lv.len() >= 1,
    ensures
        ({
            let lower = flat(lv.subrange(1, lv.len() as int));
            let ps = parents_spec(g.edges@, x);
            &&& kept_in(flat(lv), merge_tasks(g, lower)).contains(x) <==> (lower.contains(x) && ps.len() >= 2)
            &&& forall|p: u128| #[trigger] children_under(g, lower, flat(lv), p).contains(x)
                <==> (lower.contains(x) && ps.len() == 1 && ps[0] == p)
        }),
{
    let lower = flat(lv.subrange(1, lv.len() as int));
    lemma_flat_contains(lv.subrange(1, lv.len() as int), x);
    lemma_flat_contains(lv, x);
    if lower.contains(x) {
        let l = choose|l: int| 0 <= l < lv.len() - 1 && (#[trigger] lv.subrange(1, lv.len() as int)[l]).contains(x);
        assert(lv[l + 1] == lv.subrange(1, lv.len() as int)[l]);
        assert(flat(lv).contains(x));
    }
    lemma_merge_tasks_contains(g, lower, x);
    lemma_kept_in_contains(flat(lv), merge_tasks(g, lower), x);
    assert forall|p: u128| #[trigger] children_under(g, lower, flat(lv), p).contains(x)
        <==> (lower.contains(x) && parents_spec(g.edges@, x).len() == 1 && parents_spec(g.edges@, x)[0] == p) by {
        lemma_children_under_contains(g, lower, flat(lv), p, x);
    }
}

fn insert_sorted(v: &mut Vec<u128>, x: u128)
    requires
        strictly_increasing(old(v)@),
    ensures
        strictly_increasing(final(v)@),
        forall|y: u128| final(v)@.contains(y) <==> (old(v)@.contains(y) || y == x),
{
    let mut p: usize = 0;
    while p < v.len() && v[p] < x
        invariant
            v@ == old(v)@,
            p <= v@.len(),
            forall|q: int| 0 <= q < p ==> v@[q] < x,
        decreases v@.len() - p,
    {
        p = p + 1;
    }
    if p < v.len() && v[p] == x {
        assert(v@[p as int] == x);
        return;
    }
    let ghost old_v = v@;
    v.insert(p, x);
    proof {
        assert(v@ == old_v.insert(p as int, x));
        assert forall|i: int, j: int| 0 <= i < j < v@.len() implies #[trigger] v@[i] < #[trigger] v@[j] by {
            if j < p {
                assert(v@[i] == old_v[i] && v@[j] == old_v[j]);
            } else if j == p {
                assert(v@[i] == old_v[i]);
            } else if i == p {
                assert(v@[j] == old_v[j - 1]);
                if j - 1 > p {
                    assert(old_v[p as int] < old_v[j - 1]);
                }
            } else if i < p {
                assert(v@[i] == old_v[i] && v@[j] == old_v[j - 1]);
            } else {
                assert(v@[i] == old_v[i - 1] && v@[j] == old_v[j - 1]);
            }
        }
        assert forall|y: u128| #[trigger] v@.contains(y) <==> (old(v)@.contains(y) || y == x) by {
            if v@.contains(y) {
                let k = choose|k: int| 0 <= k < v@.len() && v@[k] == y;
                if k < p {
                    assert(old_v[k] == y);
                } else if k > p {
                    assert(old_v[k - 1] == y);
                }
            }
            if old_v.contains(y) {
                let k = choose|k: int| 0 <= k < old_v.len() && old_v[k] == y;
                if k < p {
                    assert(v@[k] == y);
                } else {
                    assert(v@[k + 1] == y);
                }
            }
            if y == x {
                assert(v@[p as int] == y);
            }
        }
    }
}

impl SugiyamaEngine {
    /// Puts every task on the layer of its level, layers in increasing id order.
    fn group_nodes_by_layer(graph: &FocusGraph, layers: &HashMap<u128, usize>) -> (res: Vec<Vec<u128>>)
        requires
            forall|k: u128| layers@.contains_key(k) <==> has_node(graph.nodes@, k),
            forall|k: u128| #[trigger] layers@.contains_key(k) ==> layers@[k] < usize::MAX,
        ensures
            grouping_ok(layer_views(res@), layers@),
    {
        // the distinct ids in increasing order
        let mut ids: Vec<u128> = Vec::new();
        let mut i: usize = 0;
        while i < graph.nodes.len()
            invariant
                i <= graph.nodes@.len(),
                strictly_increasing(ids@),
                forall|y: u128| ids@.contains(y) <==> exists|j: int| 0 <= j < i && graph.nodes@[j].id == y,
            decreases graph.nodes@.len() - i,
        {
            let ghost before = ids@;
            insert_sorted(&mut ids, graph.nodes[i].id);
            proof {
                assert forall|y: u128| ids@.contains(y) <==> exists|j: int| 0 <= j < i + 1 && graph.nodes@[j].id == y by {
                    if exists|j: int| 0 <= j < i + 1 && graph.nodes@[j].id == y {
                        let j = choose|j: int| 0 <= j < i + 1 && graph.nodes@[j].id == y;
                        if j < i {
                            assert(before.contains(y));
                        }
                    }
                    if before.contains(y) {
                        let j = choose|j: int| 0 <= j < i && graph.nodes@[j].id == y;
                        assert(0 <= j < i + 1);
                    }
                }
            }
            i = i + 1;
        }
        assert forall|y: u128| ids@.contains(y) <==> layers@.contains_key(y) by {
            if has_node(graph.nodes@, y) {
                let j = choose|j: int| 0 <= j < graph.nodes@.len() && graph.nodes@[j].id == y;
            }
        }
        // the highest level
        let mut max_layer: usize = 0;
        let mut i: usize = 0;
        while i < ids.len()
            invariant
                i <= ids@.len(),
                forall|y: u128| ids@.contains(y) <==> layers@.contains_key(y),
                forall|k: u128| #[trigger] layers@.contains_key(k) ==> layers@[k] < usize::MAX,
                max_layer < usize::MAX,
                forall|j: int| 0 <= j < i ==> layers@[#[trigger] ids@[j]] <= max_layer,
                max_layer == 0 || exists|k: u128| layers@.contains_key(k) && layers@[k] == max_layer,
            decreases ids@.len() - i,
        {
            assert(ids@.contains(ids@[i as int]));
            let l = match layers.get(&ids[i]) {
                Some(v) => *v,
                None => 0,
            };
            if l > max_layer {
                max_layer = l;
            }
            i = i + 1;
        }
        let mut grouped: Vec<Vec<u128>> = Vec::new();
        let mut l: usize = 0;
        while l <= max_layer
            invariant
                l <= max_layer + 1,
                max_layer < usize::MAX,
                grouped@.len() == l,
                forall|q: int| 0 <= q < l ==> (#[trigger] grouped@[q])@.len() == 0,
            decreases max_layer + 1 - l,
        {
            grouped.push(Vec::new());
            l = l + 1;
        }
        let mut i: usize = 0;
        while i < ids.len()
            invariant
                i <= ids@.len(),
                strictly_increasing(ids@),
                grouped@.len() == max_layer + 1,
                forall|y: u128| ids@.contains(y) <==> layers@.contains_key(y),
                forall|j: int| 0 <= j < ids@.len() ==> layers@[#[trigger] ids@[j]] <= max_layer,
                forall|q: int| 0 <= q < grouped@.len() ==> strictly_increasing(#[trigger] grouped@[q]@),
                forall|q: int, x: u128| 0 <= q < grouped@.len() ==> (#[trigger] grouped@[q]@.contains(x) <==> exists|j: int|
                    0 <= j < i && ids@[j] == x && layers@[x] == q),
                forall|q: int, t: int| 0 <= q < grouped@.len() && 0 <= t < grouped@[q]@.len() ==> exists|j: int| 0 <= j < i && #[trigger] grouped@[q]@[t] == ids@[j],
            decreases ids@.len() - i,
        {
            let id = ids[i];
            assert(ids@.contains(id));
            let lvl = match layers.get(&id) {
                Some(v) => *v,
                None => 0,
            };
            let mut inner = copy_ids(&grouped[lvl]);
            let ghost old_inner = inner@;
            inner.push(id);
            proof {
                assert forall|a: int, b: int| 0 <= a < b < inner@.len() implies #[trigger] inner@[a] < #[trigger] inner@[b] by {
                    if b == inner@.len() - 1 {
                        let j = choose|j: int| 0 <= j < i && #[trigger] grouped@[lvl as int]@[a] == ids@[j];
                        assert(inner@[a] == old_inner[a]);
                        assert(ids@[j] < ids@[i as int]);
                    } else {
                        assert(inner@[a] == old_inner[a] && inner@[b] == old_inner[b]);
                    }
                }
            }
            let ghost old_grouped = grouped@;
            grouped.set(lvl, inner);
            proof {
                assert forall|q: int, x: u128| 0 <= q < grouped@.len() implies (#[trigger] grouped@[q]@.contains(x) <==> exists|j: int|
                    0 <= j < i + 1 && ids@[j] == x && layers@[x] == q) by {
                    if q == lvl {
                        if grouped@[q]@.contains(x) && x != id {
                            assert(old_inner.contains(x)) by {
                                let t = choose|t: int| 0 <= t < inner@.len() && inner@[t] == x;
                                assert(t < old_inner.len());
                                assert(old_inner[t] == x);
                            }
                        }
                        if x == id {
                            assert(inner@[inner@.len() - 1] == x);
                        }
                        if exists|j: int| 0 <= j < i + 1 && ids@[j] == x && layers@[x] == q {
                            let j = choose|j: int| 0 <= j < i + 1 && ids@[j] == x && layers@[x] == q;
                            if j < i {
                                assert(old_inner.contains(x));
                                let t = choose|t: int| 0 <= t < old_inner.len() && old_inner[t] == x;
                                assert(inner@[t] == x);
                            }
                        }
                    } else {
                        assert(grouped@[q] == old_grouped[q]);
                        if exists|j: int| 0 <= j < i + 1 && ids@[j] == x && layers@[x] == q {
                            let j = choose|j: int| 0 <= j < i + 1 && ids@[j] == x && layers@[x] == q;
                            assert(j != i);
                        }
                    }
                }
                assert forall|q: int, t: int| 0 <= q < grouped@.len() && 0 <= t < grouped@[q]@.len() implies exists|j: int| 0 <= j < i + 1 && #[trigger] grouped@[q]@[t] == ids@[j] by {
                    if q == lvl {
                        if t == inner@.len() - 1 {
                            assert(grouped@[q]@[t] == ids@[i as int]);
                        } else {
                            assert(grouped@[q]@[t] == old_grouped[q]@[t]);
                            let j = choose|j: int| 0 <= j < i && #[trigger] old_grouped[q]@[t] == ids@[j];
                        }
                    } else {
                        assert(grouped@[q] == old_grouped[q]);
                        let j = choose|j: int| 0 <= j < i && #[trigger] old_grouped[q]@[t] == ids@[j];
                    }
                }
            }
            i = i + 1;
        }
        proof {
            let gv = layer_views(grouped@);
            assert forall|l: int, x: u128| 0 <= l < gv.len() implies (#[trigger] gv[l].contains(x) <==> layers@.contains_key(x) && layers@[x] == l) by {
                assert(gv[l] == grouped@[l]@);
                assert(grouped@[l]@.contains(x) <==> exists|j: int| 0 <= j < i && ids@[j] == x && layers@[x] == l);
                if layers@.contains_key(x) && layers@[x] == l {
                    assert(ids@.contains(x));
                    let j = choose|j: int| 0 <= j < ids@.len() && ids@[j] == x;
                    assert(0 <= j < i && ids@[j] == x && layers@[x] == l);
                }
                if gv[l].contains(x) {
                    let j = choose|j: int| 0 <= j < i && ids@[j] == x && layers@[x] == l;
                    assert(ids@.contains(ids@[j]));
                }
            }
            assert forall|k: u128| layers@.contains_key(k) implies layers@[k] < gv.len() by {
                assert(ids@.contains(k));
                let j = choose|j: int| 0 <= j < ids@.len() && ids@[j] == k;
                assert(layers@[ids@[j]] <= max_layer);
            }
            assert forall|l: int| 0 <= l < gv.len() implies strictly_increasing(#[trigger] gv[l]) by {
                assert(gv[l] == grouped@[l]@);
            }
        }
        grouped
    }
}


pub proof fn lemma_flat_push(layers: Seq<Seq<u128>>, from: int, k: int)
    requires
        0 <= from <= k < layers.len(),
    ensures
        flat(layers.subrange(from, k + 1)) == flat(layers.subrange(from, k)) + layers[k],
{
    assert(layers.subrange(from, k + 1).drop_last() == layers.subrange(from, k));
}

fn flatten_layers(layers: &Vec<Vec<u128>>, from: usize) -> (res: Vec<u128>)
    requires
        from <= layers@.len(),
    ensures
        res@ == flat(layer_views(layers@).subrange(from as int, layers@.len() as int)),
{
    let ghost lv = layer_views(layers@);
    let mut res: Vec<u128> = Vec::new();
    let mut k = from;
    assert(lv.subrange(from as int, from as int).len() == 0);
    while k < layers.len()
        invariant
            lv == layer_views(layers@),
            from <= k <= layers@.len(),
            res@ == flat(lv.subrange(from as int, k as int)),
        decreases layers@.len() - k,
    {
        let layer = &layers[k];
        let mut j: usize = 0;
        let ghost start = res@;
        while j < layer.len()
            invariant
                j <= layer@.len(),
                res@ == start + layer@.subrange(0, j as int),
            decreases layer@.len() - j,
        {
            res.push(layer[j]);
            j = j + 1;
            assert(res@ == start + layer@.subrange(0, j as int));
        }
        proof {
            assert(layer@.subrange(0, layer@.len() as int) == layer@);
            assert(lv[k as int] == layer@);
            lemma_flat_push(lv, from as int, k as int);
        }
        k = k + 1;
    }
    res
}

impl SugiyamaEngine {
    /// Classes every task below the top layer: with one prerequisite it is a
    /// subtree child of that prerequisite, with several an independent merge task.
    fn classify_parent_relationships(graph: &FocusGraph, ordered_layers: &Vec<Vec<u128>>) -> (res: (HashMap<u128, Vec<u128>>, Vec<u128>))
        requires
            ordered_layers@.len() >= 1,
        ensures
            ({
                let lv = layer_views(ordered_layers@);
                let lower = flat(lv.subrange(1, lv.len() as int));
                let all = flat(lv);
                &&& res.1@ == merge_tasks(*graph, lower)
                &&& forall|p: u128| #[trigger] res.0@.contains_key(p) <==> children_under(*graph, lower, all, p).len() > 0
                &&& forall|p: u128| #[trigger] res.0@.contains_key(p) ==> res.0@[p]@ == children_under(*graph, lower, all, p)
            }),
    {
        let ghost lv = layer_views(ordered_layers@);
        let lower = flatten_layers(ordered_layers, 1);
        let mut primary_parents: HashMap<u128, u128> = HashMap::new();
        let mut independent_nodes: Vec<u128> = Vec::new();
        let mut i: usize = 0;
        while i < lower.len()
            invariant
                i <= lower@.len(),
                independent_nodes@ == merge_tasks(*graph, lower@.subrange(0, i as int)),
                forall|c: u128|
                    #[trigger] primary_parents@.contains_key(c) <==> (lower@.subrange(0, i as int).contains(c) && primary_parent(*graph, c) is Some),
                forall|c: u128| #[trigger] primary_parents@.contains_key(c) ==> primary_parent(*graph, c) == Some(primary_parents@[c]),
            decreases lower@.len() - i,
        {
            let child_id = lower[i];
            let all_parents = graph.parents_of(child_id);
            assert(lower@.subrange(0, i + 1).drop_last() == lower@.subrange(0, i as int));
            if all_parents.len() == 1 {
                primary_parents.insert(child_id, all_parents[0]);
            } else if all_parents.len() > 1 {
                independent_nodes.push(child_id);
            }
            proof {
                let pre = lower@.subrange(0, i as int);
                let post = lower@.subrange(0, i + 1);
                assert(post == pre.push(child_id));
                assert forall|c: u128| post.contains(c) <==> (pre.contains(c) || c == child_id) by {
                    if post.contains(c) {
                        let k = choose|k: int| 0 <= k < post.len() && post[k] == c;
                        if k < pre.len() {
                            assert(pre[k] == c);
                        }
                    }
                    if pre.contains(c) {
                        let k = choose|k: int| 0 <= k < pre.len() && pre[k] == c;
                        assert(post[k] == c);
                    }
                    if c == child_id {
                        assert(post[pre.len() as int] == c);
                    }
                }
            }
            i = i + 1;
        }
        assert(lower@.subrange(0, lower@.len() as int) == lower@);
        let all = flatten_layers(ordered_layers, 0);
        assert(lv.subrange(0, lv.len() as int) == lv);
        let mut children_of_primary: HashMap<u128, Vec<u128>> = HashMap::new();
        let mut i: usize = 0;
        while i < all.len()
            invariant
                i <= all@.len(),
                forall|c: u128|
                    #[trigger] primary_parents@.contains_key(c) <==> (lower@.contains(c) && primary_parent(*graph, c) is Some),
                forall|c: u128| #[trigger] primary_parents@.contains_key(c) ==> primary_parent(*graph, c) == Some(primary_parents@[c]),
                forall|p: u128| #[trigger] children_of_primary@.contains_key(p) <==> children_under(*graph, lower@, all@.subrange(0, i as int), p).len() > 0,
                forall|p: u128| #[trigger] children_of_primary@.contains_key(p) ==> children_of_primary@[p]@ == children_under(*graph, lower@, all@.subrange(0, i as int), p),
            decreases all@.len() - i,
        {
            let node_id = all[i];
            let ghost pre = all@.subrange(0, i as int);
            assert(all@.subrange(0, i + 1).drop_last() == pre);
            assert(all@.subrange(0, i + 1).last() == node_id);
            match primary_parents.get(&node_id) {
                Some(parent_ref) => {
                    let parent_id = *parent_ref;
                    let mut kids = match children_of_primary.get(&parent_id) {
                        Some(v) => copy_ids(v),
                        None => Vec::new(),
                    };
                    kids.push(node_id);
                    children_of_primary.insert(parent_id, kids);
                    proof {
                        assert forall|p: u128| #[trigger] children_of_primary@.contains_key(p) <==> children_under(*graph, lower@, all@.subrange(0, i + 1), p).len() > 0 by {
                            if p != parent_id {
                            }
                        }
                    }
                },
                None => {},
            }
            i = i + 1;
        }
        assert(all@.subrange(0, all@.len() as int) == all@);
        (children_of_primary, independent_nodes)
    }

    /// The merge tasks in the order they appear in the layers.
    fn sort_independent_by_topological_order(ordered_layers: &Vec<Vec<u128>>, independent_nodes: &Vec<u128>) -> (res: Vec<u128>)
        ensures
            res@ == kept_in(flat(layer_views(ordered_layers@)), independent_nodes@),
    {
        let mut target_set: std::collections::HashSet<u128> = std::collections::HashSet::new();
        let mut i: usize = 0;
        while i < independent_nodes.len()
            invariant
                i <= independent_nodes@.len(),
                forall|x: u128| target_set@.contains(x) <==> independent_nodes@.subrange(0, i as int).contains(x),
            decreases independent_nodes@.len() - i,
        {
            target_set.insert(independent_nodes[i]);
            proof {
                let pre = independent_nodes@.subrange(0, i as int);
                let post = independent_nodes@.subrange(0, i + 1);
                assert(post == pre.push(independent_nodes@[i as int]));
                assert forall|x: u128| target_set@.contains(x) <==> post.contains(x) by {
                    if post.contains(x) {
                        let k = choose|k: int| 0 <= k < post.len() && post[k] == x;
                        if k < pre.len() {
                            assert(pre[k] == x);
                        }
                    }
                    if pre.contains(x) {
                        let k = choose|k: int| 0 <= k < pre.len() && pre[k] == x;
                        assert(post[k] == x);
                    }
                    if x == independent_nodes@[i as int] {
                        assert(post[pre.len() as int] == x);
                    }
                }
            }
            i = i + 1;
        }
        assert(independent_nodes@.subrange(0, independent_nodes@.len() as int) == independent_nodes@);
        let all = flatten_layers(ordered_layers, 0);
        assert(layer_views(ordered_layers@).subrange(0, layer_views(ordered_layers@).len() as int) == layer_views(ordered_layers@));
        let mut res: Vec<u128> = Vec::new();
        let mut i: usize = 0;
        while i < all.len()
            invariant
                i <= all@.len(),
                forall|x: u128| target_set@.contains(x) <==> independent_nodes@.contains(x),
                res@ == kept_in(all@.subrange(0, i as int), independent_nodes@),
            decreases all@.len() - i,
        {
            assert(all@.subrange(0, i + 1).drop_last() == all@.subrange(0, i as int));
            if target_set.contains(&all[i]) {
                res.push(all[i]);
            }
            i = i + 1;
        }
        assert(all@.subrange(0, all@.len() as int) == all@);
        res
    }

    /// The layout plan of a well-formed graph: levels, grouping, crossing
    /// reduction and classification (see `plan_layers`).
    pub fn layout_plan(graph: &FocusGraph) -> (plan: LayoutPlan)
        requires
            graph.nodes@.len() * graph.nodes@.len() < usize::MAX || crate::levels::layered(*graph),
            neighbors_fit(*graph, graph.nodes@.len() as int),
        ensures
            ({
                let lv = layer_views(plan.ordered_layers@);
                let lower = flat(lv.subrange(1, lv.len() as int));
                &&& lv == plan_layers(*graph)
                &&& lv.len() >= 1
                &&& forall|l: int, x: u128| 0 <= l < lv.len() ==> (#[trigger] lv[l].contains(x) <==> has_node(graph.nodes@, x)
                    && crate::levels::computed_levels(*graph)[x] == l)
                &&& plan.independent_nodes@ == kept_in(flat(lv), merge_tasks(*graph, lower))
                &&& forall|p: u128| #[trigger] plan.children_of_primary@.contains_key(p) <==> children_under(*graph, lower, flat(lv), p).len() > 0
                &&& forall|p: u128| #[trigger] plan.children_of_primary@.contains_key(p) ==> plan.children_of_primary@[p]@ == children_under(*graph, lower, flat(lv), p)
            }),
    {
        let layers = graph.get_node_levels();
        let node_total = graph.nodes.len();
        proof {
            let node_count = graph.nodes@.len();
            assert(node_count == node_total);
            assert forall|k: u128| #[trigger] layers@.contains_key(k) implies layers@[k] < usize::MAX by {
                if node_count * node_count < usize::MAX {
                    assert(layers@[k] <= node_count * node_count);
                } else {
                    assert(layers@[k] <= node_count - 1);
                }
            }
        }
        let mut ordered = Self::group_nodes_by_layer(graph, &layers);
        let ghost n = graph.nodes@.len() as int;
        proof {
            let gv = layer_views(ordered@);
            lemma_grouping_unique(gv, layers@);
            let ids = graph.nodes@.map_values(|x: crate::models::FocusNode| x.id);
            assert forall|l: int| 0 <= l < gv.len() implies (#[trigger] gv[l]).no_duplicates() && gv[l].len() <= n by {
                assert(strictly_increasing(gv[l]));
                assert forall|a: int, b: int| 0 <= a < gv[l].len() && 0 <= b < gv[l].len() && a != b implies gv[l][a] != gv[l][b] by {
                    if a < b {
                        assert(gv[l][a] < gv[l][b]);
                    } else {
                        assert(gv[l][b] < gv[l][a]);
                    }
                }
                assert forall|x: u128| #[trigger] gv[l].contains(x) implies ids.contains(x) by {
                    assert(layers@.contains_key(x));
                    let j = choose|j: int| 0 <= j < graph.nodes@.len() && graph.nodes@[j].id == x;
                    assert(ids[j] == x);
                }
                crate::models::lemma_no_dup_subset_len(gv[l], ids);
            }
            assert(layers_distinct(gv));
            assert(layers_bounded(gv, n));
        }
        let ghost grouped = layer_views(ordered@);
        Self::reduce_layers(graph, &mut ordered, Ghost(n));
        proof {
            let lv = layer_views(ordered@);
            assert forall|l: int, x: u128| 0 <= l < lv.len() implies (#[trigger] lv[l].contains(x) <==> has_node(graph.nodes@, x)
                && crate::levels::computed_levels(*graph)[x] == l) by {
                assert(lv[l].contains(x) <==> grouped[l].contains(x));
                assert(grouped[l].contains(x) <==> layers@.contains_key(x) && layers@[x] == l);
            }
        }
        let (children_of_primary, independent) = Self::classify_parent_relationships(graph, &ordered);
        let independent_nodes = Self::sort_independent_by_topological_order(&ordered, &independent);
        LayoutPlan { ordered_layers: ordered, children_of_primary, independent_nodes }
    }
}

} // verus!
