use uslu::models::{Edge, FocusGraph, FocusNode};
use uslu::sugiyama::{fits_barycenter_scale, SugiyamaEngine};
use std::collections::{HashMap, HashSet};

fn node(title: &str) -> FocusNode {
    FocusNode::new(title.to_string(), String::new())
}

fn layer_of(layers: &[Vec<u128>], id: u128) -> Option<usize> {
    layers.iter().position(|l| l.contains(&id))
}

#[test]
fn sugiyama_layout_runs_without_panic() {
    let mut graph = FocusGraph::default();
    let n1 = node("A");
    let n2 = node("B");
    let n3 = node("C");
    graph.add_node(n1.clone());
    graph.add_node(n2.clone());
    graph.add_node(n3.clone());
    graph.add_edge(n1.id, n2.id);
    graph.add_edge(n2.id, n3.id);
    graph.add_edge(n1.id, n3.id);

    let plan = SugiyamaEngine::layout_plan(&graph);

    // The root sits in the first layer.
    assert_eq!(layer_of(&plan.ordered_layers, n1.id), Some(0), "Kök düğüm 0. katmanda olmalı");
    // The child sits deeper than the root.
    let l1 = layer_of(&plan.ordered_layers, n1.id).unwrap();
    let l3 = layer_of(&plan.ordered_layers, n3.id).unwrap();
    assert!(l3 > l1, "Child daha derin olmalı");

    // A link that closes a cycle is refused.
    let edges_before = graph.edges.len();
    graph.add_edge(n3.id, n1.id);
    assert_eq!(graph.edges.len(), edges_before, "Döngü oluşturan kenar reddedilmeli");
}

#[test]
fn layers_follow_longest_path() {
    let mut graph = FocusGraph::default();
    let a = node("A");
    let b = node("B");
    let c = node("C");
    let d = node("D");
    for n in [&a, &b, &c, &d] {
        graph.add_node(n.clone());
    }
    graph.add_edge(a.id, b.id);
    graph.add_edge(b.id, c.id);
    graph.add_edge(a.id, c.id);
    graph.add_edge(d.id, c.id);

    let levels = graph.get_node_levels();
    assert_eq!(levels[&a.id], 0);
    assert_eq!(levels[&b.id], 1);
    assert_eq!(levels[&c.id], 2);
    assert_eq!(levels[&d.id], 0);

    let plan = SugiyamaEngine::layout_plan(&graph);
    assert_eq!(plan.ordered_layers.len(), 3);
    assert_eq!(layer_of(&plan.ordered_layers, c.id), Some(2));
    let total: usize = plan.ordered_layers.iter().map(|l| l.len()).sum();
    assert_eq!(total, 4);
    // C has several prerequisites: it is a merge task.
    assert!(plan.independent_nodes.contains(&c.id));
}

#[test]
fn add_edge_refuses_self_duplicate_and_unknown() {
    let mut graph = FocusGraph::default();
    let a = node("A");
    let b = node("B");
    graph.add_node(a.clone());
    graph.add_node(b.clone());

    graph.add_edge(a.id, a.id);
    assert!(graph.edges.is_empty());

    graph.add_edge(a.id, b.id);
    graph.add_edge(a.id, b.id);
    assert_eq!(graph.edges, vec![Edge::new(a.id, b.id)]);

    graph.add_edge(a.id, 12345);
    assert_eq!(graph.edges.len(), 1);

    graph.add_edge(b.id, a.id);
    assert_eq!(graph.edges.len(), 1);
}

#[test]
fn add_node_keeps_ids_unique() {
    let mut graph = FocusGraph::default();
    let a = node("A");
    assert_eq!(graph.add_node(a.clone()), a.id);
    assert_eq!(graph.add_node(a.clone()), a.id);
    assert_eq!(graph.nodes.len(), 1);
    assert!(graph.contains_node(a.id));
    assert!(!graph.contains_node(a.id.wrapping_add(1)));
    assert_eq!(graph.node_position(a.id), Some(0));
    assert_eq!(graph.get_node(a.id).unwrap().title, "A");
}

#[test]
fn new_node_has_version_four_id() {
    let a = node("A");
    assert_eq!((a.id >> 76) & 0xf, 4);
    assert_eq!(a.progress_notes, "");
    assert!(a.image_id.is_none());
    assert!(!a.is_collapsed);
    assert!(!a.is_frozen);
}

#[test]
fn remove_node_drops_its_links() {
    let mut graph = FocusGraph::default();
    let a = node("A");
    let b = node("B");
    let c = node("C");
    for n in [&a, &b, &c] {
        graph.add_node(n.clone());
    }
    graph.add_edge(a.id, b.id);
    graph.add_edge(b.id, c.id);
    graph.add_edge(a.id, c.id);

    graph.remove_node(b.id);
    assert_eq!(graph.nodes.len(), 2);
    assert_eq!(graph.edges, vec![Edge::new(a.id, c.id)]);
    assert!(graph.get_node(b.id).is_none());

    graph.remove_edge(a.id, c.id);
    assert!(graph.edges.is_empty());
}

#[test]
fn parents_and_children_in_link_order() {
    let mut graph = FocusGraph::default();
    let a = node("A");
    let b = node("B");
    let c = node("C");
    for n in [&a, &b, &c] {
        graph.add_node(n.clone());
    }
    graph.add_edge(b.id, c.id);
    graph.add_edge(a.id, c.id);
    graph.add_edge(a.id, b.id);

    assert_eq!(graph.parents_of(c.id), vec![b.id, a.id]);
    assert_eq!(graph.children_of(a.id), vec![c.id, b.id]);
    assert!(graph.parents_of(a.id).is_empty());
    assert!(Edge::new(a.id, b.id).matches(a.id, b.id));
    assert!(Edge::new(a.id, b.id).involves_node(b.id));
    assert!(!Edge::new(a.id, b.id).involves_node(c.id));
}

#[test]
fn collapsed_parent_hides_its_children() {
    let mut graph = FocusGraph::default();
    let a = node("A");
    let b = node("B");
    let c = node("C");
    for n in [&a, &b, &c] {
        graph.add_node(n.clone());
    }
    graph.add_edge(a.id, b.id);
    graph.add_edge(b.id, c.id);

    assert!(graph.is_node_visible(c.id));
    graph.nodes[0].is_collapsed = true;
    assert!(graph.is_node_visible(a.id));
    assert!(!graph.is_node_visible(b.id));
    assert!(!graph.is_node_visible(c.id));
}

#[test]
fn task_with_one_open_parent_stays_visible() {
    let mut graph = FocusGraph::default();
    let a = node("A");
    let b = node("B");
    let c = node("C");
    for n in [&a, &b, &c] {
        graph.add_node(n.clone());
    }
    graph.add_edge(a.id, c.id);
    graph.add_edge(b.id, c.id);
    graph.nodes[0].is_collapsed = true;
    assert!(graph.is_node_visible(c.id));
    graph.nodes[1].is_collapsed = true;
    assert!(!graph.is_node_visible(c.id));
}

#[test]
fn empty_graph_has_one_layer() {
    let graph = FocusGraph::default();
    let plan = SugiyamaEngine::layout_plan(&graph);
    assert_eq!(plan.ordered_layers.len(), 1);
    assert!(plan.ordered_layers[0].is_empty());
    assert!(plan.independent_nodes.is_empty());
    assert!(graph.get_node_levels().is_empty());
}

#[test]
fn rows_and_columns_skip_frozen_tasks() {
    let mut graph = FocusGraph::default();
    let a = node("A");
    let b = node("B");
    let c = node("C");
    for n in [&a, &b, &c] {
        graph.add_node(n.clone());
    }
    graph.add_edge(a.id, b.id);
    graph.add_edge(a.id, c.id);
    let plan = SugiyamaEngine::layout_plan(&graph);
    let rows: Vec<u32> = (0..plan.ordered_layers.len()).map(|l| (l as f32 * 200.0).to_bits()).collect();
    let mut frozen = HashSet::new();
    frozen.insert(c.id);
    graph.nodes[2].y_bits = 7.0f32.to_bits();
    SugiyamaEngine::assign_y_coordinates(&mut graph, &plan.ordered_layers, &rows, &frozen);
    assert_eq!(f32::from_bits(graph.nodes[0].y_bits), 0.0);
    assert_eq!(f32::from_bits(graph.nodes[1].y_bits), 200.0);
    assert_eq!(f32::from_bits(graph.nodes[2].y_bits), 7.0);

    let mut columns = HashMap::new();
    columns.insert(a.id, 30.0f32.to_bits());
    columns.insert(c.id, 90.0f32.to_bits());
    SugiyamaEngine::apply_x_coordinates(&mut graph, &columns, &frozen);
    assert_eq!(f32::from_bits(graph.nodes[0].x_bits), 30.0);
    assert_eq!(f32::from_bits(graph.nodes[1].x_bits), 0.0);
    assert_eq!(f32::from_bits(graph.nodes[2].x_bits), 0.0);
}

#[test]
fn levels_and_plan_of_a_graph_with_a_cycle() {
    let mut graph = FocusGraph::default();
    let a = node("A");
    let b = node("B");
    graph.add_node(a.clone());
    graph.add_node(b.clone());
    graph.add_edge(a.id, b.id);
    // A link written in directly, past the cycle check.
    graph.edges.push(Edge::new(b.id, a.id));
    let levels = graph.get_node_levels();
    assert_eq!(levels.len(), 2);
    let plan = SugiyamaEngine::layout_plan(&graph);
    let total: usize = plan.ordered_layers.iter().map(|l| l.len()).sum();
    assert_eq!(total, 2);
}

#[test]
fn layered_graphs_and_barycenter_fit() {
    let mut graph = FocusGraph::default();
    let a = node("A");
    let b = node("B");
    let c = node("C");
    graph.add_node(a.clone());
    graph.add_node(b.clone());
    graph.add_node(c.clone());
    graph.add_edge(a.id, b.id);
    graph.add_edge(b.id, c.id);
    graph.add_edge(a.id, c.id);
    assert!(graph.is_layered());
    assert!(fits_barycenter_scale(&graph));
    let levels = graph.get_node_levels();
    assert_eq!(levels[&a.id], 0);
    assert_eq!(levels[&b.id], 1);
    assert_eq!(levels[&c.id], 2);
    // A link written in directly that closes a cycle.
    graph.edges.push(Edge::new(c.id, a.id));
    assert!(!graph.is_layered());
    // A link to an unknown task.
    graph.edges.pop();
    graph.edges.push(Edge::new(a.id, 7));
    assert!(!graph.is_layered());
}

#[test]
fn get_node_mut_changes_the_node_in_place() {
    let mut graph = FocusGraph::default();
    let a = node("A");
    graph.add_node(a.clone());
    match graph.get_node_mut(a.id) {
        Some(n) => n.title = "Z".to_string(),
        None => panic!("node missing"),
    }
    assert_eq!(graph.nodes[0].title, "Z");
    assert!(graph.get_node_mut(a.id.wrapping_add(1)).is_none());
}
