use uslu::models::{Edge, FocusGraph, FocusNode, NodeStatus};
use uslu::session::{calculate_level_counts, count_levels, determine_initial_max_level, should_autosave, FormValues, Session};
use uslu::sidebar::{is_valid_title, TabType};

fn chain() -> (FocusGraph, Vec<u128>) {
    let mut graph = FocusGraph::default();
    let mut ids = Vec::new();
    for t in ["A", "B", "C", "D"] {
        let n = FocusNode::new(t.to_string(), String::new());
        ids.push(n.id);
        graph.add_node(n);
    }
    graph.add_edge(ids[0], ids[1]);
    graph.add_edge(ids[1], ids[2]);
    graph.add_edge(ids[0], ids[3]);
    (graph, ids)
}

#[test]
fn tab_titles_and_icons() {
    assert_eq!(TabType::General.title(), "Genel");
    assert_eq!(TabType::Description.title(), "Açıklama");
    assert_eq!(TabType::ProgressNotes.title(), "İlerleme Notları");
    assert_eq!(TabType::Info.title(), "Bilgi & Seviye");
    assert_eq!(TabType::General.icon(), "\u{e8b8}");
    assert_eq!(TabType::Info.icon(), "\u{e88e}");
}

#[test]
fn titles_must_hold_more_than_blanks() {
    assert!(is_valid_title("Plan"));
    assert!(is_valid_title("  x "));
    assert!(!is_valid_title(""));
    assert!(!is_valid_title(" \t\n"));
}

#[test]
fn level_counts_and_initial_depth() {
    let (graph, _) = chain();
    let counts = calculate_level_counts(&graph);
    assert_eq!(counts.len(), 3);
    assert_eq!(counts[&0], 1);
    assert_eq!(counts[&1], 2);
    assert_eq!(counts[&2], 1);
    assert_eq!(determine_initial_max_level(&graph), 3);
    assert_eq!(determine_initial_max_level(&FocusGraph::default()), 1);
}

#[test]
fn session_starts_clean_with_frozen_tasks() {
    let (mut graph, ids) = chain();
    graph.nodes[2].is_frozen = true;
    let session = Session::new(graph, 3);
    assert!(session.selected.is_none());
    assert!(session.is_editing_enabled);
    assert!(!session.is_dirty);
    assert_eq!(session.frozen.len(), 1);
    assert!(session.frozen.contains(&ids[2]));
    assert_eq!(session.max_visible_level, 3);
}

#[test]
fn tabs_toggle_open_and_closed() {
    let (graph, _) = chain();
    let mut session = Session::new(graph, 3);
    session.toggle_tab_visibility(TabType::Info);
    session.toggle_tab_visibility(TabType::Description);
    assert_eq!(session.open_tabs, vec![TabType::Info, TabType::Description]);
    session.toggle_tab_visibility(TabType::Info);
    assert_eq!(session.open_tabs, vec![TabType::Description]);
}

#[test]
fn selecting_opens_general_and_locks_editing() {
    let (graph, ids) = chain();
    let mut session = Session::new(graph, 3);
    session.select_node(ids[1]);
    assert_eq!(session.selected, Some(ids[1]));
    assert!(!session.is_editing_enabled);
    assert_eq!(session.open_tabs, vec![TabType::General]);
    session.select_node(ids[2]);
    assert_eq!(session.open_tabs, vec![TabType::General]);
    session.deselect_all();
    assert!(session.selected.is_none());
}

#[test]
fn deleting_the_selected_task() {
    let (graph, ids) = chain();
    let mut session = Session::new(graph, 3);
    session.select_node(ids[1]);
    session.delete_selected_node();
    assert!(session.selected.is_none());
    assert!(session.is_dirty);
    assert_eq!(session.graph.nodes.len(), 3);
    assert_eq!(session.graph.edges, vec![Edge::new(ids[0], ids[3])]);
}

#[test]
fn connecting_the_selected_task() {
    let (graph, ids) = chain();
    let mut session = Session::new(graph, 3);
    session.select_node(ids[3]);
    session.connect_selected_to_target(ids[2]);
    assert_eq!(session.graph.edges.len(), 4);
    assert!(session.is_dirty);
    // A link back to an ancestor would close a cycle.
    session.select_node(ids[2]);
    session.connect_selected_to_target(ids[0]);
    assert_eq!(session.graph.edges.len(), 4);
}

#[test]
fn collapse_and_move() {
    let (graph, ids) = chain();
    let mut session = Session::new(graph, 3);
    session.toggle_node_collapse(ids[0]);
    assert!(session.graph.nodes[0].is_collapsed);
    session.toggle_node_collapse(ids[0]);
    assert!(!session.graph.nodes[0].is_collapsed);

    session.move_node(ids[1], 10.5f32.to_bits(), (-3.0f32).to_bits());
    let n = &session.graph.nodes[1];
    assert_eq!(f32::from_bits(n.x_bits), 10.5);
    assert_eq!(f32::from_bits(n.y_bits), -3.0);
    assert!(n.is_frozen);
    assert!(session.frozen.contains(&ids[1]));
}

#[test]
fn max_level_collapses_the_deepest_shown() {
    let (graph, _) = chain();
    let mut session = Session::new(graph, 3);
    session.update_max_visible_level(2);
    let collapsed: Vec<bool> = session.graph.nodes.iter().map(|n| n.is_collapsed).collect();
    assert_eq!(collapsed, vec![false, true, true, true]);
    assert_eq!(session.max_visible_level, 2);
    assert!(session.is_dirty);
}

#[test]
fn modifiers_and_autosave() {
    let (graph, _) = chain();
    let mut session = Session::new(graph, 3);
    session.handle_modifier(true, true, false, false);
    assert!(session.is_shift_pressed);
    session.handle_modifier(true, false, true, true);
    assert!(session.is_ctrl_pressed);
    session.handle_modifier(false, false, false, true);
    assert!(session.is_ctrl_pressed);
    session.handle_modifier(false, false, true, false);
    assert!(!session.is_ctrl_pressed);

    assert!(should_autosave(true, 60));
    assert!(!should_autosave(true, 59));
    assert!(!should_autosave(false, 600));
}

fn form(title: &str) -> FormValues {
    FormValues {
        title: title.to_string(),
        description: "açıklama".to_string(),
        progress_notes: "not".to_string(),
        image_id: Some(9),
        status: NodeStatus { progress_bits: 50.0f32.to_bits() },
    }
}

fn empty_form() -> FormValues {
    FormValues {
        title: String::new(),
        description: String::new(),
        progress_notes: String::new(),
        image_id: None,
        status: NodeStatus::default(),
    }
}

#[test]
fn form_is_copied_into_the_selected_task() {
    let (graph, ids) = chain();
    let mut session = Session::new(graph, 3);
    session.auto_sync_selected(&form("Yeni"));
    assert_eq!(session.graph.nodes[1].title, "B");
    assert!(!session.is_dirty);
    session.select_node(ids[1]);
    assert!(!session.can_edit_form());
    session.toggle_editing();
    assert!(session.can_edit_form());
    session.auto_sync_selected(&form("Yeni"));
    let n = &session.graph.nodes[1];
    assert_eq!(n.title, "Yeni");
    assert_eq!(n.description, "açıklama");
    assert_eq!(n.progress_notes, "not");
    assert_eq!(n.image_id, Some(9));
    assert_eq!(f32::from_bits(n.status.progress_bits), 50.0);
    assert!(session.is_dirty);
}

#[test]
fn clicks_fold_link_and_select() {
    let (graph, ids) = chain();
    let mut session = Session::new(graph, 3);
    session.process_node_click(ids[2], false, true, &form("x"));
    assert!(session.graph.nodes[2].is_collapsed);
    assert!(session.selected.is_none());

    session.process_node_click(ids[3], false, false, &form("x"));
    assert_eq!(session.selected, Some(ids[3]));
    assert_eq!(session.graph.nodes[3].title, "D");

    session.process_node_click(ids[2], true, false, &form("D2"));
    assert_eq!(session.selected, Some(ids[2]));
    assert_eq!(session.graph.edges.len(), 4);
    assert!(session.graph.edges.contains(&Edge::new(ids[3], ids[2])));
    // The form went into the task selected before the click.
    assert_eq!(session.graph.nodes[3].title, "D2");
    assert!(session.is_dirty);

    // A plain click with nothing selected changes nothing to save.
    let (graph, ids) = chain();
    let mut fresh = Session::new(graph, 3);
    fresh.process_node_click(ids[1], false, false, &form("x"));
    assert!(!fresh.is_dirty);
}

#[test]
fn new_tasks_need_a_title() {
    let (graph, _) = chain();
    let mut session = Session::new(graph, 3);
    assert_eq!(session.spawn_new_node_at_viewport(&form("  "), &empty_form(), 0, 0), None);
    assert_eq!(session.graph.nodes.len(), 4);
    assert!(!session.is_dirty);

    let id = session.spawn_new_node_at_viewport(&form("Yeni görev"), &empty_form(), 5.0f32.to_bits(), 6.0f32.to_bits()).unwrap();
    assert_eq!(session.graph.nodes.len(), 5);
    let n = session.graph.get_node(id).unwrap();
    assert_eq!(n.title, "Yeni görev");
    assert_eq!(f32::from_bits(n.x_bits), 5.0);
    assert_eq!(f32::from_bits(n.y_bits), 6.0);
    assert_eq!(session.selected, Some(id));
    assert!(session.is_dirty);
}

#[test]
fn number_of_levels() {
    let (graph, _) = chain();
    assert_eq!(count_levels(&graph), 3);
    assert_eq!(count_levels(&FocusGraph::default()), 0);
}

#[test]
fn fresh_ids_and_their_text() {
    let id = uslu::ids::fresh_id();
    let text = uslu::ids::id_text(id);
    assert_eq!(text.len(), 36);
    assert_eq!(text.as_bytes()[14], b'4');
    assert!(matches!(text.as_bytes()[19], b'8' | b'9' | b'a' | b'b'));
    assert_eq!(uslu::ids::id_text(0x0123456789abcdef0123456789abcdef), "01234567-89ab-cdef-0123-456789abcdef");
}
