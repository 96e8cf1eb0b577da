use uslu::models::{FocusGraph, FocusNode, NodeStatus};
use uslu::orgmode::{decode_org_content_indentation, encode_org_content_indentation, OrgmodeIO};
use uslu::records::{build_graph, NodeNumbers};

fn chars(s: &str) -> Vec<char> {
    s.chars().collect()
}

fn text(v: &[char]) -> String {
    v.iter().collect()
}

#[test]
fn org_notes_are_indented_and_demoted() {
    let encoded = encode_org_content_indentation(&chars("* Plan\nadım\n\n- [ ] iş"));
    assert_eq!(text(&encoded), "**** Plan\n      adım\n\n      - [ ] iş");
    let decoded = decode_org_content_indentation(&encoded);
    assert_eq!(text(&decoded), "* Plan\nadım\n\n- [ ] iş");
}

#[test]
fn org_document_round_trip() {
    let mut graph = FocusGraph::default();
    let mut a = FocusNode::new("Kök".to_string(), "* Başlık\nmetin".to_string());
    a.progress_notes = "ilk not".to_string();
    let b = FocusNode::new("Çocuk".to_string(), String::new());
    let a_id = graph.add_node(a);
    let b_id = graph.add_node(b);
    graph.add_edge(a_id, b_id);
    let numbers: Vec<NodeNumbers> = graph
        .nodes
        .iter()
        .map(|_| NodeNumbers { status: "50.0".to_string(), x: "1.0".to_string(), y: "2.0".to_string() })
        .collect();
    let document = OrgmodeIO::render_document(&graph, &numbers);
    assert!(document.starts_with("#+TITLE: Uslu Focus Tree\n\n** Kök\n\n"));
    let records = OrgmodeIO::read_records(&document).expect("readable");
    assert_eq!(records.len(), 2);
    assert_eq!(text(&records[0].description), "* Başlık\nmetin");
    assert_eq!(text(&records[0].progress_notes), "ilk not");
    assert_eq!(text(&records[1].description), "");
    let items: Vec<_> = records
        .iter()
        .map(|r| OrgmodeIO::build_processed_node(r, NodeStatus::default(), 0, 0))
        .collect();
    let graph2 = build_graph(&items);
    assert_eq!(graph2.nodes.len(), 2);
    assert_eq!(graph2.nodes[0].id, a_id);
    assert_eq!(graph2.nodes[1].title, "Çocuk");
    assert_eq!(graph2.parents_of(b_id), vec![a_id]);
}

#[test]
fn org_reader_refuses_a_cut_heading() {
    let content = "** T\n*** description:\n \u{3000}**** x\n";
    assert!(OrgmodeIO::read_records(content).is_none());
}

#[test]
fn org_task_lines_stay_in_their_block() {
    let content = "** T\n*** description:\n      - [x] bitti\n- id: \"x\"\n";
    let records = OrgmodeIO::read_records(content).expect("readable");
    assert_eq!(text(&records[0].description), "- [x] bitti");
    assert_eq!(records[0].kv.len(), 1);
}

#[test]
fn indented_headings_do_not_come_back() {
    let encoded = encode_org_content_indentation(&chars("  * x"));
    assert_eq!(text(&encoded), "***  * x");
    assert_eq!(text(&decode_org_content_indentation(&encoded)), "***  * x");
}
