use uslu::escape::{escape_string, is_value_unclosed_multiline, unescape_string};
use uslu::markdown::{MarkdownIO, RawNode};
use uslu::models::{FocusGraph, FocusNode, NodeStatus};
use uslu::records::{build_graph, extract_position_parts, extract_status_text, NodeNumbers, ProcessedNode};

fn chars(s: &str) -> Vec<char> {
    s.chars().collect()
}

fn text(v: &[char]) -> String {
    v.iter().collect()
}

fn numbers_for(graph: &FocusGraph) -> Vec<NodeNumbers> {
    graph
        .nodes
        .iter()
        .map(|_| NodeNumbers { status: "0.0".to_string(), x: "0.0".to_string(), y: "0.0".to_string() })
        .collect()
}

fn read_graph(content: &str) -> FocusGraph {
    let records: Vec<RawNode> = MarkdownIO::read_records(content);
    let items: Vec<ProcessedNode> = records
        .iter()
        .map(|r| MarkdownIO::build_processed_node(r, NodeStatus::default(), 0, 0))
        .collect();
    build_graph(&items)
}

#[test]
fn test_multiline_description_export_import() {
    let mut graph = FocusGraph::default();
    let mut node = FocusNode::new("Test Node".to_string(), "Line 1\nLine 2\nLine 3".to_string());
    node.progress_notes = "Note line 1\nNote line 2".to_string();
    graph.add_node(node);

    let document = MarkdownIO::render_document(&graph, &numbers_for(&graph));
    let imported_graph = read_graph(&document);
    let imported_node = &imported_graph.nodes[0];

    assert_eq!(imported_node.description, "Line 1\nLine 2\nLine 3");
    assert_eq!(imported_node.progress_notes, "Note line 1\nNote line 2");
    assert_eq!(imported_node.title, "Test Node");
    assert_eq!(imported_node.id, graph.nodes[0].id);
}

const EXAMPLE_TREE: &str = "# Uslu Focus Tree

## Fikir Bul
- id: \"11111111-1111-4111-8111-111111111111\"
- description: \"Ne yapacağız?\"
- status: 100.0
- prerequisites: []
- position: [0.0, 0.0]

## Plan Yap
- id: \"22222222-2222-4222-8222-222222222222\"
- description: \"Adımlar\"
- prerequisites: [\"11111111-1111-4111-8111-111111111111\"]

## Prototip Geliştir
- id: \"33333333-3333-4333-8333-333333333333\"
- prerequisites: [\"22222222-2222-4222-8222-222222222222\"]

## Test Yaz
- id: \"44444444-4444-4444-8444-444444444444\"
- prerequisites: [\"22222222-2222-4222-8222-222222222222\"]

## Yayınla
- id: \"55555555-5555-4555-8555-555555555555\"
- prerequisites: [\"33333333-3333-4333-8333-333333333333\", \"44444444-4444-4444-8444-444444444444\"]

## Kutla
- id: \"66666666-6666-4666-8666-666666666666\"
- is_collapsed: TRUE
- prerequisites: [\"55555555-5555-4555-8555-555555555555\"]
";

#[test]
fn markdown_round_trip() {
    let graph = read_graph(EXAMPLE_TREE);
    assert_eq!(graph.nodes.len(), 6, "6 düğüm bekleniyor");

    let yayinla = graph.nodes.iter().find(|n| n.title == "Yayınla").expect("Yayınla düğümü bulunmalı");
    let parents = graph.parents_of(yayinla.id);
    assert_eq!(parents.len(), 2, "Yayınla'nın 2 prereq'i olmalı");

    let document = MarkdownIO::render_document(&graph, &numbers_for(&graph));
    let graph2 = read_graph(&document);

    assert_eq!(graph.nodes.len(), graph2.nodes.len());
    assert_eq!(graph.edges.len(), graph2.edges.len());
    for (a, b) in graph.nodes.iter().zip(graph2.nodes.iter()) {
        assert_eq!(a.id, b.id);
        assert_eq!(a.title, b.title);
        assert_eq!(a.description, b.description);
        assert_eq!(a.is_collapsed, b.is_collapsed);
    }
    assert!(graph2.nodes[5].is_collapsed);
}

#[test]
fn record_fields_are_read() {
    let records = MarkdownIO::read_records(EXAMPLE_TREE);
    assert_eq!(records.len(), 6);
    assert_eq!(text(&records[0].title), "Fikir Bul");
    let status = records[0].kv.iter().rev().find(|(k, _)| text(k) == "status").map(|(_, v)| text(v));
    assert_eq!(status.as_deref(), Some("100.0"));
}

#[test]
fn document_text_has_the_documented_shape() {
    let mut graph = FocusGraph::default();
    let mut node = FocusNode::new("Görev \"A\"".to_string(), "x".to_string());
    node.id = 0x0123_4567_89ab_cdef_0123_4567_89ab_cdef;
    graph.add_node(node);
    let numbers = vec![NodeNumbers { status: "75.0".to_string(), x: "120.0".to_string(), y: "360.0".to_string() }];
    let document = MarkdownIO::render_document(&graph, &numbers);
    assert_eq!(
        document,
        "# Uslu Focus Tree\n\n## Görev \\\"A\\\"\n\n- id: \"01234567-89ab-cdef-0123-456789abcdef\"\n- description: \"x\"\n- progress_notes: \"\"\n- status: 75.0\n- is_collapsed: false\n- is_frozen: false\n- prerequisites: []\n- position: [120.0, 360.0]\n\n"
    );
}

#[test]
fn multiline_value_continues_until_its_quote() {
    let graph = read_graph("## T\n- description: \"a\nb\"\n- is_frozen: true\n");
    assert_eq!(graph.nodes.len(), 1);
    assert_eq!(graph.nodes[0].description, "a\nb");
    assert!(graph.nodes[0].is_frozen);
}

#[test]
fn unterminated_value_is_kept_at_the_end() {
    let records = MarkdownIO::read_records("## T\n- description: \"a\nb");
    assert_eq!(records.len(), 1);
    assert_eq!(text(&records[0].kv[0].1), "\"a\nb");
}

#[test]
fn escaping_round_trips() {
    let s = chars("a\\b\"c\nd\re");
    let e = escape_string(&s);
    assert_eq!(text(&e), "a\\\\b\\\"c\\nd\\re");
    assert_eq!(unescape_string(&e), s);
    assert_eq!(text(&unescape_string(&chars("\\t\\q\\"))), "\t\\q\\");
}

#[test]
fn unclosed_values() {
    assert!(is_value_unclosed_multiline(&chars("\"abc")));
    assert!(!is_value_unclosed_multiline(&chars("\"a\\\"b\"")));
    assert!(!is_value_unclosed_multiline(&chars("plain")));
    assert!(is_value_unclosed_multiline(&chars("  \"x\\\" ")));
}

#[test]
fn unparsable_ids_get_fresh_ones() {
    let graph = read_graph("## A\n- id: \"not-a-uuid\"\n## B\n");
    assert_eq!(graph.nodes.len(), 2);
    assert_ne!(graph.nodes[0].id, graph.nodes[1].id);
}

fn kv(pairs: &[(&str, &str)]) -> Vec<(Vec<char>, Vec<char>)> {
    pairs.iter().map(|(k, v)| (chars(k), chars(v))).collect()
}

#[test]
fn status_and_position_texts() {
    let entries = kv(&[("progress", "\"42.5\""), ("position", "[ 1.5 ,  -2 ]")]);
    assert_eq!(extract_status_text(&entries).map(|t| text(&t)), Some("42.5".to_string()));
    let (x, y) = extract_position_parts(&entries).unwrap();
    assert_eq!((text(&x), text(&y)), ("1.5".to_string(), "-2".to_string()));

    let both = kv(&[("status", "10"), ("progress", "20"), ("position", "[1, 2, 3]")]);
    assert_eq!(extract_status_text(&both).map(|t| text(&t)), Some("10".to_string()));
    assert!(extract_position_parts(&both).is_none());
    assert!(extract_status_text(&kv(&[])).is_none());
}
