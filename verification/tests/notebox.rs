use std::collections::HashSet;
use uslu::notebox::{NoteBoxState, NoteBoxView, OrgFormatter, OrgLineType, OrgParser, OrgVisibilityEngine};

#[test]
fn test_toggle_task_on_line() {
    let input = "- [ ] Görev 1\n- [x] Görev 2\nNormal satır";
    assert_eq!(
        OrgFormatter::toggle_task_state_at_line(input, 0),
        "- [x] Görev 1\n- [x] Görev 2\nNormal satır"
    );
    assert_eq!(
        OrgFormatter::toggle_task_state_at_line(input, 1),
        "- [ ] Görev 1\n- [ ] Görev 2\nNormal satır"
    );
    assert_eq!(OrgFormatter::toggle_task_state_at_line(input, 2), input);
    assert_eq!(OrgFormatter::toggle_task_state_at_line(input, 7), input);
}

#[test]
fn toggle_twice_restores_the_note() {
    let input = "- [ ] a\n  - [x] b\n";
    let once = OrgFormatter::toggle_task_state_at_line(input, 1);
    assert_eq!(once, "- [ ] a\n  - [ ] b\n");
    assert_eq!(OrgFormatter::toggle_task_state_at_line(&once, 1), input);
}

#[test]
fn toggle_upper_case_box_unchecks() {
    let input = "- [X] done";
    assert_eq!(OrgFormatter::toggle_task_state_at_line(input, 0), "- [ ] done");
}

#[test]
fn parse_document_classifies_lines() {
    let parsed = OrgParser::parse_document("* Başlık\n  - [x] iş\n| a | b |\n|---+---|\nmetin\n**  Alt  ");
    assert_eq!(parsed.len(), 6);
    match &parsed[0].content_type {
        OrgLineType::Header { level, text } => {
            assert_eq!(*level, 1);
            assert_eq!(text, "Başlık");
        }
        other => panic!("unexpected {:?}", other),
    }
    assert_eq!(parsed[0].indentation_level, 0);
    match &parsed[1].content_type {
        OrgLineType::Task { is_checked, label } => {
            assert!(*is_checked);
            assert_eq!(label, "iş");
        }
        other => panic!("unexpected {:?}", other),
    }
    assert_eq!(parsed[1].indentation_level, 1);
    match &parsed[2].content_type {
        OrgLineType::TableRow { cells } => assert_eq!(cells, &vec!["a".to_string(), "b".to_string()]),
        other => panic!("unexpected {:?}", other),
    }
    assert!(matches!(parsed[3].content_type, OrgLineType::TableBorder));
    match &parsed[4].content_type {
        OrgLineType::StandardText { text } => assert_eq!(text, "metin"),
        other => panic!("unexpected {:?}", other),
    }
    match &parsed[5].content_type {
        OrgLineType::Header { level, text } => {
            assert_eq!(*level, 2);
            assert_eq!(text, "Alt");
        }
        other => panic!("unexpected {:?}", other),
    }
    assert_eq!(parsed[5].indentation_level, 1);
    assert_eq!(parsed[5].line_index, 5);
}

#[test]
fn format_aligns_tables_and_indents_headings() {
    let formatted = OrgFormatter::format_entire_document("|a|bb|\n|c|d|\n**  Alt\n  text\n");
    assert_eq!(
        formatted,
        "+---+----+--+\n| a | bb |  |\n+---+----+--+\n| c | d  |  |\n+---+----+--+\n  ** Alt\n  text\n"
    );
}

#[test]
fn format_drops_old_borders_and_pads_short_rows() {
    let formatted = OrgFormatter::format_entire_document("| x | long |\n|---+------|\n| y |");
    assert_eq!(
        formatted,
        "+---+------+--+\n| x | long |  |\n+---+------+--+\n| y |      |  |\n+---+------+--+"
    );
}

#[test]
fn folding_hides_deeper_lines() {
    let parsed = OrgParser::parse_document("* A\n  x\n* B\n  y");
    let mut collapsed = HashSet::new();
    collapsed.insert(0usize);
    let visible = OrgVisibilityEngine::filter_visible_lines(&parsed, &collapsed);
    let shown: Vec<usize> = visible.iter().map(|l| l.line_index).collect();
    assert_eq!(shown, vec![0, 2, 3]);
    let none = OrgVisibilityEngine::filter_visible_lines(&parsed, &HashSet::new());
    assert_eq!(none.len(), 4);
}

#[test]
fn folding_a_plain_line_hides_nothing() {
    let parsed = OrgParser::parse_document("text\n  deeper");
    let mut collapsed = HashSet::new();
    collapsed.insert(0usize);
    assert_eq!(OrgVisibilityEngine::filter_visible_lines(&parsed, &collapsed).len(), 2);
}

#[test]
fn fold_toggle_and_presentation() {
    let mut state = NoteBoxState::default();
    state.toggle_fold(3);
    assert!(state.collapsed_line_indices.contains(&3));
    state.toggle_fold(3);
    assert!(!state.collapsed_line_indices.contains(&3));
    assert_eq!(NoteBoxView::header_label(2, "Plan"), "** Plan");
    assert_eq!(NoteBoxView::header_font_size(1), 16);
    assert_eq!(NoteBoxView::header_font_size(2), 14);
    assert_eq!(NoteBoxView::header_font_size(5), 13);
    assert_eq!(NoteBoxView::indentation_padding(3), 48);
    assert_eq!(NoteBoxView::fold_icon(true), "\u{e5cc}");
}

#[test]
fn formatting_twice_changes_nothing_more() {
    let raw = "*** Deep  \n  text\n* Top\n";
    let once = OrgFormatter::format_entire_document(raw);
    assert_eq!(once, "    *** Deep\n  text\n* Top\n");
    assert_eq!(once.lines().count(), raw.lines().count());
    assert_eq!(OrgFormatter::format_entire_document(&once), once);
}

#[test]
fn toggling_keeps_the_other_lines() {
    let raw = "a\n- [ ] b\nc";
    let out = OrgFormatter::toggle_task_state_at_line(raw, 1);
    assert_eq!(out, "a\n- [x] b\nc");
    assert_eq!(OrgFormatter::toggle_task_state_at_line(&out, 1), raw);
    assert_eq!(OrgFormatter::toggle_task_state_at_line(raw, 5), raw);
}

#[test]
fn toggling_a_box_beside_other_brackets_twice_restores_it() {
    let raw = "- [ ] see [link]\n";
    let once = OrgFormatter::toggle_task_state_at_line(raw, 0);
    assert_eq!(once, "- [x] see [link]\n");
    assert_eq!(OrgFormatter::toggle_task_state_at_line(&once, 0), raw);
}

#[test]
fn formatting_tab_indented_lines_twice_changes_nothing_more() {
    let raw = "\t** Sub\n\tplain\n\t";
    let once = OrgFormatter::format_entire_document(raw);
    assert_eq!(once, "  ** Sub\nplain\n");
    assert_eq!(OrgFormatter::format_entire_document(&once), once);
}
