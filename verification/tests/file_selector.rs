use uslu::file_selector::{
    check_if_double_click, format_system_time, is_hidden_file, is_supported_image_file, matches_folder_prefix,
    sort_entries, FileEntryItem, FileEntryKind, FileSelectorState, FileSelectorView, NavKey, RowShade,
    SelectorAction, SelectorEvent, SortColumn, SortDirection,
};

fn entry(name: &str, kind: FileEntryKind, size: u64, time: u128) -> FileEntryItem {
    FileEntryItem { name: name.to_string(), path: format!("/d/{}", name), kind, size_bytes: size, modified_time: time }
}

fn names(v: &[FileEntryItem]) -> Vec<String> {
    v.iter().map(|e| e.name.clone()).collect()
}

#[test]
fn directories_come_first_then_names_without_case() {
    let mut v = vec![
        entry("b.png", FileEntryKind::SupportedImage, 5, 1),
        entry("Zeta", FileEntryKind::Directory, 0, 2),
        entry("A.png", FileEntryKind::SupportedImage, 9, 3),
        entry("alpha", FileEntryKind::Directory, 0, 4),
    ];
    sort_entries(&mut v, SortColumn::Name, SortDirection::Ascending);
    assert_eq!(names(&v), vec!["alpha", "Zeta", "A.png", "b.png"]);
    sort_entries(&mut v, SortColumn::Name, SortDirection::Descending);
    assert_eq!(names(&v), vec!["b.png", "A.png", "Zeta", "alpha"]);
}

#[test]
fn size_sort_is_stable() {
    let mut v = vec![
        entry("x.png", FileEntryKind::SupportedImage, 7, 1),
        entry("y.png", FileEntryKind::SupportedImage, 3, 1),
        entry("z.png", FileEntryKind::SupportedImage, 7, 1),
    ];
    sort_entries(&mut v, SortColumn::Size, SortDirection::Ascending);
    assert_eq!(names(&v), vec!["y.png", "x.png", "z.png"]);
}

#[test]
fn file_kinds() {
    assert!(is_hidden_file(".git"));
    assert!(!is_hidden_file("git"));
    assert!(is_supported_image_file("photo.JPG"));
    assert!(is_supported_image_file("a.b.webp"));
    assert!(!is_supported_image_file(".png"));
    assert!(!is_supported_image_file("notes.txt"));
    assert!(!is_supported_image_file("png"));
    assert!(matches_folder_prefix("Documents", "doc"));
    assert!(!matches_folder_prefix("Music", "doc"));
    assert!(matches_folder_prefix("Music", ""));
}

#[test]
fn double_click_window() {
    let last = Some("/d/a".to_string());
    assert!(check_if_double_click(&last, "/d/a", Some(1000), 1400));
    assert!(!check_if_double_click(&last, "/d/a", Some(1000), 1401));
    assert!(!check_if_double_click(&last, "/d/b", Some(1000), 1100));
    assert!(check_if_double_click(&last, "/d/a", Some(1000), 900));
    assert!(!check_if_double_click(&None, "/d/a", Some(1000), 1100));
    // Paths are compared by their components.
    let slash = Some("/d/a/".to_string());
    assert!(check_if_double_click(&slash, "/d/a", Some(1000), 1100));
    assert!(check_if_double_click(&Some("/d//a".to_string()), "/d/a", Some(1000), 1100));
}

#[test]
fn modification_time_text() {
    assert_eq!(format_system_time(Some(90061)), "Gün 1 01:01");
    assert_eq!(format_system_time(Some(0)), "Gün 0 00:00");
    assert_eq!(format_system_time(Some(86400 * 12 + 3600 * 13 + 60 * 45)), "Gün 12 13:45");
    assert_eq!(format_system_time(None), "--");
}

fn picker() -> FileSelectorState {
    FileSelectorState::new(
        "/d".to_string(),
        vec![
            entry("b.png", FileEntryKind::SupportedImage, 5, 1),
            entry("sub", FileEntryKind::Directory, 0, 2),
            entry("a.png", FileEntryKind::SupportedImage, 9, 3),
        ],
    )
}

#[test]
fn arrow_keys_walk_the_list() {
    let mut s = picker();
    assert_eq!(names(&s.directory_entries), vec!["sub", "a.png", "b.png"]);
    match s.update(SelectorEvent::KeyPressed(NavKey::ArrowDown)) {
        SelectorAction::ClearPreview => {}
        other => panic!("unexpected {:?}", other),
    }
    assert_eq!(s.selected_entry.as_ref().unwrap().name, "sub");
    match s.update(SelectorEvent::KeyPressed(NavKey::ArrowDown)) {
        SelectorAction::LoadPreview(p) => assert_eq!(p, "/d/a.png"),
        other => panic!("unexpected {:?}", other),
    }
    s.update(SelectorEvent::KeyPressed(NavKey::ArrowDown));
    s.update(SelectorEvent::KeyPressed(NavKey::ArrowDown));
    assert_eq!(s.selected_entry.as_ref().unwrap().name, "b.png");
    match s.update(SelectorEvent::KeyPressed(NavKey::Enter)) {
        SelectorAction::Selected(p) => assert_eq!(p, "/d/b.png"),
        other => panic!("unexpected {:?}", other),
    }
    match s.update(SelectorEvent::KeyPressed(NavKey::Backspace)) {
        SelectorAction::ChangeToParent => {}
        other => panic!("unexpected {:?}", other),
    }
}

#[test]
fn clicks_select_and_double_clicks_open() {
    let mut s = picker();
    let sub = entry("sub", FileEntryKind::Directory, 0, 2);
    match s.update(SelectorEvent::EntryClicked(sub.clone(), 5000)) {
        SelectorAction::ClearPreview => {}
        other => panic!("unexpected {:?}", other),
    }
    match s.update(SelectorEvent::EntryClicked(sub, 5300)) {
        SelectorAction::ChangeDirectory(p) => assert_eq!(p, "/d/sub"),
        other => panic!("unexpected {:?}", other),
    }
    s.apply_directory("/d/sub".to_string(), vec![entry("c.gif", FileEntryKind::SupportedImage, 1, 1)]);
    assert_eq!(s.current_directory, "/d/sub");
    assert_eq!(s.path_input_text, "/d/sub");
    assert!(s.selected_entry.is_none());
    match s.update(SelectorEvent::ConfirmSelection) {
        SelectorAction::Nothing => {}
        other => panic!("unexpected {:?}", other),
    }
}

#[test]
fn header_clicks_flip_the_order() {
    let mut s = picker();
    s.update(SelectorEvent::SortColumnClicked(SortColumn::Name));
    assert_eq!(s.active_sort_direction, SortDirection::Descending);
    assert_eq!(names(&s.directory_entries), vec!["b.png", "a.png", "sub"]);
    s.update(SelectorEvent::SortColumnClicked(SortColumn::Size));
    assert_eq!(s.active_sort_column, SortColumn::Size);
    assert_eq!(s.active_sort_direction, SortDirection::Ascending);
    assert_eq!(names(&s.directory_entries), vec!["sub", "b.png", "a.png"]);
}

#[test]
fn suggestions_take_the_keys() {
    let mut s = picker();
    match s.update(SelectorEvent::PathInputChanged("/d/s".to_string())) {
        SelectorAction::ComputeSuggestions(p) => assert_eq!(p, "/d/s"),
        other => panic!("unexpected {:?}", other),
    }
    s.set_suggestions(vec!["/d/sub".to_string(), "/d/sys".to_string()]);
    assert_eq!(s.autocomplete_selected_index, Some(0));
    s.update(SelectorEvent::KeyPressed(NavKey::ArrowDown));
    s.update(SelectorEvent::KeyPressed(NavKey::ArrowDown));
    assert_eq!(s.autocomplete_selected_index, Some(1));
    match s.update(SelectorEvent::KeyPressed(NavKey::Tab)) {
        SelectorAction::ChangeDirectory(p) => assert_eq!(p, "/d/sys"),
        other => panic!("unexpected {:?}", other),
    }
    assert!(s.autocomplete_suggestions.is_empty());
    s.update(SelectorEvent::PathInputChanged(String::new()));
    assert!(s.autocomplete_selected_index.is_none());
}

#[test]
fn picker_view_texts() {
    let dir = Some(entry("sub", FileEntryKind::Directory, 0, 0));
    assert_eq!(FileSelectorView::preview_placeholder(&dir), "Klasör Seçildi");
    assert_eq!(FileSelectorView::preview_placeholder(&None), "Ön İzleme Yok");
    assert!(!FileSelectorView::is_image_selected(&dir));
    assert_eq!(FileSelectorView::row_shade(3, false), RowShade::Odd);
    assert_eq!(FileSelectorView::row_shade(3, true), RowShade::Selected);
    assert_eq!(FileSelectorView::sort_indicator(SortColumn::Name, SortDirection::Descending, SortColumn::Name), Some(false));
    assert_eq!(FileSelectorView::sort_indicator(SortColumn::Name, SortDirection::Descending, SortColumn::Size), None);
}
