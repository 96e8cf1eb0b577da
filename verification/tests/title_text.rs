use uslu::title_text::{
    format_title_into_lines, split_characters_into_two_lines, split_whitespace, truncate_text_line,
    wrap_words_into_two_lines,
};

fn chars(s: &str) -> Vec<char> {
    s.chars().collect()
}

fn text(v: &[char]) -> String {
    v.iter().collect()
}

#[test]
fn truncation_ends_with_ellipsis() {
    assert_eq!(text(&truncate_text_line(&chars("Merhaba"), 4)), "Mer…");
    assert_eq!(text(&truncate_text_line(&chars("Merhaba"), 7)), "Merhaba");
    assert_eq!(text(&truncate_text_line(&chars("Merhaba"), 1)), "M");
    assert_eq!(text(&truncate_text_line(&chars("Merhaba"), 0)), "M");
    assert_eq!(text(&truncate_text_line(&chars(""), 0)), "");
}

#[test]
fn character_split_keeps_the_first_line_whole() {
    assert_eq!(text(&split_characters_into_two_lines(&chars("abcdefghij"), 4)), "abcd\nefg…");
    assert_eq!(text(&split_characters_into_two_lines(&chars("abcdef"), 4)), "abcd\nef");
}

#[test]
fn words_are_split_on_blanks() {
    let words = split_whitespace(&chars("  Bir  iki\tüç \n"));
    let words: Vec<String> = words.iter().map(|w| text(w)).collect();
    assert_eq!(words, vec!["Bir", "iki", "üç"]);
    assert!(split_whitespace(&chars("   ")).is_empty());
}

#[test]
fn word_wrap_fills_the_first_line() {
    let words: Vec<Vec<char>> = ["Prototip", "Geliştir", "ve", "Yayınla"].iter().map(|w| chars(w)).collect();
    let wrapped = wrap_words_into_two_lines(&words, 12).unwrap();
    assert_eq!(text(&wrapped), "Prototip\nGeliştir ve…");

    // No word fits: no wrap.
    let long: Vec<Vec<char>> = ["Uzunkelime", "iki"].iter().map(|w| chars(w)).collect();
    assert!(wrap_words_into_two_lines(&long, 4).is_none());
    // Every word fits: no wrap either.
    let short: Vec<Vec<char>> = ["a", "b"].iter().map(|w| chars(w)).collect();
    assert!(wrap_words_into_two_lines(&short, 10).is_none());
}

#[test]
fn title_layout() {
    assert_eq!(format_title_into_lines("Kısa", 10), "Kısa");
    assert_eq!(format_title_into_lines("Fikir Bul ve Planla", 10), "Fikir Bul\nve Planla");
    assert_eq!(format_title_into_lines("Tekkelimelikbaşlık", 6), "Tekkel\nimeli…");
}
