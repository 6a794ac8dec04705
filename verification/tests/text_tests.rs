use redrob_vectordb::chunking::{chunk_sections, ParsedSection};
use redrob_vectordb::text::{clean_text, trim_str, truncate_chars};

#[test]
fn excerpt_truncation_respects_unicode_characters() {
    assert_eq!(truncate_chars("가나다라마바사", 4), "가나다라");
}

#[test]
fn truncation_keeps_short_text_whole() {
    assert_eq!(truncate_chars("abc", 10), "abc");
    assert_eq!(truncate_chars("abc", 0), "");
}

#[test]
fn clean_text_trims_lines_and_drops_blank_ones() {
    assert_eq!(clean_text("  first line  \n\n\t\n second\r\nthird  "), "first line\nsecond\nthird");
    assert_eq!(clean_text(""), "");
    assert_eq!(clean_text(" \n \n"), "");
}

#[test]
fn trim_removes_unicode_whitespace() {
    assert_eq!(trim_str("\u{3000} hello \u{a0}"), "hello");
}

fn section(text: &str) -> ParsedSection {
    ParsedSection { text: text.to_string(), page: Some(3), heading: Some("Intro".to_string()) }
}

#[test]
fn short_text_becomes_one_passage() {
    let chunks = chunk_sections(vec![section("This sentence is long enough to keep.")], 1200, 180);
    assert_eq!(chunks.len(), 1);
    assert_eq!(chunks[0].content, "This sentence is long enough to keep.");
    assert_eq!(chunks[0].page, Some(3));
    assert_eq!(chunks[0].heading.as_deref(), Some("Intro"));
}

#[test]
fn passages_shorter_than_twenty_characters_are_dropped() {
    let chunks = chunk_sections(vec![section("too short"), section("")], 1200, 180);
    assert!(chunks.is_empty());
}

#[test]
fn passages_end_after_a_sentence_break_and_overlap() {
    // 30 characters, a period at index 29; target 40 looks back to index 20.
    let text = format!("{}.{}", "a".repeat(29), "b".repeat(30));
    let chunks = chunk_sections(vec![section(&text)], 40, 5);
    assert_eq!(chunks.len(), 2);
    assert_eq!(chunks[0].content, format!("{}.", "a".repeat(29)));
    // next passage starts 5 characters before the end of the first one
    assert_eq!(chunks[1].content, format!("{}.{}", "a".repeat(4), "b".repeat(30)));
}

#[test]
fn passages_without_breaks_are_cut_at_the_target_size() {
    let text = "x".repeat(100);
    let chunks = chunk_sections(vec![section(&text)], 40, 10);
    let lengths: Vec<usize> = chunks.iter().map(|c| c.content.chars().count()).collect();
    assert_eq!(lengths, vec![40, 40, 40]);
}

#[test]
fn zero_target_size_still_terminates() {
    let chunks = chunk_sections(vec![section("some text that is long enough")], 0, 0);
    assert!(chunks.is_empty());
}

#[test]
fn cjk_full_stop_is_a_sentence_break() {
    let text = format!("{}。{}", "가".repeat(25), "나".repeat(30));
    let chunks = chunk_sections(vec![section(&text)], 40, 0);
    assert_eq!(chunks[0].content, format!("{}。", "가".repeat(25)));
}

#[test]
fn every_passage_fits_the_passage_size() {
    let text = "Lorem ipsum dolor sit amet, consectetur adipiscing elit. ".repeat(40)
        + "\n  Sed do eiusmod tempor incididunt ut labore et dolore magna aliqua!\n".repeat(20).as_str();
    let chunks = chunk_sections(vec![section(&text)], 256, 40);
    assert!(chunks.len() > 5);
    for chunk in &chunks {
        let n = chunk.content.chars().count();
        assert!((20..=256).contains(&n), "passage of {n} characters");
    }
}

#[test]
fn white_space_agrees_with_the_standard_library_on_every_character() {
    for c in (0u32..=0x10FFFF).filter_map(char::from_u32) {
        assert_eq!(redrob_vectordb::text::is_whitespace(c), c.is_whitespace(), "{:?}", c);
    }
}

#[test]
fn cleaned_text_is_made_of_trimmed_lines_and_is_stable() {
    let raw = "  Title \r\n\n\t body line one  \n \u{3000}\n last\u{a0}";
    let cleaned = clean_text(raw);
    assert_eq!(cleaned, "Title\nbody line one\nlast");
    assert_eq!(clean_text(&cleaned), cleaned);
    assert!(cleaned.split('\n').all(|line| !line.is_empty() && line.trim() == line));
}
