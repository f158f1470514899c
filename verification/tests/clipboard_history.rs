use better_spotlight::clipboard_history::{ClipboardHistory, MAX_ENTRIES, MAX_ENTRY_BYTES};

#[test]
fn captures_text_and_deduplicates_most_recent_first() {
    let mut history = ClipboardHistory::default();
    assert!(history.capture("first".to_string()));
    assert!(history.capture("second".to_string()));
    assert!(history.capture("first".to_string()));
    assert!(!history.capture("first".to_string()));

    let entries = history.search("");
    assert_eq!(entries.len(), 2);
    assert_eq!(entries[0].text, "first");
    assert_eq!(entries[1].text, "second");
}

#[test]
fn filters_case_insensitively_and_preserves_original_text() {
    let mut history = ClipboardHistory::default();
    history.capture("Launch Better Spotlight".to_string());
    history.capture("Unrelated note".to_string());

    let entries = history.search("SPOTLIGHT");
    assert_eq!(entries.len(), 1);
    assert_eq!(entries[0].text, "Launch Better Spotlight");
}

#[test]
fn ignores_empty_and_oversized_entries_and_caps_history() {
    let mut history = ClipboardHistory::default();
    assert!(!history.capture("  \n".to_string()));
    assert!(!history.capture("x".repeat(MAX_ENTRY_BYTES + 1)));

    for index in 0..MAX_ENTRIES + 5 {
        history.capture(format!("entry {index}"));
    }
    let entries = history.search("");
    assert_eq!(entries.len(), MAX_ENTRIES);
    assert_eq!(entries[0].text, format!("entry {}", MAX_ENTRIES + 4));
    assert_eq!(entries.last().unwrap().text, "entry 5");
}

#[test]
fn deletes_individual_entries_and_clears_history() {
    let mut history = ClipboardHistory::default();
    history.capture("one".to_string());
    history.capture("two".to_string());
    let id = history.search("")[0].id;

    assert!(history.delete(id));
    assert_eq!(history.search("").len(), 1);
    assert!(history.clear());
    assert!(history.is_empty());
    assert!(!history.clear());
}

#[test]
fn deleted_current_clipboard_is_not_immediately_recaptured() {
    let mut history = ClipboardHistory::default();
    history.capture("current".to_string());
    let id = history.search("")[0].id;

    history.delete(id);
    assert!(!history.capture("current".to_string()));
    assert!(history.is_empty());
    assert!(history.capture("different".to_string()));
    assert!(history.capture("current".to_string()));
}

#[test]
fn previews_collapse_whitespace_and_count_characters() {
    let mut history = ClipboardHistory::default();
    history.capture("  hello \n\t world  ".to_string());
    history.capture("é".to_string());
    let entries = history.search("");
    assert_eq!(entries[0].preview(), "é");
    assert_eq!(entries[0].metadata(), "1 character");
    assert_eq!(entries[1].preview(), "hello world");
    assert_eq!(entries[1].metadata(), "18 characters");
}

#[test]
fn preview_is_cut_to_one_hundred_sixty_characters() {
    let mut history = ClipboardHistory::default();
    history.capture("ab ".repeat(100));
    let entries = history.search("");
    assert_eq!(entries[0].preview().chars().count(), 160);
    assert_eq!(entries[0].metadata(), "300 characters");
}

#[test]
fn ids_grow_and_the_newest_comes_first() {
    let mut history = ClipboardHistory::default();
    history.capture("a".to_string());
    history.capture("b".to_string());
    history.capture("a".to_string());
    let entries = history.search(" ");
    assert_eq!(entries.len(), 2);
    assert_eq!(entries[0].id, 3);
    assert_eq!(entries[1].id, 2);
    assert_eq!(history.len(), 2);
}

#[test]
fn deleting_an_unknown_id_changes_nothing() {
    let mut history = ClipboardHistory::default();
    history.capture("a".to_string());
    assert!(!history.delete(42));
    assert_eq!(history.len(), 1);
}

#[test]
fn search_matches_substrings_only() {
    let mut history = ClipboardHistory::default();
    history.capture("Hello World".to_string());
    assert_eq!(history.search("  lo wo ").len(), 1);
    assert_eq!(history.search("low").len(), 0);
}

#[test]
fn largest_accepted_entry_is_captured() {
    let mut history = ClipboardHistory::default();
    assert!(history.capture("x".repeat(MAX_ENTRY_BYTES)));
}

#[test]
fn would_add_predicts_capture() {
    let mut history = ClipboardHistory::default();
    assert!(history.would_add("first"));
    assert!(!history.would_add("   "));
    assert!(history.capture("first".to_string()));
    assert!(!history.would_add("first"));
    assert!(history.would_add("second"));
    let found = history.search("");
    assert_eq!(found[0].id(), found[0].id);
    assert_eq!(found[0].text(), "first");
}

#[test]
fn blank_texts_are_exactly_the_white_space_ones() {
    let history = ClipboardHistory::default();
    for c in (0u32..=0x10ffff).filter_map(char::from_u32) {
        let text = c.to_string();
        assert_eq!(history.would_add(&text), !c.is_whitespace(), "{:?}", c);
    }
}
