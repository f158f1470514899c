use better_spotlight::search::{
    delete_word, edit_query, key_command, move_selection_down, move_selection_up, offset_from_utf16,
    offset_to_utf16, rank_matches, replace_span, icon_requests, single_line, ClipboardAction, Confirmation,
    KeyCommand, key_step, selection_after_delete, KeyAction, KeyState,
};
use better_spotlight::theme;

#[test]
fn selection_window_follows_downward_navigation() {
    let mut selected = 0;
    let mut visible_start = 0;
    for _ in 0..8 {
        move_selection_down(&mut selected, &mut visible_start, 12);
    }
    assert_eq!(selected, 8);
    assert_eq!(visible_start, 2);
    assert!(selected < visible_start + theme::MAX_VISIBLE_RESULTS);
}

#[test]
fn selection_window_follows_upward_navigation() {
    let mut selected = 0;
    let mut visible_start = 0;
    for _ in 0..9 {
        move_selection_down(&mut selected, &mut visible_start, 12);
    }
    for _ in 0..7 {
        move_selection_up(&mut selected, &mut visible_start);
    }
    assert_eq!(selected, 2);
    assert_eq!(visible_start, 2);
}

#[test]
fn delete_word_handles_unicode() {
    let mut query = "Open 日本語".to_string();
    delete_word(&mut query);
    assert_eq!(query, "Open ");
}

#[test]
fn selection_stops_at_both_ends() {
    let mut selected = 0;
    let mut visible_start = 0;
    move_selection_up(&mut selected, &mut visible_start);
    assert_eq!((selected, visible_start), (0, 0));
    for _ in 0..5 {
        move_selection_down(&mut selected, &mut visible_start, 3);
    }
    assert_eq!((selected, visible_start), (2, 0));
}

#[test]
fn delete_word_drops_trailing_separators_first() {
    let mut query = "open safari, ".to_string();
    delete_word(&mut query);
    assert_eq!(query, "open ");
    let mut query = "...".to_string();
    delete_word(&mut query);
    assert_eq!(query, "");
}

fn names(list: &[&str]) -> Vec<String> {
    list.iter().map(|s| s.to_string()).collect()
}

#[test]
fn empty_query_lists_every_application_in_order() {
    let apps = names(&["Safari", "Notes", "Mail"]);
    assert_eq!(rank_matches("", &apps), vec![0, 1, 2]);
}

#[test]
fn ranking_orders_by_score_then_name_and_drops_non_matches() {
    let apps = names(&["Notes", "Safari", "Numbers", "Mail"]);
    // "n": Notes 20 - 1 = 19, Numbers 20 - 1 = 19 (ties broken by name), Safari no n.
    assert_eq!(rank_matches("n", &apps), vec![0, 2]);
    // "sa": only Safari matches.
    assert_eq!(rank_matches("sa", &apps), vec![1]);
    // equal scores and equal lowercase names keep their order
    let twins = names(&["Zed", "zed", "Alpha"]);
    assert_eq!(rank_matches("z", &twins), vec![0, 1]);
}

#[test]
fn higher_scores_come_first() {
    let apps = names(&["Google Chrome", "Chrome"]);
    // "ch": Chrome 20 + 10 - 1 = 29; Google Chrome 20 + 10 - 3 = 27.
    assert_eq!(rank_matches("ch", &apps), vec![1, 0]);
}

#[test]
fn utf16_offsets_convert_both_ways() {
    let text = "aé😀b";
    // bytes: a=1, é=2, 😀=4, b=1; UTF-16 units: 1, 1, 2, 1.
    assert_eq!(offset_to_utf16(text, 0), 0);
    assert_eq!(offset_to_utf16(text, 3), 2);
    assert_eq!(offset_to_utf16(text, 7), 4);
    assert_eq!(offset_to_utf16(text, 8), 5);
    assert_eq!(offset_from_utf16(text, 2), 3);
    assert_eq!(offset_from_utf16(text, 3), 7);
    assert_eq!(offset_from_utf16(text, 5), 8);
    assert_eq!(offset_from_utf16(text, 99), 8);
}

#[test]
fn pasted_line_breaks_become_spaces() {
    assert_eq!(single_line("a\r\nb\nc"), "a  b c");
}

#[test]
fn keys_map_to_commands() {
    assert_eq!(key_command("backspace", true, true), KeyCommand::ClearQuery);
    assert_eq!(key_command("backspace", false, true), KeyCommand::DeleteWord);
    assert_eq!(key_command("backspace", false, false), KeyCommand::DeleteChar);
    assert_eq!(key_command("escape", false, false), KeyCommand::Hide);
    assert_eq!(key_command("enter", false, false), KeyCommand::Open);
    assert_eq!(key_command("up", false, false), KeyCommand::SelectPrevious);
    assert_eq!(key_command("down", false, false), KeyCommand::SelectNext);
    assert_eq!(key_command("a", false, false), KeyCommand::Ignore);
}

#[test]
fn editing_commands_change_the_query() {
    let mut query = "open mail".to_string();
    edit_query(&mut query, KeyCommand::DeleteChar);
    assert_eq!(query, "open mai");
    edit_query(&mut query, KeyCommand::DeleteWord);
    assert_eq!(query, "open ");
    edit_query(&mut query, KeyCommand::Hide);
    assert_eq!(query, "open ");
    edit_query(&mut query, KeyCommand::ClearQuery);
    assert_eq!(query, "");
    edit_query(&mut query, KeyCommand::DeleteChar);
    assert_eq!(query, "");
}

#[test]
fn destructive_clipboard_actions_need_a_second_request() {
    let mut confirmation = Confirmation::new();
    assert_eq!(confirmation.pending(), None);
    assert!(!confirmation.request(ClipboardAction::Delete(3)));
    assert_eq!(confirmation.pending(), Some(ClipboardAction::Delete(3)));
    assert!(confirmation.request(ClipboardAction::Delete(3)));
    assert_eq!(confirmation.pending(), None);

    assert!(!confirmation.request(ClipboardAction::Delete(3)));
    assert!(!confirmation.request(ClipboardAction::Delete(4)));
    assert!(!confirmation.request(ClipboardAction::ClearAll));
    assert!(confirmation.request(ClipboardAction::ClearAll));

    assert!(!confirmation.request(ClipboardAction::ClearAll));
    confirmation.cancel();
    assert!(!confirmation.request(ClipboardAction::ClearAll));
}

#[test]
fn spans_of_the_query_are_replaced() {
    assert_eq!(replace_span("Open 日本", 5, 8, "x"), "Open x本");
    assert_eq!(replace_span("abc", 3, 3, "d"), "abcd");
    assert_eq!(replace_span("abc", 0, 3, ""), "");
    assert_eq!(replace_span("héllo", 1, 3, "e"), "hello");
}

#[test]
fn only_visible_results_without_icons_are_requested() {
    let needs = [true, false, true, true, false, true, true, true, true, true];
    assert_eq!(icon_requests(0, &needs), vec![0, 2, 3, 5, 6]);
    assert_eq!(icon_requests(2, &needs), vec![2, 3, 5, 6, 7, 8]);
    assert_eq!(icon_requests(9, &needs), vec![9]);
    assert_eq!(icon_requests(12, &needs), Vec::<usize>::new());
}

fn key_state(query: &str) -> KeyState {
    KeyState {
        query: query.to_string(),
        query_selected: false,
        clipboard_mode: false,
        selected: 0,
        visible_start: 0,
        move_count: 0,
    }
}

#[test]
fn key_steps_edit_move_and_hide() {
    let mut confirmation = Confirmation::new();
    let mut state = key_state("Open 日本語");
    assert_eq!(key_step(&mut state, &mut confirmation, KeyCommand::DeleteWord, 3), KeyAction::Refilter);
    assert_eq!(state.query, "Open ");

    state.query_selected = true;
    assert!(!confirmation.request(ClipboardAction::ClearAll));
    assert_eq!(key_step(&mut state, &mut confirmation, KeyCommand::DeleteChar, 3), KeyAction::Refilter);
    assert_eq!(state.query, "");
    assert!(!state.query_selected);
    assert_eq!(confirmation.pending(), None);

    assert_eq!(key_step(&mut state, &mut confirmation, KeyCommand::SelectNext, 3), KeyAction::Nothing);
    assert_eq!((state.selected, state.move_count), (1, 1));
    assert_eq!(key_step(&mut state, &mut confirmation, KeyCommand::SelectPrevious, 3), KeyAction::Nothing);
    assert_eq!((state.selected, state.move_count), (0, 2));

    assert!(!confirmation.request(ClipboardAction::ClearAll));
    assert_eq!(key_step(&mut state, &mut confirmation, KeyCommand::Ignore, 3), KeyAction::Nothing);
    assert_eq!(confirmation.pending(), Some(ClipboardAction::ClearAll));

    assert_eq!(key_step(&mut state, &mut confirmation, KeyCommand::Open, 3), KeyAction::Open);
    state.clipboard_mode = true;
    assert_eq!(key_step(&mut state, &mut confirmation, KeyCommand::Hide, 3), KeyAction::Refilter);
    assert!(!state.clipboard_mode);
    assert_eq!(key_step(&mut state, &mut confirmation, KeyCommand::Hide, 3), KeyAction::Hide);
}

#[test]
fn selection_stays_in_place_after_a_delete() {
    assert_eq!(selection_after_delete(2, 5), 2);
    assert_eq!(selection_after_delete(4, 4), 3);
    assert_eq!(selection_after_delete(3, 0), 0);
}
