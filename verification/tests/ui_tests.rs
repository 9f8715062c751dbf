use std::sync::Arc;
use std::time::{Duration, Instant};

use slaunch::config::Config;
use slaunch::plugins::emoji::{EmojiInfo, EmojiPlugin};
use slaunch::plugins::{Entry, EntryKind};
use slaunch::search::Searcher;
use slaunch::ui::{key_action, route, window_layout, Key, KeyAction, QueryRoute, UiState};

fn entry(name: &str, priority: u8) -> Entry {
    Entry {
        name: name.to_string(),
        description: None,
        icon: None,
        kind: EntryKind::Command { path: format!("/bin/{name}") },
        priority,
        keywords: None,
    }
}

fn emoji() -> EmojiPlugin {
    EmojiPlugin::from_emojis(&vec![
        EmojiInfo { emoji: "A".to_string(), name: "apple".to_string(), shortcode: None },
        EmojiInfo { emoji: "B".to_string(), name: "apricot".to_string(), shortcode: None },
        EmojiInfo { emoji: "C".to_string(), name: "avocado".to_string(), shortcode: None },
    ])
}

fn state(entries: Vec<Entry>, max_results: usize) -> UiState<impl Fn() + Send + Sync + 'static> {
    let mut config = Config::default();
    config.window.max_results = max_results;
    let searcher = Searcher::new(entries, Arc::new(|| {}));
    let mut s = UiState::new(config, searcher, emoji());
    settle(&mut s);
    s
}

fn settle<F: Fn() + Send + Sync + 'static>(s: &mut UiState<F>) {
    let deadline = Instant::now() + Duration::from_secs(5);
    while s.searcher.is_matching() && Instant::now() < deadline {}
    s.resync_results();
}

fn names<F>(s: &UiState<F>) -> Vec<String> {
    s.results.iter().map(|e| e.name.clone()).collect()
}

#[test]
fn queries_are_routed_by_their_first_character() {
    assert_eq!(route("=1+1"), QueryRoute::Math);
    assert_eq!(route(":smile"), QueryRoute::Emoji);
    assert_eq!(route("fire"), QueryRoute::Fuzzy);
    assert_eq!(route(""), QueryRoute::Fuzzy);
    assert_eq!(route(" =1"), QueryRoute::Fuzzy);
}

#[test]
fn the_empty_query_shows_the_entries() {
    let s = state(vec![entry("one", 0), entry("two", 0)], 10);
    assert_eq!(names(&s), vec!["one", "two"]);
    assert_eq!(s.selected, 0);
    assert_eq!(s.shown_selection(), Some(0));
}

#[test]
fn emoji_queries_are_cut_to_max_results() {
    let mut s = state(vec![entry("one", 0)], 2);
    s.query = ":a".to_string();
    s.selected = 1;
    s.selection_moved = true;
    s.refresh_results(Vec::new());
    assert_eq!(names(&s), vec!["A apple", "B apricot"]);
    assert_eq!(s.selected, 0);
    assert!(!s.selection_moved);
}

#[test]
fn math_queries_show_what_the_calculator_produced() {
    let mut s = state(vec![entry("one", 0)], 5);
    s.query = "=1+2".to_string();
    s.refresh_results(vec![entry("3", 0)]);
    assert_eq!(names(&s), vec!["3"]);
    assert!(!s.resync_results());
    assert!(!s.refresh_after_entry_change());
}

#[test]
fn moving_the_highlight_stays_inside_the_list() {
    let mut s = state(vec![entry("a", 0), entry("b", 0), entry("c", 0)], 10);
    s.move_up();
    assert_eq!(s.selected, 0);
    assert!(!s.selection_moved);
    s.move_down();
    s.move_down();
    s.move_down();
    assert_eq!(s.selected, 2);
    assert!(s.selection_moved);
    s.move_up();
    assert_eq!(s.selected, 1);
}

#[test]
fn moving_down_in_an_empty_list_does_nothing() {
    let mut s = state(Vec::new(), 10);
    s.move_down();
    assert_eq!(s.selected, 0);
    assert!(!s.selection_moved);
    assert_eq!(s.shown_selection(), None);
}

#[test]
fn shown_selection_is_clamped_to_the_last_row() {
    let mut s = state(vec![entry("a", 0), entry("b", 0)], 10);
    s.selected = 7;
    assert_eq!(s.shown_selection(), Some(1));
}

#[test]
fn adopting_results_keeps_a_moved_highlight_on_its_entry() {
    let mut s = state(vec![entry("a", 0), entry("b", 0), entry("c", 0)], 10);
    s.move_down();
    s.move_down();
    assert_eq!(s.results[s.selected].name, "c");
    s.adopt_results(vec![entry("c", 0), entry("a", 0)]);
    assert_eq!(s.selected, 0);
    s.adopt_results(vec![entry("a", 0), entry("x", 0), entry("c", 0)]);
    assert_eq!(s.selected, 2);
    s.adopt_results(vec![entry("y", 0)]);
    assert_eq!(s.selected, 0);
}

#[test]
fn adopting_results_before_any_move_highlights_the_top() {
    let mut s = state(vec![entry("a", 0), entry("b", 0)], 10);
    s.selected = 1;
    s.adopt_results(vec![entry("b", 0), entry("a", 0)]);
    assert_eq!(s.selected, 0);
}

#[test]
fn an_unchanged_rescan_keeps_the_list_and_highlight() {
    let mut s = state(vec![entry("a", 0), entry("b", 0)], 10);
    s.move_down();
    s.searcher.reload(vec![entry("a", 0), entry("b", 0)]);
    let deadline = Instant::now() + Duration::from_secs(5);
    let mut changed = s.refresh_after_entry_change();
    while s.searcher.is_matching() && Instant::now() < deadline {}
    changed |= s.resync_results();
    assert!(!changed);
    assert_eq!(s.selected, 1);
}

#[test]
fn launching_a_row_uses_the_configuration() {
    let mut s = state(vec![entry("htop", 0)], 10);
    s.config.plugins.terminal = Some("foot".to_string());
    let launches = s.launch_at(0);
    assert_eq!(launches.len(), 1);
    assert_eq!(launches[0].program, "foot");
    assert!(s.launch_at(5).is_empty());
}

#[test]
fn window_layout_follows_the_anchor() {
    let mut w = Config::default().window;
    let center = window_layout(&w);
    assert_eq!((center.anchor_top, center.anchor_bottom), (false, false));
    assert_eq!((center.top_margin, center.bottom_margin), (None, None));
    assert_eq!(center.width, 640);
    assert_eq!(center.padding, 10);
    assert_eq!(center.max_content_height, 12 * 40);
    w.anchor = "bottom".to_string();
    let bottom = window_layout(&w);
    assert_eq!((bottom.anchor_top, bottom.anchor_bottom), (false, true));
    assert_eq!(bottom.bottom_margin, Some(60));
    w.anchor = "somewhere".to_string();
    let top = window_layout(&w);
    assert_eq!((top.anchor_top, top.anchor_bottom), (true, false));
    assert_eq!((top.top_margin, top.bottom_margin), (Some(60), None));
}

#[test]
fn keys_map_to_their_actions() {
    assert_eq!(key_action(Key::Escape), KeyAction::Hide);
    assert_eq!(key_action(Key::Return), KeyAction::LaunchSelected);
    assert_eq!(key_action(Key::KeypadEnter), KeyAction::LaunchSelected);
    assert_eq!(key_action(Key::Down), KeyAction::MoveDown);
    assert_eq!(key_action(Key::Tab), KeyAction::MoveDown);
    assert_eq!(key_action(Key::Up), KeyAction::MoveUp);
    assert_eq!(key_action(Key::ShiftTab), KeyAction::MoveUp);
    assert_eq!(key_action(Key::Other), KeyAction::PassOn);
}
