use std::sync::atomic::AtomicUsize;
use std::sync::Arc;
use std::time::{Duration, Instant};

use slaunch::plugins::{Entry, EntryKind};
use slaunch::search::{MatchedEntry, Searcher};

fn entry(name: &str, priority: u8) -> Entry {
    Entry {
        name: name.to_string(),
        description: None,
        icon: None,
        kind: EntryKind::Command { path: name.into() },
        priority,
        keywords: None,
    }
}

fn searcher(entries: Vec<Entry>) -> Searcher<impl Fn() + Send + Sync + 'static> {
    Searcher::new(entries, Arc::new(|| {}))
}

/// Query and settle the matcher, waiting until it reports itself idle.
fn search(entries: Vec<Entry>, query: &str, limit: usize) -> Vec<MatchedEntry> {
    let mut searcher = searcher(entries);
    searcher.update_pattern(query);
    settle(&mut searcher, limit)
}

/// Deadline-capped so a regression fails the test rather than hanging it.
fn settle<F: Fn() + Send + Sync + 'static>(searcher: &mut Searcher<F>, limit: usize) -> Vec<MatchedEntry> {
    let deadline = Instant::now() + Duration::from_secs(5);
    while searcher.is_matching() && Instant::now() < deadline {}
    searcher.results(limit)
}

#[test]
fn empty_query_returns_all_entries_up_to_limit() {
    let entries = vec![entry("firefox", 0), entry("alacritty", 0), entry("htop", 0)];
    let results = search(entries, "", 10);
    assert_eq!(results.len(), 3);
}

#[test]
fn empty_query_respects_limit() {
    let entries = vec![entry("firefox", 0), entry("alacritty", 0), entry("htop", 0)];
    let results = search(entries, "", 2);
    assert_eq!(results.len(), 2);
}

#[test]
fn no_match_returns_empty() {
    let entries = vec![entry("firefox", 0), entry("alacritty", 0)];
    let results = search(entries, "zzzzzznomatch", 10);
    assert!(results.is_empty());
}

#[test]
fn fuzzy_match_finds_subsequence() {
    let entries = vec![entry("firefox", 0), entry("alacritty", 0)];
    let results = search(entries, "ffx", 10);
    assert_eq!(results.len(), 1);
    assert_eq!(results[0].entry.name, "firefox");
}

#[test]
fn higher_priority_bucket_fills_before_lower_priority_bucket() {
    let entries = vec![
        entry("zzz-low-priority-exact", 1),
        entry("zzz-high-priority-fuzzy", 0),
    ];
    let results = search(entries, "zzz", 1);
    assert_eq!(results.len(), 1);
    assert_eq!(results[0].entry.name, "zzz-high-priority-fuzzy");
}

#[test]
fn fills_remaining_slots_from_lower_priority_bucket_once_higher_is_exhausted() {
    let entries = vec![
        entry("app-one", 0),
        entry("app-two", 0),
        entry("cmd-one", 1),
        entry("cmd-two", 1),
    ];
    let results = search(entries, "", 3);
    assert_eq!(results.len(), 3);
    let names: Vec<&str> = results.iter().map(|m| m.entry.name.as_str()).collect();
    assert_eq!(&names[..2], &["app-one", "app-two"]);
    assert_eq!(names[2], "cmd-one");
}

#[test]
fn reload_replaces_entries_entirely() {
    let mut searcher = searcher(vec![entry("firefox", 0)]);
    searcher.reload(vec![entry("chromium", 0)]);
    searcher.update_pattern("");
    let results = settle(&mut searcher, 10);
    assert_eq!(results.len(), 1);
    assert_eq!(results[0].entry.name, "chromium");
}

#[test]
fn reload_keeps_the_notify_callback_wired_up() {
    let woken = Arc::new(AtomicUsize::new(0));
    let w = woken.clone();
    let mut searcher = Searcher::new(
        vec![entry("firefox", 0)],
        Arc::new(move || {
            w.fetch_add(1, std::sync::atomic::Ordering::Relaxed);
        }),
    );
    searcher.reload(large_entry_set());
    searcher.update_pattern("entry-4242");
    settle(&mut searcher, 10);
    assert!(
        woken.load(std::sync::atomic::Ordering::Relaxed) > 0,
        "notify never fired after reload"
    );
}

#[test]
fn large_entry_set_results_are_not_silently_truncated() {
    let mut searcher = searcher(large_entry_set());
    searcher.update_pattern("entry-4242");
    let results = settle(&mut searcher, 10);
    assert_eq!(results.len(), 10, "results truncated below the limit");
    assert!(
        results.iter().any(|m| m.entry.name == "entry-4242"),
        "exact match missing from settled results"
    );
}

fn large_entry_set() -> Vec<Entry> {
    (0..50_000)
        .map(|i| entry(&format!("entry-{i}"), 0))
        .collect()
}

fn names(results: &[MatchedEntry]) -> Vec<String> {
    results.iter().map(|m| m.entry.name.clone()).collect()
}

#[test]
fn rank_fills_priority_by_priority_in_match_order() {
    let s = searcher(vec![
        entry("c0", 2),
        entry("a0", 0),
        entry("b0", 1),
        entry("a1", 0),
        entry("b1", 1),
    ]);
    // Matches best first: c0, b0, a1, b1, a0.
    let ranked = s.rank(&vec![0, 2, 3, 4, 1], 10);
    assert_eq!(names(&ranked), vec!["a1", "a0", "b0", "b1", "c0"]);
}

#[test]
fn rank_caps_each_priority_and_the_whole_list() {
    let s = searcher(vec![entry("a0", 0), entry("a1", 0), entry("a2", 0), entry("b0", 5)]);
    assert_eq!(names(&s.rank(&vec![0, 1, 2, 3], 2)), vec!["a0", "a1"]);
    assert_eq!(names(&s.rank(&vec![3, 0], 2)), vec!["a0", "b0"]);
    assert!(s.rank(&vec![0, 1, 2, 3], 0).is_empty());
}

#[test]
fn rank_skips_indices_that_name_no_entry() {
    let s = searcher(vec![entry("a0", 0), entry("b0", 1)]);
    assert_eq!(names(&s.rank(&vec![7, 1, 99, 0], 5)), vec!["a0", "b0"]);
    assert!(s.rank(&Vec::new(), 5).is_empty());
}

#[test]
fn rank_stops_early_without_changing_the_list() {
    // Every priority present is already full after the first two matches,
    // so the rest cannot change the result.
    let s = searcher(vec![entry("a0", 0), entry("b0", 1), entry("a1", 0)]);
    assert_eq!(names(&s.rank(&vec![1, 0, 2, 2, 2], 1)), vec!["a0"]);
    assert_eq!(names(&s.rank(&vec![1, 0, 2], 2)), vec!["a0", "a1"]);
}

#[test]
fn entry_count_is_the_number_of_entries() {
    let s = searcher(vec![entry("a", 0), entry("b", 0)]);
    assert_eq!(s.entry_count(), 2);
}

#[test]
fn keywords_are_searched_but_not_shown() {
    let mut firefox = entry("Firefox", 0);
    firefox.keywords = Some("browser web".to_string());
    let results = search(vec![firefox, entry("htop", 0)], "browser", 10);
    assert_eq!(results.len(), 1);
    assert_eq!(results[0].entry.name, "Firefox");
}

#[test]
fn a_settled_search_holds_every_match_of_the_query() {
    let app = slaunch::plugins::apps::parse_desktop(
        "[Desktop Entry]\nName=Firefox\nGenericName=Web Browser\nExec=firefox\n",
        "/usr/share/applications/firefox.desktop",
    )
    .unwrap();
    let mut entries = vec![app];
    for i in 0..200 {
        entries.push(entry(&format!("tool-{i}"), 1));
    }
    let results = search(entries, "browser", 10);
    assert_eq!(names(&results), vec!["Firefox"]);
    let all = search((0..30).map(|i| entry(&format!("tool-{i}"), 0)).collect(), "tool", 25);
    assert_eq!(all.len(), 25);
}
