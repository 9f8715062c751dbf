use slaunch::plugins::emoji::{EmojiInfo, EmojiPlugin};
use slaunch::plugins::{Entry, EntryKind, Plugin};

fn query(input: &str) -> Vec<Entry> {
    let mut out = Vec::new();
    EmojiPlugin::new().query(input, &mut out);
    out
}

#[test]
fn empty_search_after_colon_produces_no_results() {
    assert!(query(":").is_empty());
    assert!(query(":   ").is_empty());
}

#[test]
fn matches_by_name_substring() {
    let out = query(":grinning");
    assert!(out.iter().any(|e| e.name.contains("grinning")));
}

#[test]
fn matches_by_shortcode_substring() {
    let out = query(":heart");
    assert!(!out.is_empty());
}

#[test]
fn search_is_case_insensitive() {
    let lower = query(":grinning");
    let upper = query(":GRINNING");
    assert_eq!(lower.len(), upper.len());
    assert!(!lower.is_empty());
}

#[test]
fn matches_names_that_contain_capitals() {
    for term in [":germany", ":Germany", ":united kingdom", ":aries", ":atm"] {
        assert!(
            !query(term).is_empty(),
            "'{term}' should match at least one emoji"
        );
    }
}

#[test]
fn capitalised_name_matches_regardless_of_query_case() {
    let lower = query(":germany");
    let mixed = query(":GeRmAnY");
    assert_eq!(lower.len(), mixed.len());
    assert!(lower.iter().any(|e| e.name.contains("Germany")));
}

#[test]
fn no_match_produces_no_results() {
    assert!(query(":thisisnotarealemojiname12345").is_empty());
}

#[test]
fn result_entry_carries_shortcode_description_and_emoji_kind() {
    let out = query(":grinning");
    let hit = out.iter().find(|e| e.name.contains("grinning")).unwrap();
    assert!(hit
        .description
        .as_deref()
        .is_some_and(|d| d.starts_with(':') && d.ends_with(':')));
    match &hit.kind {
        EntryKind::EmojiResult { emoji } => assert!(!emoji.is_empty()),
        _ => panic!("expected EmojiResult kind"),
    }
}

fn table() -> Vec<EmojiInfo> {
    vec![
        EmojiInfo {
            emoji: "A".to_string(),
            name: "Big Apple".to_string(),
            shortcode: Some("apple".to_string()),
        },
        EmojiInfo {
            emoji: "B".to_string(),
            name: "banana".to_string(),
            shortcode: None,
        },
        EmojiInfo {
            emoji: "C".to_string(),
            name: "pineapple slice".to_string(),
            shortcode: Some("PINE".to_string()),
        },
    ]
}

#[test]
fn matches_come_in_table_order_with_exact_entries() {
    let plugin = EmojiPlugin::from_emojis(&table());
    let mut out = Vec::new();
    plugin.query("::  APPLE  ", &mut out);
    let names: Vec<&str> = out.iter().map(|e| e.name.as_str()).collect();
    assert_eq!(names, vec!["A Big Apple", "C pineapple slice"]);
    assert_eq!(out[0].description.as_deref(), Some(":apple:"));
    assert_eq!(out[1].description.as_deref(), Some(":pine:"));
}

#[test]
fn an_emoji_without_shortcode_has_no_description() {
    let plugin = EmojiPlugin::from_emojis(&table());
    let mut out = Vec::new();
    plugin.query(":ban", &mut out);
    assert_eq!(out.len(), 1);
    assert_eq!(out[0].name, "B banana");
    assert_eq!(out[0].description, None);
    assert_eq!(out[0].icon, None);
}

#[test]
fn shortcodes_are_searched_too() {
    let plugin = EmojiPlugin::from_emojis(&table());
    let mut out = Vec::new();
    plugin.query(":pine", &mut out);
    assert_eq!(out.len(), 1);
}

#[test]
fn emoji_launch_copies_the_emoji() {
    let out = query(":grinning");
    let plugin = EmojiPlugin::new();
    let launches = plugin.launch(&out[0]);
    assert_eq!(launches.len(), 1);
    assert_eq!(launches[0].program, "wl-copy");
    match &out[0].kind {
        EntryKind::EmojiResult { emoji } => assert_eq!(launches[0].args, vec![emoji.clone()]),
        _ => panic!("expected EmojiResult kind"),
    }
    assert_eq!(plugin.name(), "emoji");
}

#[test]
fn bundled_table_starts_with_the_documented_faces() {
    let out = query(":grinning face");
    assert_eq!(out[0].name, "😀 grinning face");
}
