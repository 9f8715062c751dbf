use slaunch::plugins::apps::{
    parse_desktop, parse_exec, strip_field_codes, xdg_application_dirs, AppsPlugin, DesktopFile,
};
use slaunch::plugins::{Entry, EntryKind, Plugin};

fn parse(raw: &str) -> Option<Entry> {
    parse_desktop(raw, "/usr/share/applications/test.desktop")
}

#[test]
fn parses_minimal_valid_entry() {
    let entry = parse("[Desktop Entry]\nName=Firefox\nExec=firefox %u\n").unwrap();
    assert_eq!(entry.name, "Firefox");
    match entry.kind {
        EntryKind::App { exec_line, terminal } => {
            assert_eq!(exec_line, "firefox %u");
            assert!(!terminal);
        }
        _ => panic!("expected App kind"),
    }
}

#[test]
fn missing_name_is_rejected() {
    assert!(parse("[Desktop Entry]\nExec=firefox\n").is_none());
}

#[test]
fn missing_exec_is_rejected() {
    assert!(parse("[Desktop Entry]\nName=Firefox\n").is_none());
}

#[test]
fn no_display_entries_are_rejected() {
    let raw = "[Desktop Entry]\nName=Hidden App\nExec=foo\nNoDisplay=true\n";
    assert!(parse(raw).is_none());
}

#[test]
fn hidden_entries_are_rejected() {
    let raw = "[Desktop Entry]\nName=Hidden App\nExec=foo\nHidden=true\n";
    assert!(parse(raw).is_none());
}

#[test]
fn non_application_type_is_rejected() {
    let raw = "[Desktop Entry]\nName=Some Link\nExec=foo\nType=Link\n";
    assert!(parse(raw).is_none());
}

#[test]
fn terminal_flag_is_captured() {
    let raw = "[Desktop Entry]\nName=Htop\nExec=htop\nTerminal=true\n";
    let entry = parse(raw).unwrap();
    match entry.kind {
        EntryKind::App { terminal, .. } => assert!(terminal),
        _ => panic!("expected App kind"),
    }
}

#[test]
fn generic_name_is_preferred_as_description() {
    let raw = "[Desktop Entry]\nName=Firefox\nGenericName=Web Browser\nExec=firefox\n";
    let entry = parse(raw).unwrap();
    assert_eq!(entry.description.as_deref(), Some("Web Browser"));
}

#[test]
fn description_falls_back_to_parent_dir_name_without_generic_name() {
    let entry = parse_desktop(
        "[Desktop Entry]\nName=Firefox\nExec=firefox\n",
        "/usr/share/applications/firefox.desktop",
    )
    .unwrap();
    assert_eq!(entry.description.as_deref(), Some("applications"));
}

#[test]
fn icon_is_none_when_unset() {
    let entry = parse("[Desktop Entry]\nName=Firefox\nExec=firefox\n").unwrap();
    assert_eq!(entry.icon, None);
}

#[test]
fn icon_is_captured_when_set() {
    let raw = "[Desktop Entry]\nName=Firefox\nExec=firefox\nIcon=firefox\n";
    let entry = parse(raw).unwrap();
    assert_eq!(entry.icon.as_deref(), Some("firefox"));
}

#[test]
fn first_occurrence_of_a_repeated_key_wins() {
    let raw = "[Desktop Entry]\nName=First\nName=Second\nExec=foo\n";
    let entry = parse(raw).unwrap();
    assert_eq!(entry.name, "First");
}

#[test]
fn keys_outside_desktop_entry_section_are_ignored() {
    let raw = "[Desktop Action New]\nName=Wrong\n[Desktop Entry]\nName=Right\nExec=foo\n";
    let entry = parse(raw).unwrap();
    assert_eq!(entry.name, "Right");
}

#[test]
fn comment_lines_are_ignored() {
    let raw = "[Desktop Entry]\n# Name=Commented\nName=Real\nExec=foo\n";
    let entry = parse(raw).unwrap();
    assert_eq!(entry.name, "Real");
}

#[test]
fn values_and_keys_are_trimmed_and_type_application_is_accepted() {
    let raw = "  [Desktop Entry]  \n  Name =  Spaced Out  \nExec= run  \nType=Application\n";
    let entry = parse(raw).unwrap();
    assert_eq!(entry.name, "Spaced Out");
    match entry.kind {
        EntryKind::App { exec_line, .. } => assert_eq!(exec_line, "run"),
        _ => panic!("expected App kind"),
    }
}

#[test]
fn no_display_is_compared_without_case() {
    let raw = "[Desktop Entry]\nName=X\nExec=x\nNoDisplay=TRUE\n";
    assert!(parse(raw).is_none());
    let shown = "[Desktop Entry]\nName=X\nExec=x\nNoDisplay=false\n";
    assert!(parse(shown).is_some());
}

#[test]
fn strip_field_codes_removes_known_codes() {
    assert_eq!(strip_field_codes("firefox %u"), "firefox");
    assert_eq!(strip_field_codes("app %f %F %U %i %c %k"), "app");
    assert_eq!(strip_field_codes("cmd %u --flag"), "cmd  --flag");
}

#[test]
fn strip_field_codes_collapses_escaped_percent() {
    assert_eq!(strip_field_codes("echo 100%%"), "echo 100%");
}

#[test]
fn strip_field_codes_trims_result() {
    assert_eq!(strip_field_codes("  firefox %u  "), "firefox");
}

#[test]
fn strip_field_codes_drops_unknown_codes_and_a_trailing_percent() {
    assert_eq!(strip_field_codes("a %z b %"), "a  b");
}

#[test]
fn parse_exec_splits_shell_words() {
    assert_eq!(
        parse_exec("sh -c 'echo hi there'"),
        Some(vec!["sh".to_string(), "-c".to_string(), "echo hi there".to_string()])
    );
}

#[test]
fn parse_exec_rejects_unbalanced_quotes_and_empty_commands() {
    assert_eq!(parse_exec("echo 'oops"), None);
    assert_eq!(parse_exec("   "), None);
}

#[test]
fn xdg_application_dirs_puts_home_local_share_first() {
    let dirs = xdg_application_dirs(Some("/usr/local/share:/usr/share"), Some("/home/test-user"));
    assert_eq!(dirs[0], "/home/test-user/.local/share/applications");
    assert!(dirs.contains(&"/usr/local/share/applications".to_string()));
    assert!(dirs.contains(&"/usr/share/applications".to_string()));
}

#[test]
fn xdg_application_dirs_defaults_without_environment() {
    let dirs = xdg_application_dirs(None, None);
    assert_eq!(dirs, vec!["/usr/local/share/applications", "/usr/share/applications"]);
}

fn file(dir: &str, name: &str, contents: &str) -> DesktopFile {
    DesktopFile {
        dir: dir.to_string(),
        file_name: name.to_string(),
        contents: Some(contents.to_string()),
    }
}

#[test]
fn scan_dedups_by_desktop_id_preferring_earlier_dir() {
    let home_apps = "/home/u/.local/share/applications";
    let sys_apps = "/sys/applications";
    let files = vec![
        file(home_apps, "app.desktop", "[Desktop Entry]\nName=Home Version\nExec=foo\n"),
        file(sys_apps, "app.desktop", "[Desktop Entry]\nName=System Version\nExec=foo\n"),
        file(sys_apps, "other.desktop", "[Desktop Entry]\nName=Other App\nExec=bar\n"),
    ];
    let mut out = Vec::new();
    AppsPlugin::new(None).scan(&files, &mut out);
    let names: Vec<&str> = out.iter().map(|e| e.name.as_str()).collect();
    assert!(names.contains(&"Home Version"));
    assert!(!names.contains(&"System Version"));
    assert!(names.contains(&"Other App"));
}

#[test]
fn scan_ignores_other_extensions_and_unreadable_files() {
    let files = vec![
        file("/a", "notes.txt", "[Desktop Entry]\nName=Text\nExec=t\n"),
        DesktopFile { dir: "/a".to_string(), file_name: "broken.desktop".to_string(), contents: None },
        file("/b", "broken.desktop", "[Desktop Entry]\nName=Later Copy\nExec=l\n"),
        file("/a", "ok.desktop", "[Desktop Entry]\nName=Ok\nExec=ok\n"),
    ];
    let mut out = Vec::new();
    AppsPlugin::new(None).scan(&files, &mut out);
    let names: Vec<&str> = out.iter().map(|e| e.name.as_str()).collect();
    assert_eq!(names, vec!["Ok"]);
    assert_eq!(out[0].description.as_deref(), Some("a"));
}

#[test]
fn apps_launch_runs_the_exec_words_directly() {
    let entry = parse("[Desktop Entry]\nName=F\nExec=firefox --new-window %u\n").unwrap();
    let launches = AppsPlugin::new(None).launch(&entry);
    assert_eq!(launches.len(), 1);
    assert_eq!(launches[0].program, "firefox");
    assert_eq!(launches[0].args, vec!["--new-window"]);
}

#[test]
fn apps_launch_runs_terminal_entries_in_the_configured_terminal() {
    let entry = parse("[Desktop Entry]\nName=H\nExec=htop\nTerminal=true\n").unwrap();
    let launches = AppsPlugin::new(Some("foot".to_string())).launch(&entry);
    assert_eq!(launches.len(), 1);
    assert_eq!(launches[0].program, "foot");
    assert_eq!(launches[0].args[0], "-e");
    assert_eq!(launches[0].args[1], "sh");
    assert_eq!(launches[0].args[2], "-c");
}

#[test]
fn apps_plugin_is_named_apps() {
    assert_eq!(AppsPlugin::new(None).name(), "apps");
}

#[test]
fn generic_name_and_keywords_are_kept_for_search() {
    let raw = "[Desktop Entry]\nName=Firefox\nGenericName=Web Browser\nKeywords=internet;www;\nExec=firefox\n";
    let entry = parse(raw).unwrap();
    assert_eq!(entry.keywords.as_deref(), Some("Web Browser internet;www;"));
    let plain = parse("[Desktop Entry]\nName=Htop\nExec=htop\n").unwrap();
    assert_eq!(plain.keywords, None);
    let only_keywords = parse("[Desktop Entry]\nName=Htop\nKeywords=top;\nExec=htop\n").unwrap();
    assert_eq!(only_keywords.keywords.as_deref(), Some("top;"));
}
