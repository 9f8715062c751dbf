use slaunch::plugins::{
    copy_to_clipboard, launch_detached, launch_in_terminal, terminal_exec_args, Entry, EntryKind,
};

#[test]
fn known_terminals_get_their_own_arguments() {
    assert_eq!(terminal_exec_args("wezterm", None), vec!["start", "--"]);
    assert_eq!(terminal_exec_args("gnome-terminal", None), vec!["--"]);
    assert_eq!(terminal_exec_args("foot", None), vec!["-e"]);
    assert_eq!(terminal_exec_args("alacritty", None), vec!["-e"]);
}

#[test]
fn an_absolute_terminal_path_still_matches_by_basename() {
    assert_eq!(
        terminal_exec_args("/usr/bin/wezterm", None),
        vec!["start", "--"]
    );
}

#[test]
fn an_unknown_terminal_falls_back_to_dash_e() {
    assert_eq!(terminal_exec_args("someterm", None), vec!["-e"]);
}

#[test]
fn configured_arguments_win_over_the_table() {
    let configured = vec!["--command".to_string()];
    assert_eq!(
        terminal_exec_args("wezterm", Some(&configured)),
        vec!["--command"]
    );
}

#[test]
fn configured_empty_arguments_are_respected() {
    let configured: Vec<String> = Vec::new();
    assert!(terminal_exec_args("kitty", Some(&configured)).is_empty());
}

#[test]
fn an_empty_clipboard_command_is_reported_not_panicked() {
    assert!(copy_to_clipboard("text", &Vec::new()).is_none());
}

#[test]
fn clipboard_command_receives_the_text_as_its_last_argument() {
    let command = vec!["fake-copy".to_string(), "--selection".to_string()];
    let launch = copy_to_clipboard("hello world", &command).unwrap();
    assert_eq!(launch.program, "fake-copy");
    assert_eq!(launch.args, vec!["--selection", "hello world"]);
}

#[test]
fn terminal_launch_quotes_each_word_and_keeps_the_terminal_open() {
    let argv = vec!["/opt/my apps/tool".to_string(), "--flag".to_string(), "it's".to_string()];
    let launches = launch_in_terminal(&argv, Some("kitty"), None);
    assert_eq!(launches.len(), 1);
    assert_eq!(launches[0].program, "kitty");
    assert_eq!(
        launches[0].args,
        vec![
            "-e",
            "sh",
            "-c",
            "'/opt/my apps/tool' --flag 'it'\\''s'; exec \"${SHELL:-/bin/sh}\""
        ]
    );
}

#[test]
fn without_a_configured_terminal_every_known_one_is_tried_in_order() {
    let argv = vec!["htop".to_string()];
    let launches = launch_in_terminal(&argv, None, None);
    let programs: Vec<&str> = launches.iter().map(|l| l.program.as_str()).collect();
    assert_eq!(
        programs,
        vec!["foot", "alacritty", "kitty", "ghostty", "wezterm", "gnome-terminal", "konsole", "xterm"]
    );
    assert_eq!(launches[4].args, vec!["start", "--", "sh", "-c", "htop; exec \"${SHELL:-/bin/sh}\""]);
}

#[test]
fn an_empty_command_is_never_launched_in_a_terminal() {
    assert!(launch_in_terminal(&Vec::new(), Some("foot"), None).is_empty());
}

#[test]
fn detached_launch_runs_the_first_word_with_the_rest_as_arguments() {
    let argv = vec!["firefox".to_string(), "--new-window".to_string()];
    let launch = launch_detached(&argv).unwrap();
    assert_eq!(launch.program, "firefox");
    assert_eq!(launch.args, vec!["--new-window"]);
    assert!(launch_detached(&Vec::new()).is_none());
}

fn entry(name: &str, keywords: Option<&str>) -> Entry {
    Entry {
        name: name.to_string(),
        description: Some("d".to_string()),
        icon: None,
        kind: EntryKind::Command { path: "/bin/x".to_string() },
        priority: 1,
        keywords: keywords.map(|k| k.to_string()),
    }
}

#[test]
fn search_text_appends_keywords_after_a_space() {
    assert_eq!(entry("Firefox", Some("browser web")).search_text(), "Firefox browser web");
    assert_eq!(entry("Firefox", Some("")).search_text(), "Firefox");
    assert_eq!(entry("Firefox", None).search_text(), "Firefox");
}

#[test]
fn same_as_compares_every_field() {
    let a = entry("x", None);
    assert!(a.same_as(&a.clone()));
    let mut b = a.clone();
    b.priority = 2;
    assert!(!a.same_as(&b));
    let mut c = a.clone();
    c.kind = EntryKind::Command { path: "/bin/y".to_string() };
    assert!(!a.same_as(&c));
}
