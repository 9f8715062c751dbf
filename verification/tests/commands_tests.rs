use slaunch::plugins::commands::{CommandsPlugin, PathCandidate};
use slaunch::plugins::{EntryKind, Plugin};

fn cand(dir: &str, name: &str, is_dir: bool, executable: bool) -> PathCandidate {
    PathCandidate {
        dir: dir.to_string(),
        file_name: name.to_string(),
        is_dir,
        executable,
    }
}

#[test]
fn scan_skips_directories_on_path() {
    let found = vec![cand("/tmp/p", "subdir", true, true), cand("/tmp/p", "realtool", false, true)];
    let mut out = Vec::new();
    CommandsPlugin::new(None, None).scan(&found, &mut out);
    assert!(out.iter().any(|e| e.name == "realtool"));
    assert!(
        !out.iter().any(|e| e.name == "subdir"),
        "directories must not appear as commands"
    );
}

#[test]
fn scan_skips_a_symlink_pointing_at_a_directory() {
    // A symlink to a directory is reported as a directory by the file system.
    let found = vec![
        cand("/tmp/p", "targetdir", true, true),
        cand("/tmp/p", "dirlink", true, true),
        cand("/tmp/p", "realtool", false, true),
    ];
    let mut out = Vec::new();
    CommandsPlugin::new(None, None).scan(&found, &mut out);
    assert!(out.iter().any(|e| e.name == "realtool"));
    assert!(
        !out.iter().any(|e| e.name == "dirlink"),
        "a symlink to a directory must not appear as a command"
    );
}

#[test]
fn scan_dedups_by_name_preferring_earlier_path_dir() {
    let first = "/tmp/first";
    let second = "/tmp/second";
    let found = vec![
        cand(first, "mytool", false, true),
        cand(first, "notexec.txt", false, false),
        cand(second, "mytool", false, true),
        cand(second, "othertool", false, true),
    ];
    let mut out = Vec::new();
    CommandsPlugin::new(None, None).scan(&found, &mut out);

    let mytool_entries: Vec<_> = out.iter().filter(|e| e.name == "mytool").collect();
    assert_eq!(mytool_entries.len(), 1, "mytool must appear only once");
    match &mytool_entries[0].kind {
        EntryKind::Command { path } => assert_eq!(path, "/tmp/first/mytool"),
        _ => panic!("expected Command kind"),
    }
    assert!(out.iter().any(|e| e.name == "othertool"));
    assert!(!out.iter().any(|e| e.name == "notexec.txt"));
}

#[test]
fn command_entries_describe_their_directory() {
    let found = vec![cand("/usr/bin", "htop", false, true)];
    let mut out = Vec::new();
    CommandsPlugin::new(None, None).scan(&found, &mut out);
    assert_eq!(out.len(), 1);
    assert_eq!(out[0].description.as_deref(), Some("/usr/bin"));
    assert_eq!(out[0].icon, None);
    assert_eq!(out[0].priority, 0);
}

#[test]
fn scan_appends_after_what_is_already_there() {
    let mut out = Vec::new();
    CommandsPlugin::new(None, None).scan(&vec![cand("/a", "one", false, true)], &mut out);
    CommandsPlugin::new(None, None).scan(&vec![cand("/b", "two", false, true)], &mut out);
    let names: Vec<&str> = out.iter().map(|e| e.name.as_str()).collect();
    assert_eq!(names, vec!["one", "two"]);
}

#[test]
fn command_launch_quotes_the_path_for_the_terminal_shell() {
    let found = vec![cand("/opt/my apps", "tool", false, true)];
    let mut out = Vec::new();
    let plugin = CommandsPlugin::new(Some("foot".to_string()), None);
    plugin.scan(&found, &mut out);
    let launches = plugin.launch(&out[0]);
    assert_eq!(launches.len(), 1);
    assert_eq!(launches[0].program, "foot");
    assert_eq!(
        launches[0].args,
        vec!["-e", "sh", "-c", "'/opt/my apps/tool'; exec \"${SHELL:-/bin/sh}\""]
    );
}

#[test]
fn command_launch_uses_configured_terminal_arguments() {
    let found = vec![cand("/usr/bin", "htop", false, true)];
    let mut out = Vec::new();
    let plugin = CommandsPlugin::new(Some("wezterm".to_string()), Some(vec!["--x".to_string()]));
    plugin.scan(&found, &mut out);
    let launches = plugin.launch(&out[0]);
    assert_eq!(launches.len(), 1);
    assert_eq!(launches[0].args[0], "--x");
    assert_eq!(launches[0].args[1], "sh");
}

#[test]
fn commands_plugin_is_named_commands() {
    assert_eq!(CommandsPlugin::new(None, None).name(), "commands");
}
