use slaunch::config::Config;
use slaunch::daemon::{
    action_for, rescan_on, scan_entries, socket_claim, watched_dirs, DaemonAction, DaemonEvent,
    FsChange, SocketClaim, watch_next, WatchInput, WatchPhase, WatchStep,
};
use slaunch::ipc::{Command, RESP_ERR, RESP_OK};
use slaunch::plugins::apps::DesktopFile;
use slaunch::plugins::commands::PathCandidate;

fn files() -> Vec<DesktopFile> {
    vec![DesktopFile {
        dir: "/usr/share/applications".to_string(),
        file_name: "firefox.desktop".to_string(),
        contents: Some("[Desktop Entry]\nName=Firefox\nExec=firefox\n".to_string()),
    }]
}

fn found() -> Vec<PathCandidate> {
    vec![
        PathCandidate {
            dir: "/usr/bin".to_string(),
            file_name: "htop".to_string(),
            is_dir: false,
            executable: true,
        },
        PathCandidate {
            dir: "/usr/bin".to_string(),
            file_name: "vim".to_string(),
            is_dir: false,
            executable: true,
        },
    ]
}

fn summary(cfg: &Config) -> Vec<(String, u8)> {
    scan_entries(cfg, &files(), &found())
        .into_iter()
        .map(|e| (e.name, e.priority))
        .collect()
}

#[test]
fn scan_follows_the_priority_list() {
    let cfg = Config::default();
    assert_eq!(
        summary(&cfg),
        vec![
            ("Firefox".to_string(), 0),
            ("htop".to_string(), 1),
            ("vim".to_string(), 1),
            ("Shutdown".to_string(), 2),
            ("Reboot".to_string(), 2),
            ("Suspend".to_string(), 2),
            ("Lock Screen".to_string(), 2),
        ]
    );
}

#[test]
fn scan_order_follows_a_reordered_priority_list() {
    let mut cfg = Config::default();
    cfg.plugins.priority = vec!["commands".to_string(), "apps".to_string()];
    assert_eq!(
        summary(&cfg),
        vec![("htop".to_string(), 0), ("vim".to_string(), 0), ("Firefox".to_string(), 1)]
    );
}

#[test]
fn disabled_and_unknown_plugins_contribute_nothing_but_keep_their_position() {
    let mut cfg = Config::default();
    cfg.plugins.apps = false;
    cfg.plugins.priority = vec!["apps".to_string(), "bogus".to_string(), "commands".to_string()];
    assert_eq!(
        summary(&cfg),
        vec![("htop".to_string(), 2), ("vim".to_string(), 2)]
    );
}

#[test]
fn power_actions_are_searchable_unless_switched_off() {
    let mut cfg = Config::default();
    cfg.plugins.priority = vec!["power".to_string()];
    cfg.plugins.power_commands.suspend = String::new();
    let names: Vec<String> = summary(&cfg).into_iter().map(|(n, _)| n).collect();
    assert_eq!(names, vec!["Shutdown", "Reboot", "Lock Screen"]);
    cfg.plugins.power = false;
    assert!(summary(&cfg).is_empty());
}

#[test]
fn request_bytes_map_to_actions_and_replies() {
    assert!(matches!(action_for(Command::Show.to_byte()), (DaemonAction::Forward(DaemonEvent::Show), RESP_OK)));
    assert!(matches!(action_for(Command::Hide.to_byte()), (DaemonAction::Forward(DaemonEvent::Hide), RESP_OK)));
    assert!(matches!(action_for(Command::Kill.to_byte()), (DaemonAction::Forward(DaemonEvent::Quit), RESP_OK)));
    assert!(matches!(action_for(Command::Reload.to_byte()), (DaemonAction::Reload, RESP_OK)));
    assert!(matches!(action_for(0x42), (DaemonAction::Ignore, RESP_ERR)));
}

#[test]
fn watched_dirs_list_application_dirs_then_path() {
    let app_dirs = vec!["/a/applications".to_string()];
    assert_eq!(
        watched_dirs(true, true, &app_dirs, Some("/usr/bin:/bin")),
        vec!["/a/applications", "/usr/bin", "/bin"]
    );
    assert_eq!(watched_dirs(false, true, &app_dirs, None), Vec::<String>::new());
    assert_eq!(watched_dirs(true, false, &app_dirs, Some("/usr/bin")), vec!["/a/applications"]);
    assert_eq!(watched_dirs(false, true, &app_dirs, Some("/x::/y")), vec!["/x", "", "/y"]);
}

#[test]
fn socket_claim_probes_before_clobbering() {
    assert_eq!(socket_claim(false, false), SocketClaim::Bind);
    assert_eq!(socket_claim(true, true), SocketClaim::AlreadyRunning);
    assert_eq!(socket_claim(true, false), SocketClaim::ClearStaleThenBind);
}

#[test]
fn only_creations_changes_and_removals_trigger_a_rescan() {
    assert!(rescan_on(FsChange::Create));
    assert!(rescan_on(FsChange::Modify));
    assert!(rescan_on(FsChange::Remove));
    assert!(!rescan_on(FsChange::Access));
    assert!(!rescan_on(FsChange::Any));
    assert!(!rescan_on(FsChange::Other));
}

#[test]
fn a_burst_of_changes_rescans_once() {
    let mut phase = WatchPhase::Idle;
    let mut rescans = 0;
    for input in [WatchInput::Change, WatchInput::Change, WatchInput::Change, WatchInput::QuietPeriodOver] {
        let (next, step) = watch_next(phase, input);
        phase = next;
        if step == WatchStep::Rescan {
            rescans += 1;
        }
    }
    assert_eq!(rescans, 1);
    assert_eq!(phase, WatchPhase::Idle);
    assert_eq!(watch_next(WatchPhase::Idle, WatchInput::Change), (WatchPhase::Settling, WatchStep::StartQuietPeriod));
    assert_eq!(watch_next(WatchPhase::Idle, WatchInput::QuietPeriodOver), (WatchPhase::Idle, WatchStep::Nothing));
}
