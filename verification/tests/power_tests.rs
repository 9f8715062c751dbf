use slaunch::config::PowerCommands;
use slaunch::plugins::power::{spawn_command, PowerPlugin};
use slaunch::plugins::{Entry, EntryKind, Plugin};

fn scan(commands: PowerCommands) -> Vec<Entry> {
    let mut out = Vec::new();
    PowerPlugin::new(commands).scan(&mut out);
    out
}

#[test]
fn default_commands_produce_four_entries() {
    let out = scan(PowerCommands::default());
    let names: Vec<&str> = out.iter().map(|e| e.name.as_str()).collect();
    assert_eq!(names, vec!["Shutdown", "Reboot", "Suspend", "Lock Screen"]);
}

#[test]
fn empty_command_omits_that_action() {
    let out = scan(PowerCommands {
        suspend: String::new(),
        ..PowerCommands::default()
    });
    assert!(!out.iter().any(|e| e.name == "Suspend"));
    assert_eq!(out.len(), 3);
}

#[test]
fn whitespace_only_command_is_treated_as_empty() {
    let out = scan(PowerCommands {
        lock: "   ".into(),
        ..PowerCommands::default()
    });
    assert!(!out.iter().any(|e| e.name == "Lock Screen"));
}

#[test]
fn all_commands_empty_yields_no_entries() {
    let out = scan(PowerCommands {
        shutdown: String::new(),
        reboot: String::new(),
        suspend: String::new(),
        lock: String::new(),
    });
    assert!(out.is_empty());
}

#[test]
fn entry_kind_carries_the_configured_command() {
    let out = scan(PowerCommands {
        shutdown: "doas poweroff".into(),
        ..PowerCommands::default()
    });
    let entry = out.iter().find(|e| e.name == "Shutdown").unwrap();
    match &entry.kind {
        EntryKind::Power { command } => assert_eq!(command, "doas poweroff"),
        _ => panic!("expected Power kind"),
    }
    assert_eq!(entry.description.as_deref(), Some("doas poweroff"));
}

#[test]
fn power_entries_carry_their_icons() {
    let out = scan(PowerCommands::default());
    assert_eq!(out[0].icon.as_deref(), Some("system-shutdown"));
}

#[test]
fn power_launch_runs_the_command_through_a_shell() {
    let launches = spawn_command(&"systemctl poweroff || loginctl poweroff".to_string());
    assert_eq!(launches.len(), 1);
    assert_eq!(launches[0].program, "sh");
    assert_eq!(launches[0].args, vec!["-c", "systemctl poweroff || loginctl poweroff"]);
}

#[test]
fn power_launch_of_a_blank_command_runs_nothing() {
    assert!(spawn_command(&"  ".to_string()).is_empty());
    assert!(spawn_command(&String::new()).is_empty());
}

#[test]
fn power_plugin_launches_only_power_entries() {
    let plugin = PowerPlugin::new(PowerCommands::default());
    let out = scan(PowerCommands::default());
    let lock = plugin.launch(&out[3]);
    assert_eq!(lock[0].program, "sh");
    assert_eq!(lock[0].args, vec!["-c", "loginctl lock-session"]);
    let other = Entry {
        name: "x".to_string(),
        description: None,
        icon: None,
        kind: EntryKind::Command { path: "/bin/x".to_string() },
        priority: 0,
        keywords: None,
    };
    assert!(plugin.launch(&other).is_empty());
    assert_eq!(plugin.name(), "power");
}
