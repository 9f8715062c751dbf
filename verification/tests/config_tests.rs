use slaunch::config::{config_file_path, fallback_config_dir, Config};

#[test]
fn default_config_matches_documented_values() {
    let cfg = Config::default();
    assert_eq!(cfg.window.width, 640);
    assert_eq!(cfg.window.max_results, 12);
    assert_eq!(cfg.window.monitor, "focused");
    assert_eq!(cfg.window.anchor, "center");
    assert_eq!(cfg.window.margin, 60);
    assert_eq!(cfg.window.item_height, 40);
    assert_eq!(cfg.window.padding, 10);
    assert_eq!(cfg.input.placeholder, "Search...");
    assert!(cfg.plugins.apps);
    assert!(cfg.plugins.commands);
    assert!(cfg.plugins.power);
    assert_eq!(cfg.plugins.priority, vec!["apps", "commands", "power"]);
    assert_eq!(cfg.plugins.terminal, None);
    assert_eq!(cfg.plugins.power_commands.shutdown, "systemctl poweroff");
    assert_eq!(cfg.plugins.power_commands.reboot, "systemctl reboot");
    assert_eq!(cfg.plugins.power_commands.suspend, "systemctl suspend");
    assert_eq!(cfg.plugins.power_commands.lock, "loginctl lock-session");
}

#[test]
fn default_config_has_no_terminal_arguments_and_copies_with_wl_copy() {
    let cfg = Config::default();
    assert_eq!(cfg.plugins.terminal_args, None);
    assert_eq!(cfg.plugins.clipboard, vec!["wl-copy"]);
}

#[test]
fn cloned_config_keeps_every_setting() {
    let mut cfg = Config::default();
    cfg.window.width = 800;
    cfg.plugins.priority = vec!["commands".to_string(), "apps".to_string()];
    cfg.plugins.terminal = Some("foot".to_string());
    cfg.plugins.terminal_args = Some(vec!["-e".to_string()]);
    let copy = cfg.clone();
    assert_eq!(copy.window.width, 800);
    assert_eq!(copy.plugins.priority, vec!["commands", "apps"]);
    assert_eq!(copy.plugins.terminal.as_deref(), Some("foot"));
    assert_eq!(copy.plugins.terminal_args, Some(vec!["-e".to_string()]));
}

#[test]
fn fallback_config_dir_is_under_home() {
    assert_eq!(fallback_config_dir(Some("/home/u")), "/home/u/.config/slaunch");
}

#[test]
fn fallback_config_dir_uses_tmp_without_home() {
    assert_eq!(fallback_config_dir(None), "/tmp/.config/slaunch");
}

#[test]
fn config_file_path_prefers_the_xdg_location() {
    assert_eq!(
        config_file_path(Some("/xdg/slaunch/config.toml"), Some("/home/u"), "config.toml"),
        "/xdg/slaunch/config.toml"
    );
}

#[test]
fn config_file_path_falls_back_to_home() {
    assert_eq!(
        config_file_path(None, Some("/home/u"), "style.css"),
        "/home/u/.config/slaunch/style.css"
    );
}
