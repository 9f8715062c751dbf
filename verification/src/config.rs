//! Launcher configuration and its documented defaults.

use vstd::prelude::*;

use crate::text::{chars_of, join, join_path, string_of_all};

verus! {

/// The whole configuration; every part falls back to its default.
#[derive(Debug)]
pub struct Config {
    pub window: WindowConfig,
    pub input: InputConfig,
    pub plugins: PluginsConfig,
}

/// Window geometry and placement.
#[derive(Debug)]
pub struct WindowConfig {
    /// Launcher width in pixels
    pub width: u32,
    /// Maximum results to show at once
    pub max_results: usize,
    /// Which monitor to appear on: "focused" | "primary" | output name
    pub monitor: String,
    /// Anchor position: "top" | "bottom" | "center"
    pub anchor: String,
    /// Pixels from the anchored edge
    pub margin: u32,
    /// Height of each result row in pixels
    pub item_height: u16,
    /// Padding around the launcher content in pixels
    pub padding: u16,
}

/// The search field.
#[derive(Debug)]
pub struct InputConfig {
    pub placeholder: String,
}

/// Which plugins run, in which order, and how they launch things.
#[derive(Debug)]
pub struct PluginsConfig {
    pub apps: bool,
    pub commands: bool,
    pub power: bool,
    /// Order determines result priority: first entry appears before later ones.
    pub priority: Vec<String>,
    /// Terminal emulator to use for Terminal=true apps. None = auto-detect.
    pub terminal: Option<String>,
    /// Arguments that make `terminal` run a command. None = look it up.
    pub terminal_args: Option<Vec<String>>,
    /// Command that puts its last argument on the clipboard.
    pub clipboard: Vec<String>,
    /// Shell command run for each power plugin action. An empty string omits
    /// that action from results entirely.
    pub power_commands: PowerCommands,
}

/// The shell command behind each power action.
#[derive(Debug)]
pub struct PowerCommands {
    pub shutdown: String,
    pub reboot: String,
    pub suspend: String,
    pub lock: String,
}

impl Default for PowerCommands {
    fn default() -> (r: Self)
        ensures
            r.shutdown@ == "systemctl poweroff"@,
            r.reboot@ == "systemctl reboot"@,
            r.suspend@ == "systemctl suspend"@,
            r.lock@ == "loginctl lock-session"@,
    {
        PowerCommands {
            shutdown: String::from_str("systemctl poweroff"),
            reboot: String::from_str("systemctl reboot"),
            suspend: String::from_str("systemctl suspend"),
            lock: String::from_str("loginctl lock-session"),
        }
    }
}

impl Default for WindowConfig {
    fn default() -> (r: Self)
        ensures
            r.width == 640,
            r.max_results == 12,
            r.monitor@ == "focused"@,
            r.anchor@ == "center"@,
            r.margin == 60,
            r.item_height == 40,
            r.padding == 10,
    {
        WindowConfig {
            width: 640,
            max_results: 12,
            monitor: String::from_str("focused"),
            anchor: String::from_str("center"),
            margin: 60,
            item_height: 40,
            padding: 10,
        }
    }
}

impl Default for InputConfig {
    fn default() -> (r: Self)
        ensures
            r.placeholder@ == "Search..."@,
    {
        InputConfig { placeholder: String::from_str("Search...") }
    }
}

impl Default for PluginsConfig {
    fn default() -> (r: Self)
        ensures
            r.apps && r.commands && r.power,
            r.priority.deep_view() == seq!["apps"@, "commands"@, "power"@],
            r.terminal is None,
            r.terminal_args is None,
            r.clipboard.deep_view() == seq!["wl-copy"@],
            r.power_commands.shutdown@ == "systemctl poweroff"@,
            r.power_commands.reboot@ == "systemctl reboot"@,
            r.power_commands.suspend@ == "systemctl suspend"@,
            r.power_commands.lock@ == "loginctl lock-session"@,
    {
        let mut priority: Vec<String> = Vec::new();
        priority.push(String::from_str("apps"));
        priority.push(String::from_str("commands"));
        priority.push(String::from_str("power"));
        let mut clipboard: Vec<String> = Vec::new();
        clipboard.push(String::from_str("wl-copy"));
        assert(priority.deep_view() =~= seq!["apps"@, "commands"@, "power"@]);
        assert(clipboard.deep_view() =~= seq!["wl-copy"@]);
        PluginsConfig {
            apps: true,
            commands: true,
            power: true,
            priority,
            terminal: None,
            terminal_args: None,
            clipboard,
            power_commands: PowerCommands::default(),
        }
    }
}

/// A copy of a list of strings.
fn copy_strings(v: &Vec<String>) -> (r: Vec<String>)
    ensures
        r@ == v@,
{
    let r = v.clone();
    assert(r@ =~= v@) by {
        assert forall|i: int| 0 <= i < v@.len() implies r@[i] == v@[i] by {
            assert(cloned::<String>(v[i], r[i]));
        }
    }
    r
}

impl Clone for PowerCommands {
    fn clone(&self) -> (r: Self)
        ensures
            r == *self,
    {
        PowerCommands {
            shutdown: self.shutdown.clone(),
            reboot: self.reboot.clone(),
            suspend: self.suspend.clone(),
            lock: self.lock.clone(),
        }
    }
}

impl Clone for WindowConfig {
    fn clone(&self) -> (r: Self)
        ensures
            r == *self,
    {
        WindowConfig {
            width: self.width,
            max_results: self.max_results,
            monitor: self.monitor.clone(),
            anchor: self.anchor.clone(),
            margin: self.margin,
            item_height: self.item_height,
            padding: self.padding,
        }
    }
}

impl Clone for InputConfig {
    fn clone(&self) -> (r: Self)
        ensures
            r == *self,
    {
        InputConfig { placeholder: self.placeholder.clone() }
    }
}

/// Whether two plugin sections hold the same settings.
pub open spec fn same_plugins(a: PluginsConfig, b: PluginsConfig) -> bool {
    &&& a.apps == b.apps
    &&& a.commands == b.commands
    &&& a.power == b.power
    &&& a.priority@ == b.priority@
    &&& a.terminal == b.terminal
    &&& match (a.terminal_args, b.terminal_args) {
        (Some(x), Some(y)) => x@ == y@,
        (None, None) => true,
        _ => false,
    }
    &&& a.clipboard@ == b.clipboard@
    &&& a.power_commands == b.power_commands
}

/// Whether two configurations hold the same settings.
pub open spec fn same_config(a: Config, b: Config) -> bool {
    a.window == b.window && a.input == b.input && same_plugins(a.plugins, b.plugins)
}

impl Clone for PluginsConfig {
    fn clone(&self) -> (r: Self)
        ensures
            same_plugins(r, *self),
    {
        let terminal = match &self.terminal {
            Some(t) => Some(t.clone()),
            None => None,
        };
        let terminal_args = match &self.terminal_args {
            Some(a) => Some(copy_strings(a)),
            None => None,
        };
        PluginsConfig {
            apps: self.apps,
            commands: self.commands,
            power: self.power,
            priority: copy_strings(&self.priority),
            terminal,
            terminal_args,
            clipboard: copy_strings(&self.clipboard),
            power_commands: self.power_commands.clone(),
        }
    }
}

impl Clone for Config {
    fn clone(&self) -> (r: Self)
        ensures
            same_config(r, *self),
    {
        Config {
            window: self.window.clone(),
            input: self.input.clone(),
            plugins: self.plugins.clone(),
        }
    }
}

/// Whether `c` holds the documented default configuration.
pub open spec fn is_default_config(c: Config) -> bool {
    &&& c.window.width == 640
    &&& c.window.max_results == 12
    &&& c.window.monitor@ == "focused"@
    &&& c.window.anchor@ == "center"@
    &&& c.window.margin == 60
    &&& c.window.item_height == 40
    &&& c.window.padding == 10
    &&& c.input.placeholder@ == "Search..."@
    &&& c.plugins.apps && c.plugins.commands && c.plugins.power
    &&& c.plugins.priority.deep_view() == seq!["apps"@, "commands"@, "power"@]
    &&& c.plugins.terminal is None
    &&& c.plugins.terminal_args is None
    &&& c.plugins.clipboard.deep_view() == seq!["wl-copy"@]
    &&& c.plugins.power_commands.shutdown@ == "systemctl poweroff"@
    &&& c.plugins.power_commands.reboot@ == "systemctl reboot"@
    &&& c.plugins.power_commands.suspend@ == "systemctl suspend"@
    &&& c.plugins.power_commands.lock@ == "loginctl lock-session"@
}

impl Default for Config {
    fn default() -> (r: Self)
        ensures
            is_default_config(r),
    {
        Config {
            window: WindowConfig::default(),
            input: InputConfig::default(),
            plugins: PluginsConfig::default(),
        }
    }
}

/// The directory used when the XDG base directories cannot be determined:
/// `.config/slaunch` under `HOME`, or under `/tmp` when `HOME` is unset.
pub open spec fn fallback_dir_of(home: Option<Seq<char>>) -> Seq<char> {
    let h = match home {
        Some(h) => h,
        None => "/tmp"@,
    };
    join_path(h, ".config/slaunch"@)
}

/// The directory used when the XDG base directories cannot be determined.
pub fn fallback_config_dir(home: Option<&str>) -> (r: String)
    ensures
        r@ == fallback_dir_of(crate::plugins::opt_str(home)),
{
    let h = match home {
        Some(h) => chars_of(h),
        None => chars_of("/tmp"),
    };
    string_of_all(&join(&h, &chars_of(".config/slaunch")))
}

/// The path of the configuration file `file`: the one the XDG base
/// directories give when they could be determined, else `file` in the
/// fallback directory.
pub fn config_file_path(xdg_file: Option<&str>, home: Option<&str>, file: &str) -> (r: String)
    ensures
        r@ == match xdg_file {
            Some(p) => p@,
            None => join_path(fallback_dir_of(crate::plugins::opt_str(home)), file@),
        },
{
    match xdg_file {
        Some(p) => String::from_str(p),
        None => {
            let dir = fallback_config_dir(home);
            string_of_all(&join(&chars_of(dir.as_str()), &chars_of(file)))
        },
    }
}

} // verus!
