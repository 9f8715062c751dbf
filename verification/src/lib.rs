//! Verified core of a Wayland application launcher: configuration defaults,
//! the IPC byte protocol, the `.desktop` parser, the plugin result builders,
//! the priority-bucketed result list and the launcher's selection state.

pub mod text;
pub mod config;
pub mod ipc;
pub mod plugins;
pub mod search;
pub mod daemon;
pub mod ui;
