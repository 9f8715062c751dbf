[package]
name = "slaunch"
version = "0.1.0"
edition = "2021"
publish = false

[dependencies]
anyhow = "1"
async-channel = "2"
clap = { version = "4", features = ["derive"] }
emojis = "0.6"
evalexpr = "11"
gtk4 = { version = "*", features = ["v4_12"] }
gtk4-layer-shell = "*"
libc = "0.2"
notify = "*"
nucleo = "0.5"
serde = { version = "1", features = ["derive"] }
shell-words = "1"
tokio = { version = "1", features = ["full"] }
toml = "0.8"
tracing = "0.1"
tracing-subscriber = { version = "0.3", features = ["env-filter"] }
xdg = "2"
