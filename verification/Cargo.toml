[package]
name = "ricon"
version = "0.4.0"
edition = "2021"
publish = false

[dependencies]
arboard = { version = "*", default-features = false, features = ["wayland-data-control"] }
portable-pty = "*"
ratatui = "*"
rusqlite = { version = "*", features = ["bundled"] }
tui-term = "*"
unicode-width = "*"
