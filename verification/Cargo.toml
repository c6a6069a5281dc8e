[package]
name = "rudo"
version = "0.2.2"
edition = "2021"
publish = false

[dependencies]
chrono = "0.4"
dirs = "*"
self_update = { version = "*", default-features = false, features = ["ureq", "rustls", "github", "archive-tar", "compression-tar-gz", "progress-bar"] }
serde = { version = "1", features = ["derive"] }
serde_json = "1"
termion = "1.5"
tui = { version = "*", default-features = false, features = ["termion"] }
uuid = { version = "1", features = ["v4", "serde"] }
