[package]
name = "ltc_timecode"
version = "0.1.0"
edition = "2021"
publish = false

[dependencies]
regex = "1"
hound = "3.5"
libltc-rs = "*"
serde = { version = "1", features = ["derive"] }
serde_json = "1"
arc-swap = "1"
chrono = "0.4"
dirs = "*"
env_logger = "*"
log = { version = "0.4", features = ["std"] }

[dev-dependencies]
tempfile = "3"
