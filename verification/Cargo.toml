[package]
name = "jmds"
version = "0.1.0"
edition = "2021"
publish = false

[dependencies]
color-eyre = { version = "0.6", default-features = false }
dirs = "=7.0.0"
futures-util = "0.3"
globset = "=0.4.21"
libc = "0.2"
log = { version = "0.4", features = ["serde"] }
notify = "=8.2.1"
parking_lot = "0.12"
portable-pty = "=0.9.0"
reqwest = { version = "=0.13.5", default-features = false, features = ["rustls-no-provider", "json", "stream"] }
rustls = { version = "0.23", default-features = false, features = ["ring", "std", "tls12"] }
serde = { version = "1", features = ["derive"] }
serde_json = { version = "=1.0.154", features = ["preserve_order"] }
thiserror = "2"
tokio = { version = "=1.54.1", features = ["full"] }
toml_edit = { version = "=0.23.10", features = ["serde"] }
tracing-appender = "0.2"
tracing-subscriber = { version = "0.3", features = ["local-time", "time"] }
