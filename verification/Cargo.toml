[package]
name = "ssh_agent_notify"
version = "0.1.0"
edition = "2021"
publish = false

[dependencies]
sha2 = "*"
base64 = "*"
log = "*"
env_logger = "*"
clap = "*"
libnotify = "*"
tokio = { version = "1", features = ["rt-multi-thread", "macros", "net", "io-util", "signal"] }
