[package]
name = "mydocker"
version = "0.1.0"
edition = "2021"
publish = false

[dependencies]
rand = "*"
clap = { version = "*", features = ["derive"] }
nix = { version = "*", features = ["mount", "sched", "signal", "process", "fs", "user", "hostname"] }
libc = "*"
serde = { version = "*", features = ["derive"] }
serde_json = "*"
simple_logger = "*"
log = "*"
tokio = { version = "*", features = ["rt", "rt-multi-thread"] }
futures = "*"
rtnetlink = "*"
once_cell = "*"
ipnetwork = "*"
