[package]
name = "switch_bench"
version = "0.1.0"
edition = "2021"
publish = false

[dependencies]
env_logger = "*"
lazy_static = "*"
libc = "*"
log = "*"
nix = { version = "*", features = ["sched", "time", "process"] }
numeric-enum-macro = "*"
spin = "*"
tokio = { version = "*", features = ["rt", "macros"] }
woke = "*"
