[package]
name = "join_tables"
version = "0.1.0"
edition = "2021"

[dependencies]
anyhow = "1"
env_logger = "*"
getopts = "0.2"
log = "0.4"
tokio = { version = "1", features = ["rt-multi-thread", "sync", "macros"] }
