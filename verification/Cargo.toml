[package]
name = "melt"
version = "0.1.0"
edition = "2021"
publish = false

[dependencies]
chrono = "0.4"
chrono-tz = "*"
clap = { version = "4", features = ["derive"] }
is-terminal = "*"
thiserror = "*"
tokio = { version = "1", features = ["io-std", "io-util", "rt", "rt-multi-thread", "macros"] }
