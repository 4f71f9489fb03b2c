[package]
name = "sonos_cli"
version = "0.1.0"
edition = "2021"
publish = false

[dependencies]
anyhow = "1"
clap = { version = "4", features = ["derive"] }
dirs = "*"
futures = "0.3"
sonor = "*"
tokio = { version = "1", features = ["macros", "rt-multi-thread"] }
