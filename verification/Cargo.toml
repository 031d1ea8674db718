[package]
name = "tend"
version = "0.1.0"
edition = "2021"
publish = false

[dependencies]
anyhow = "*"
chrono = "*"
clap = { version = "*", features = ["derive"] }
colored = "*"
dirs = "*"
reqwest = { version = "*", default-features = false, features = ["json"] }
serde = { version = "*", features = ["derive"] }
serde_yaml = "*"
shellexpand = "*"
tokio = { version = "*", features = ["macros", "rt-multi-thread", "time", "signal"] }
