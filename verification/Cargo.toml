[package]
name = "furl_core"
version = "0.1.0"
edition = "2021"
publish = false

[dependencies]
reqwest = { version = "*", default-features = false, features = ["stream"] }
dirs = "*"
tokio = { version = "*", features = ["full"] }
futures-util = "*"
indicatif = "*"
clap = { version = "*", features = ["derive"] }
regex = "*"
