[package]
name = "ferris_lab"
version = "0.1.0"
edition = "2021"
publish = false

[dependencies]
rand = "*"
unicode-width = "*"
axum = { version = "*", features = ["ws"] }
tokio = { version = "*", features = ["rt-multi-thread", "macros", "sync", "time", "net", "fs", "process", "io-util"] }
tokio-tungstenite = "*"
futures-util = "*"
serde = { version = "*", features = ["derive"] }
serde_json = "*"
reqwest = { version = "*", default-features = false, features = ["json"] }
dotenvy = "*"
owo-colors = "*"
terminal_size = "*"
thiserror = "*"
