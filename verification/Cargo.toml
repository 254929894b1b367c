[package]
name = "llm-watch"
version = "0.1.0"
edition = "2021"
publish = false

[dependencies]
chrono = { version = "0.4", default-features = false, features = ["clock", "std"] }
clap = { version = "4", features = ["derive"] }
fs2 = "0.4"
serde = { version = "1", features = ["derive"] }
serde_json = "1"
shell-words = "1"
uuid = { version = "1", features = ["v4", "v5"] }
wait-timeout = "0.2"
