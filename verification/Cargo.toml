[package]
name = "mikrogit"
version = "0.1.0"
edition = "2021"
publish = false

[dependencies]
serde = { version = "1", features = ["derive"] }
thiserror = "2"
tokio = { version = "1", features = ["process", "rt-multi-thread", "macros", "io-util"] }
notify = "*"
notify-debouncer-mini = "*"
