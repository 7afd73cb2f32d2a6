[package]
name = "hackernews"
version = "0.1.0"
edition = "2021"
publish = false

[dependencies]
ammonia = "*"
chrono = { version = "0.4", features = ["serde"] }
console_error_panic_hook = "0.1"
console_log = "*"
derive_more = { version = "*", features = ["from"] }
log = "0.4"
sauron = "*"
serde = { version = "1", features = ["derive"] }
serde_json = "1"
