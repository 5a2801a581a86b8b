[package]
name = "chron"
version = "0.1.0"
edition = "2021"
publish = false

[dependencies]
anyhow = "*"
base64 = "*"
hex = "*"
rand = "*"
reqwest = { version = "*", default-features = false }
serde = { version = "*", features = ["derive"] }
serde_json = "*"
siphasher = "*"
time = { version = "*", features = ["formatting", "parsing", "serde"] }
tokio = { version = "*", features = ["rt-multi-thread", "macros", "time", "sync", "signal"] }
unicode-normalization = "*"
