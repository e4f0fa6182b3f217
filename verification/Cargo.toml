[package]
name = "aq_fcst"
version = "0.1.0"
edition = "2021"
publish = false

[dependencies]
chrono = "=0.4.45"
chrono-tz = "=0.10.4"
clap = { version = "*", features = ["derive"] }
humantime = "*"
reqwest = { version = "=0.13.5", default-features = false, features = ["blocking", "query"] }
serde = { version = "*", features = ["derive"] }
serde_json = "*"
