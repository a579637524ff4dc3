[package]
name = "session_store"
version = "0.1.0"
edition = "2021"
publish = false

[dependencies]
chrono = "*"
tower-sessions-core = "*"
rusqlite = { version = "*", features = ["bundled"] }
