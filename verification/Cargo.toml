[package]
name = "evo"
version = "0.1.0"
edition = "2021"
publish = false

[dependencies]
uuid = { version = "1", features = ["v7"] }
serde = { version = "1", features = ["derive"] }
rusqlite = { version = "*", features = ["bundled"] }
