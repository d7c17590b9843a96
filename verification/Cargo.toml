[package]
name = "schemer"
version = "0.2.1"
edition = "2021"
publish = false

[dependencies]
uuid = "*"
postgres = "*"
rusqlite = { version = "*", features = ["bundled"] }
