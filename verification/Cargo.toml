[package]
name = "webext_storage"
version = "0.1.0"
edition = "2021"
publish = false

[dependencies]
rusqlite = "*"
serde = "1"
serde_derive = "1"
serde_json = "1"
