[package]
name = "skate_mods"
version = "0.1.0"
edition = "2021"
publish = false

[dependencies]
serde = { version = "1", features = ["derive"] }
serde_json = "1"
mlua = { version = "0.12", features = ["lua54", "vendored", "serde", "send"] }
