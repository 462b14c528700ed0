[package]
name = "metrics-rs"
version = "0.1.0"
edition = "2021"
publish = false

[dependencies]
prometheus = "0.13"
mlua = { version = "0.10", features = ["lua54", "module", "serialize", "macros"] }
serde = { version = "1", features = ["derive"] }
