[package]
name = "typeid_suffix"
version = "1.1.0"
edition = "2021"
publish = false

[dependencies]
uuid = { version = "*", features = ["v4", "v7"] }
serde = "*"
tracing = "*"
