[package]
name = "framework"
version = "0.1.0"
edition = "2021"
publish = false

[dependencies]
bytes = "1"
log = "0.4"
mlua = { version = "*", features = ["lua54", "vendored", "async", "send"] }
notify = "*"
serde = { version = "1", features = ["derive"] }
tokio = { version = "1", features = ["sync", "time", "rt", "macros", "fs"] }
tokio-util = "0.7"
