[package]
name = "script_sessions"
version = "0.1.0"
edition = "2021"
publish = false

[dependencies]
rlua = "0.19"
uuid = { version = "1", features = ["v4"] }
serde = { version = "1", features = ["derive"] }
serde_json = "1"
tokio = { version = "1", features = ["sync"] }
actix-web = { version = "4", default-features = false, features = ["macros"] }
