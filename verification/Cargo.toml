[package]
name = "fulgurobot"
version = "0.1.0"
edition = "2021"
publish = false

[dependencies]
chrono = "0.4"
serde_json = "1"
serenity = "0.8"
diesel = { version = "1.4", features = ["sqlite"] }
dotenv = "0.15"
dirs = "2"
rusqlite = { version = "0.21", features = ["bundled"] }
reqwest = { version = "0.10", features = ["blocking", "json"] }
futures = "0.3"
lazy_static = "1"
config = { version = "0.10", default-features = false, features = ["toml"] }
