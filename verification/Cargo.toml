[package]
name = "push_server"
version = "0.1.0"
edition = "2021"
publish = false

[dependencies]
chrono = "*"
pulldown-cmark = "*"
serde = { version = "*", features = ["derive"] }
serde_json = "*"
serde_yaml = "*"
sqlx = { version = "*", default-features = false, features = ["mysql", "runtime-tokio", "macros"] }
tokio = { version = "*", features = ["macros", "rt-multi-thread", "fs", "io-util", "net"] }
dotenv = "*"
axum = "*"
tower-http = { version = "*", features = ["fs", "cors"] }
tower-cookies = "*"
