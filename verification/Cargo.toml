[package]
name = "dirindex"
version = "0.1.0"
edition = "2021"
publish = false

[dependencies]
anyhow = "*"
axum = "*"
dotenvy = "*"
serde = { version = "*", features = ["derive"] }
sqlx = { version = "*", features = ["sqlite", "runtime-tokio"], default-features = false }
tokio = { version = "*", features = ["rt-multi-thread", "macros", "net", "fs"] }
tower = { version = "*", features = ["util"] }
tower-http = { version = "*", features = ["fs", "cors"] }
tracing = "*"
tracing-subscriber = "*"
