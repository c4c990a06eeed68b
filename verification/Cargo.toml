[package]
name = "medbook_saga"
version = "0.1.0"
edition = "2021"
publish = false

[dependencies]
anyhow = "*"
axum = "*"
chrono = { version = "*", features = ["serde"] }
diesel = { version = "*", default-features = false, features = ["postgres_backend"] }
diesel-async = { version = "*", features = ["postgres", "bb8"] }
dotenvy = "*"
futures = "*"
futures-lite = "*"
lapin = "*"
reqwest = { version = "*", default-features = false, features = ["json"] }
serde = { version = "*", features = ["derive"] }
serde_json = "*"
thiserror = "*"
tokio = { version = "*", features = ["full"] }
tracing = "*"
tracing-subscriber = "*"
uuid = { version = "*", features = ["v4", "serde"] }
