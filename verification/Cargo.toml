[package]
name = "runlog"
version = "0.1.0"
edition = "2021"
publish = false

[dependencies]
axum = "0.8"
bb8 = "0.9"
bigdecimal = { version = "0.4", features = ["serde"] }
chrono = { version = "0.4", features = ["serde"] }
diesel = { version = "2", features = ["postgres_backend", "chrono", "numeric"] }
diesel-async = { version = "0.9", features = ["postgres", "bb8"] }
dotenvy = "0.15"
serde = { version = "1", features = ["derive"] }
tokio = { version = "1", features = ["macros", "rt-multi-thread", "net"] }
tracing-subscriber = { version = "0.3", features = ["env-filter"] }

[dev-dependencies]
humantime = "=2.4.0"
