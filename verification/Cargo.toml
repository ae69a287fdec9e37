[package]
name = "kino"
version = "0.1.0"
edition = "2021"
publish = false

[dependencies]
anyhow = "=1.0.104"
chrono = "=0.4.45"
diffy = "=0.4.2"
poise = "=0.6.2"
reqwest = { version = "=0.12.28", default-features = false, features = ["json", "rustls-tls"] }
serde = { version = "=1.0.229", features = ["derive"] }
serde_json = "=1.0.154"
serenity = { version = "=0.12.5", default-features = false, features = ["builder", "client", "gateway", "model", "utils", "collector", "rustls_backend", "cache"] }
sqlx = { version = "=0.8.6", default-features = false, features = ["postgres", "runtime-tokio", "macros", "migrate"] }
tokio = { version = "=1.54.1", features = ["macros", "rt-multi-thread", "signal", "sync"] }
tracing = "=0.1.44"
tracing-subscriber = "=0.3.23"

[dev-dependencies]
regex = "=1.13.1"
