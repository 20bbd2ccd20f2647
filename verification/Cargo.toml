[package]
name = "room_overview"
version = "0.1.0"
edition = "2021"
publish = false

[dependencies]
askama_axum = "0.4"
axum = "0.7"
axum-server = { version = "0.7", features = ["tls-rustls"] }
chrono = "0.4"
chrono-tz = "0.10"
ics = "0.5"
itertools = "0.13"
reqwest = { version = "0.12", default-features = false, features = ["rustls-tls"] }
rustls = { version = "0.23", features = ["ring"] }
serde = { version = "1", features = ["derive"] }
serde_json = "1"
sqlx = { version = "0.8", default-features = false, features = ["sqlite", "runtime-tokio", "chrono", "migrate"] }
tokio = { version = "1", features = ["macros", "rt-multi-thread", "signal", "sync", "time"] }
toml = "0.8"
tracing = "0.1"
tracing-subscriber = { version = "0.3", features = ["env-filter"] }
uuid = { version = "1", features = ["v4"] }
