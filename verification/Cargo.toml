[package]
name = "midgard_history"
version = "0.1.0"
edition = "2021"
publish = false

[dependencies]
axum = "0.6"
chrono = "0.4"
dotenv = "0.15"
native-tls = "0.2"
postgres-native-tls = "0.5"
reqwest = { version = "0.11", default-features = false, features = ["json", "native-tls"] }
serde = { version = "1", features = ["derive"] }
serde_json = "1"
tokio = { version = "1", features = ["macros", "rt-multi-thread", "time"] }
tokio-postgres = "0.7"
