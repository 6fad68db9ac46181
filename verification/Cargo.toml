[package]
name = "aas_deltasync"
version = "0.1.0"
edition = "2021"
publish = false

[dependencies]
anyhow = "*"
base64 = "*"
reqwest = { version = "*", default-features = false, features = ["rustls-tls", "json"] }
rumqttc = "*"
rusqlite = { version = "*", features = ["bundled"] }
serde_json = "*"
tokio = { version = "*", features = ["macros", "rt-multi-thread", "signal", "sync", "time"] }
tracing = "*"
tracing-subscriber = { version = "*", features = ["env-filter"] }
url = "*"
uuid = { version = "*", features = ["v4"] }

[dev-dependencies]
