[package]
name = "transcription_assistant"
version = "0.1.0"
edition = "2021"
publish = false

[dependencies]
anyhow = "=1.0.104"
chrono = { version = "=0.4.45", default-features = false, features = ["clock", "std"] }
futures-util = { version = "=0.3.34", default-features = false, features = ["std"] }
lazy_static = "=1.5.1"
regex = "=1.13.1"
reqwest = { version = "=0.11.27", default-features = false, features = ["rustls-tls", "stream"] }
serde = { version = "=1.0.229", features = ["derive"] }
serde_json = "=1.0.154"
tokio = { version = "=1.54.1", features = ["fs", "io-util", "sync"] }
zip = { version = "=0.6.6", default-features = false, features = ["deflate"] }

[dev-dependencies]
encoding_rs = "=0.8.42"
