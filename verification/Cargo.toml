[package]
name = "counter_pipeline"
version = "0.1.0"
edition = "2021"
publish = false

[dependencies]
once_cell = "=1.21.4"
serde = { version = "=1.0.229", features = ["derive"] }
serde_json = "=1.0.151"
tokio = { version = "=1.53.2", features = ["macros", "net", "rt", "rt-multi-thread", "io-util", "time", "sync"] }
