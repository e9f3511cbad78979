[package]
name = "openlogi"
version = "0.1.0"
edition = "2021"
publish = false

[dependencies]
anyhow = "=1.0.104"
async-hid = "=0.5.3"
block2 = "=0.6.2"
futures = "=0.3.34"
futures-concurrency = "=7.7.1"
hidpp = "=0.2.0"
interprocess = { version = "=2.4.7", features = ["tokio"] }
objc2 = "=0.6.5"
objc2-app-kit = "0.3"
rust-i18n = "=3.1.5"
serde = { version = "=1.0.229", features = ["derive"] }
serde_json = "=1.0.154"
tarpc = { version = "=0.38.0", features = ["tokio1", "serde-transport", "serde-transport-json"] }
thiserror = "=2.0.21"
tokio = { version = "=1.54.1", features = ["rt", "rt-multi-thread", "macros", "sync", "time", "net", "io-util"] }
tracing = "=0.1.44"
tracing-subscriber = { version = "=0.3.23", features = ["env-filter"] }
