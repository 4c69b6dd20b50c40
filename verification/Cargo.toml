[package]
name = "t2_bus"
version = "0.1.0"
edition = "2021"
publish = false

[dependencies]
flate2 = "1"
ciborium = "0.2"
serde = { version = "1", features = ["derive"] }
serde_cbor = "0.11"
serde_json = "1"
tokio = { version = "1", features = ["full"] }
tokio-util = { version = "0.7", features = ["codec"] }
futures = "0.3"
bytes = "1"
thiserror = "1"
clap = { version = "4", features = ["derive"] }
tokio-rustls = { version = "0.26", default-features = false, features = ["ring"] }
rustls-pemfile = "2"
