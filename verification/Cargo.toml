[package]
name = "pux"
version = "0.1.0"
edition = "2021"
publish = false

[dependencies]
tokio = { version = "1", features = ["full"] }
hyper = { version = "0.14", features = ["full"] }
tokio-rustls = "0.23"
rustls-pemfile = "1"
webpki-roots = "0.22"
serde = { version = "1", features = ["derive"] }
serde_yaml = "0.9"
futures-util = "0.3"
async-trait = "0.1"
tracing = "0.1"
tracing-subscriber = "0.3"
mime = "0.3"
