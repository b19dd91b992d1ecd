[package]
name = "proxy"
version = "0.1.0"
edition = "2021"
publish = false

[dependencies]
async-stream = "0.3"
axum = { version = "0.8", default-features = false, features = ["http1", "query", "tokio"] }
bytes = "1"
jni = "0.21"
reqwest = { version = "0.12", default-features = false, features = ["rustls-tls"] }
tokio = { version = "1", features = ["net", "rt-multi-thread", "sync", "time"] }
