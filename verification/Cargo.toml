[package]
name = "snek"
version = "0.1.0"
edition = "2021"
publish = false

[dependencies]
axum = "0.7"
hdrhistogram = { version = "7", default-features = false }
serde = { version = "1", features = ["derive"] }
tokio = { version = "1", features = ["macros", "rt-multi-thread", "net", "signal"] }
tracing = "0.1"
tracing-subscriber = "0.3"
