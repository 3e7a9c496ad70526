[package]
name = "parkvol"
version = "0.1.0"
edition = "2021"
publish = false

[dependencies]
axum = "*"
maud = "*"
reqwest = { version = "*", default-features = false, features = ["rustls-tls"] }
serde = { version = "*", features = ["derive"] }
serde_json = "*"
tokio = { version = "*", features = ["rt-multi-thread", "macros", "net"] }
tower-http = { version = "*", features = ["cors"] }
