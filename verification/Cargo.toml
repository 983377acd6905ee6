[package]
name = "trustit"
version = "0.1.0"
edition = "2021"
publish = false

[dependencies]
axum = "*"
csv = "*"
serde = { version = "*", features = ["derive"] }
tokio = { version = "*", features = ["rt-multi-thread", "macros", "net"] }
