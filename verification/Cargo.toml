[package]
name = "raphle"
version = "0.1.0"
edition = "2021"
publish = false

[dependencies]
roaring = "*"
hashbrown = "*"
serde = { version = "*", features = ["derive"] }
axum = "*"
tokio = { version = "*", features = ["macros", "rt-multi-thread", "net"] }
tracing = "*"
tracing-subscriber = "*"
