[package]
name = "load_balancer_l4"
version = "0.1.0"
edition = "2021"
publish = false

[dependencies]
axum = "0.7"
redis = { version = "0.25", features = ["tokio-comp"] }
serde = { version = "1", features = ["derive"] }
tokio = { version = "1", features = ["full"] }
