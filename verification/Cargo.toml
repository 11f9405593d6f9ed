[package]
name = "babel"
version = "0.1.0"
edition = "2021"
publish = false

[dependencies]
rand = "*"
tokio = { version = "*", features = ["full"] }
axum = { version = "*", features = ["ws"] }
dashmap = "*"
serde = { version = "*", features = ["derive"] }
serde_json = "*"
once_cell = "*"
futures = "*"
tokio-stream = { version = "*", features = ["sync"] }
tower-http = { version = "*", features = ["cors"] }
