[package]
name = "similar_images"
version = "0.1.0"
edition = "2021"
publish = false

[dependencies]
image_hasher = "1"
image = { version = "0.24", default-features = false, features = ["jpeg", "png"] }
rayon = "1"
eyre = "0.6"
tracing = "0.1"
tracing-subscriber = "0.3"
log = "0.4"
serde = { version = "1", features = ["derive"] }
serde_json = "1"
uuid = { version = "1", features = ["v4", "serde"] }
sha256 = "1"
tokio = { version = "1", features = ["full"] }
tokio-stream = { version = "0.1", features = ["sync"] }
futures = "0.3"
axum = "0.6"
tower = { version = "0.4", features = ["util"] }
tower-http = { version = "0.4", features = ["fs", "trace"] }
