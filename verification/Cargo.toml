[package]
name = "worker"
version = "0.1.0"
edition = "2021"
publish = false

[dependencies]
base64 = "0.22"
jmespath = "0.3"
serde = { version = "1", features = ["derive"] }
serde_json = "1"
tokio = { version = "1", features = ["full"] }
async-nats = "*"
axum = "0.7"
reqwest = { version = "0.12", default-features = false, features = ["json"] }
sqlx = { version = "0.8", default-features = false, features = ["postgres", "runtime-tokio"] }
chrono = "0.4"
uuid = { version = "1", features = ["v4"] }
prometheus = "0.13"
boa_engine = "*"
futures = "0.3"

[dev-dependencies]
regex = "1"
