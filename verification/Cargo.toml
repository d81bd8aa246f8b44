[package]
name = "deaddrop"
version = "0.1.0"
edition = "2021"
publish = false

[dependencies]
base64 = "*"
hmac = "*"
sha2 = "*"
rand = "*"
axum = "*"
tokio = { version = "*", features = ["macros", "rt-multi-thread", "net", "time"] }
serde = { version = "*", features = ["derive"] }
serde_json = "*"
