[package]
name = "hikefly"
version = "0.1.0"
edition = "2021"
publish = false

[dependencies]
axum = "0.8"
image = { version = "0.25", default-features = false, features = ["png"] }
rayon = "1"
reqwest = { version = "0.12", default-features = false, features = ["blocking", "json", "rustls-tls"] }
serde = { version = "1", features = ["derive"] }
serde_json = "1"
thiserror = "2"
tokio = { version = "1", features = ["rt-multi-thread", "macros", "net"] }
tower-http = { version = "0.6", features = ["cors"] }
zip = { version = "2", default-features = false, features = ["deflate"] }
