[package]
name = "s3_store"
version = "0.1.0"
edition = "2021"
publish = false

[dependencies]
rand = "*"
chrono = "*"
uuid = { version = "*", features = ["v4"] }
serde = { version = "1", features = ["derive"] }
quick-xml = { version = "*", features = ["serialize"] }
