[package]
name = "inventory_store"
version = "0.1.0"
edition = "2021"
publish = false

[dependencies]
anyhow = "1"
libocc = "*"
serde = { version = "1", features = ["derive"] }
uuid = { version = "*", features = ["v4", "serde"] }
