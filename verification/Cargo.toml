[package]
name = "roommate"
version = "0.1.0"
edition = "2021"
publish = false

[dependencies]
anyhow = "1"
geo = "*"
serde = { version = "1", features = ["derive"] }
serde_json = "1"
tracing = "0.1"
