[package]
name = "schema_faker"
version = "0.1.0"
edition = "2021"
publish = false

[dependencies]
anyhow = "1"
daggy = "*"
fake = "4"
jsonptr = "0.7"
serde = { version = "1", features = ["derive"] }
serde_json = "1"
