[package]
name = "stardust"
version = "0.1.0"
edition = "2021"
publish = false

[dependencies]
anyhow = "=1.0.104"
ciborium = "=0.2.2"
dot_vox = "=5.2.0"
log = "=0.4.34"
serde = { version = "=1.0.229", features = ["derive"] }
thiserror = "=1.0.69"
