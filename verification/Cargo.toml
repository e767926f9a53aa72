[package]
name = "esta_kernel"
version = "0.1.0"
edition = "2021"
publish = false

[dependencies]
sha2 = "=0.11.0"
hex = "=0.4.3"
ring = "=0.17.14"
serde = { version = "=1.0.229", features = ["derive"] }
serde_json = "=1.0.151"
tokio = { version = "=1.53.2", features = ["full"] }
anyhow = "=1.0.104"
wasmtime = "=48.0.5"
