[package]
name = "fx_store"
version = "0.1.0"
edition = "2021"
publish = false

[dependencies]
ahash = "0.8"
anyhow = "1"
axum = "0.7"
chrono = "0.4"
crossbeam = "0.8"
dashmap = "5"
memmap2 = "0.9"
parking_lot = "0.12"
rayon = "1"
serde = { version = "1", features = ["derive"] }
tokio = { version = "1", features = ["full"] }
tower-http = { version = "0.5", features = ["cors"] }
zstd = "0.13"
