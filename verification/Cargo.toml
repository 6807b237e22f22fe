[package]
name = "nodestor_inference"
version = "0.1.0"
edition = "2021"
publish = false

[dependencies]
dirs = "=5.0.1"
futures = "=0.3.34"
memmap2 = "=0.9.12"
miniz_oxide = "=0.8.9"
rand = "=0.8.8"
rayon = "=1.12.0"
serde = { version = "=1.0.229", features = ["derive"] }
serde_json = "=1.0.154"
tokenizers = { version = "=0.19.1", default-features = false, features = ["unstable_wasm"] }
tokio = { version = "=1.54.1", features = ["rt", "sync", "time"] }
tokio-stream = "=0.1.19"
