[package]
name = "obs_shogi"
version = "0.1.0"
edition = "2021"
publish = false

[dependencies]
shogi_core = "=0.1.5"
shogi-kifu-converter = "=0.2.2"
blake3 = "=1.8.7"
zstd = "=0.13.3"
encoding_rs = "=0.8.42"
walkdir = "=2.5.0"
notify = "=8.2.1"
tokio = { version = "=1.54.1", features = ["full"] }
serde = { version = "=1.0.229", features = ["derive"] }
serde_json = "=1.0.154"
log = "=0.4.34"
tauri = { version = "2", default-features = false }
