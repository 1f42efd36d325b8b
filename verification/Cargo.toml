[package]
name = "hyperfind"
version = "0.1.0"
edition = "2021"
publish = false

[dependencies]
roaring = "0.10"
rustc-hash = "2"
crc32fast = "1"
chrono = "0.4"
serde = { version = "1", features = ["derive"] }
serde_json = "1"
uuid = { version = "1", features = ["v4"] }
walkdir = "2"
memmap2 = "0.9"
notify = "6"
thiserror = "1"
anyhow = "1"
clap = { version = "4", features = ["derive"] }
tracing = "0.1"
tracing-subscriber = { version = "0.3", features = ["env-filter"] }
parking_lot = "0.12"
libloading = "0.8"
rayon = "1"
