[package]
name = "nail"
version = "0.1.0"
edition = "2021"
publish = false

[dependencies]
base64 = "=0.22.1"
dashmap = { version = "=6.2.1", features = ["serde"] }
serde = { version = "=1.0.229", features = ["derive"] }
flate2 = "=1.1.10"
tar = "=0.4.46"
zip = { version = "=2.6.1", default-features = false, features = ["deflate"] }
zstd = "=0.13.4"
brotli = "=7.0.0"
rodio = { version = "=0.20.1", default-features = false }
rayon = "1"
rand = "0.8"
