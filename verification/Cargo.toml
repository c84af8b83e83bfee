[package]
name = "custom-dmq"
version = "0.1.0"
edition = "2021"
publish = false

[dependencies]
lz4_flex = "0.11"
tokio = { version = "1", features = ["full"] }
serde = { version = "1", features = ["derive"] }
toml = "0.8"
memmap2 = "0.9"
tempfile = "3"
tokio-rustls = { version = "0.26", default-features = false, features = ["ring", "logging", "tls12"] }
rustls-pemfile = "2"
rustls-pki-types = "1"
hdrhistogram = { version = "7", default-features = false }
