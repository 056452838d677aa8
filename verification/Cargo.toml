[package]
name = "nthw"
version = "0.1.0"
edition = "2021"
publish = false

[dependencies]
nucleo = "*"
scraper = "*"
regex = "1"
base64 = "*"
serde = { version = "1", features = ["derive"] }
serde_json = "1"
tokio = { version = "1", features = ["full"] }
fantoccini = { version = "*", default-features = false, features = ["rustls-tls"] }
deadpool = "*"
walkdir = "2"
image = { version = "*", default-features = false, features = ["png", "jpeg"] }
which = "*"
dotenv = "0.15"
tracing = "0.1"
tracing-subscriber = "0.3"
futures = "0.3"
anyhow = "1"
thiserror = "*"
once_cell = "1"
lazy_static = "1"
wasm-bindgen = "0.2"
serde-wasm-bindgen = "*"
bincode = "1"
