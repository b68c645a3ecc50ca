[package]
name = "atomic_bomb_engine"
version = "0.1.0"
edition = "2021"
publish = false

[dependencies]
anyhow = "1"
clap = { version = "4", features = ["derive"] }
futures = "0.3"
handlebars = "5"
histogram = "0.10"
indicatif = "0.17"
jsonpath_lib = "0.3"
os_info = "3"
rand = "0.8"
reqwest = { version = "0.12", default-features = false, features = ["charset", "cookies", "http2", "json", "multipart", "rustls-tls", "stream"] }
serde = { version = "1", features = ["derive"] }
serde_json = "1"
tokio = { version = "1", features = ["full"] }
url = "2"
