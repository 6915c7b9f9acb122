[package]
name = "jp2anki_dict"
version = "0.1.0"
edition = "2021"
publish = false

[dependencies]
flate2 = "=1.1.10"
regex = "=1.13.1"
serde = { version = "=1.0.229", features = ["derive"] }
quick-xml = "=0.42.0"
clap = { version = "=4.6.7", features = ["derive"] }
reqwest = { version = "=0.12.28", default-features = false, features = ["blocking", "json", "rustls-tls"] }
anyhow = "=1.0.104"
