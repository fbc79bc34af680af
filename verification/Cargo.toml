[package]
name = "tempest"
version = "0.1.0"
edition = "2021"
publish = false

[dependencies]
anyhow = "1"
bstr = "1"
bytes = "1"
clap = { version = "4", features = ["derive"] }
futures = "0.3"
rand = "0.8"
reqwest = { version = "0.12", default-features = false, features = ["rustls-tls"] }
sha1 = "0.10"
thiserror = "1"
tokio = { version = "1", features = ["full"] }
tokio-util = { version = "0.7", features = ["codec"] }
