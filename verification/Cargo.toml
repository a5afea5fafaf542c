[package]
name = "vlc_relay"
version = "0.1.0"
edition = "2021"
publish = false

[dependencies]
reqwest = { version = "0.12", default-features = false, features = ["rustls-tls"] }
tokio = { version = "1", features = ["io-util", "net", "rt", "sync", "time"] }
url = "2"
