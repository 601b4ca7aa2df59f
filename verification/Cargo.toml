[package]
name = "kuma_client"
version = "0.1.0"
edition = "2021"
publish = false

[dependencies]
reqwest = { version = "=0.12.28", default-features = false, features = ["json", "cookies", "rustls-tls"] }
url = { version = "=2.5.8", features = ["serde"] }
serde = { version = "=1.0.229", features = ["derive"] }
serde_json = "=1.0.154"
config = { version = "=0.15.27", default-features = false }
clap = { version = "=4.6.7", features = ["derive"] }
rpassword = "=7.5.4"
serde_alias = "=0.0.2"
serde-inline-default = "=1.0.3"
serde_with = "=3.24.0"
