[package]
name = "nemo"
version = "0.1.0"
edition = "2021"
publish = false

[dependencies]
rand = "0.8"
argon2 = "0.5"
subtle = "2"
ring = "0.17"
base64 = "0.22"
bip39 = "2"
tokio = { version = "1", features = ["net", "io-util", "rt", "time"] }
rustls = { version = "0.23", default-features = false, features = ["ring", "std"] }
tokio-rustls = { version = "0.26", default-features = false, features = ["ring"] }
reqwest = { version = "0.12", default-features = false, features = ["rustls-tls"] }
dirs = "5"
keyring = "3"
thiserror = "1"
