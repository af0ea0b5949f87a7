[package]
name = "quire_corpus"
version = "0.1.0"
edition = "2021"
publish = false

[dependencies]
blake2 = "=0.10.6"
regex = "=1.13.1"
serde = { version = "=1.0.229", features = ["derive"] }
serde_json = { version = "=1.0.154", features = ["preserve_order"] }
serde_yaml = "=0.9.34"
walkdir = "=2.5.0"
clap = { version = "=4.6.7", features = ["derive"] }
thiserror = "=2.0.21"
