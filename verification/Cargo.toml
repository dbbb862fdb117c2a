[package]
name = "treehash"
version = "0.1.0"
edition = "2021"
publish = false

[dependencies]
sha2 = "0.10"
anyhow = "1"
bytes = "1"
chrono = "0.4"
env_logger = "*"
flate2 = "1"
lazy_static = "1"
log = "0.4"
regex = "1"
rusoto_core = { version = "0.48", default-features = false, features = ["rustls"] }
rusoto_glacier = { version = "0.48", default-features = false, features = ["rustls"] }
tar = "0.4"
tokio = { version = "1", features = ["macros", "rt-multi-thread", "time"] }
