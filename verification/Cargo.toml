[package]
name = "dbprimkit"
version = "0.1.0"
edition = "2021"
publish = false

[dependencies]
bytes = "1"
crc32c = "*"
libc = "*"
serde = { version = "1", features = ["derive"] }
serde_json = "1"
thiserror = "*"
tokio = { version = "1", features = ["fs", "io-util", "rt"] }

[dev-dependencies]
rand = "*"
