[package]
name = "arcfs"
version = "0.1.0"
edition = "2021"
publish = false

[dependencies]
sled = "0.34"
bincode = "1"
serde = { version = "1", features = ["derive"] }
sha2 = "0.10"
fuser = { version = "0.14", default-features = false }
libc = "0.2"
clap = { version = "4", features = ["derive"] }
env_logger = "0.11"
