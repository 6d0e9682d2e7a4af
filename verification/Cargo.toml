[package]
name = "dedup"
version = "0.1.0"
edition = "2021"
publish = false

[dependencies]
anyhow = "=1.0.104"
blake3 = "=1.8.7"
bytesize = "=1.3.3"
chrono = "=0.4.45"
clap = { version = "=4.6.7", features = ["derive"] }
csv = "=1.4.0"
env_logger = "=0.11.11"
indicatif = "=0.17.11"
log = "=0.4.35"
md5 = "=0.7.0"
rayon = "=1.12.0"
rfd = "=0.14.1"
rusqlite = "=0.31.0"
serde = { version = "=1.0.229", features = ["derive"] }
serde_json = "=1.0.154"
thiserror = "=1.0.69"
walkdir = "=2.5.0"
windows = { version = "0.52", features = ["Win32_Foundation", "Win32_Storage_FileSystem", "Win32_Security"] }
