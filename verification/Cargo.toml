[package]
name = "diving"
version = "0.1.0"
edition = "2021"
publish = false

[dependencies]
lru = "*"
serde_json = "*"
libflate = "*"
zstd = "*"
tar = "*"
unix_mode = "*"
humantime = "*"
chrono = "*"
serde = { version = "*", features = ["derive"] }
reqwest = { version = "*", default-features = false, features = ["blocking", "rustls-tls", "json"] }
clap = { version = "*", features = ["derive"] }
home = "*"
glob = "*"
bytesize = "*"
config = { version = "*", default-features = false, features = ["yaml"] }
