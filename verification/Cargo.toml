[package]
name = "aabox"
version = "0.1.0"
edition = "2021"
publish = false

[dependencies]
anyhow = "1"
async-trait = "0.1"
bytes = "1"
clap = { version = "4", features = ["derive"] }
der = { version = "0.7", features = ["alloc", "std"] }
inotify = "0.11"
jni = "0.21"
libc = "0.2"
netlink-sys = "0.8"
nix = { version = "0.29", features = ["mount"] }
prost = "0.13"
reqwest = { version = "0.12", default-features = false, features = ["json", "rustls-tls"] }
ring = "0.17"
rustls = { version = "0.23", default-features = false, features = ["ring", "std", "tls12", "logging"] }
rustls-pemfile = "2"
serde = { version = "1", features = ["derive"] }
serde_json = "1"
tokio = { version = "1", features = ["full"] }
tracing = "0.1"
tracing-appender = "0.2"
tracing-subscriber = { version = "0.3", features = ["env-filter"] }
x509-cert = "0.2"
zip = { version = "2", default-features = false, features = ["deflate"] }
