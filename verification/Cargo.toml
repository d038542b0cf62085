[package]
name = "srcwrtimer"
version = "0.1.0"
edition = "2021"
publish = false

[dependencies]
serde_json = "=1.0.154"
simdutf8 = "=0.1.5"
memx = "=0.1.32"
hex = "=0.4.3"
sha1 = "=0.10.7"
encoding_rs = "=0.8.44"
mime = "=0.3.17"
bytes = "=1.12.1"
http = "=1.5.0"
reqwest = { version = "=0.12.28", default-features = false, features = ["rustls-tls", "stream"] }
tokio = { version = "=1.54.1", features = ["rt-multi-thread", "sync", "fs", "io-util", "macros"] }
tokio-tungstenite = { version = "=0.26.2", features = ["rustls-tls-webpki-roots"] }
futures = "=0.3.34"
anyhow = "=1.0.104"
crossbeam = "=0.8.5"
bzip2 = "=0.5.2"
kiddo = "=4.2.1"
ryu = "=1.0.23"
libc = "=0.2.191"
parking_lot = "=0.12.5"
lazy_static = "=1.5.1"
regex = "=1.13.1"
git2 = { version = "=0.20.4", default-features = false }
smallvec = "=1.16.4"
cc = "=1.11.0"
vergen-gitcl = { version = "1", features = ["build"] }
cbindgen = { version = "*", default-features = false }
