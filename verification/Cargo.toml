[package]
name = "noda_core"
version = "0.1.0"
edition = "2021"
publish = false

[dependencies]
argon2 = "0.5"
base64 = "0.22"
chacha20poly1305 = "0.10"
chrono = { version = "0.4", features = ["serde"] }
dirs = "5"
gray_matter = "0.2"
html2md = "*"
jni = "0.21"
mime_guess = "2"
notify = "6"
parking_lot = "0.12"
quick-xml = "0.36"
rand = "0.8"
readabilityrs = "*"
regex = "1"
reqwest = { version = "0.12", default-features = false }
rusqlite = { version = "0.32", features = ["bundled"] }
serde = { version = "1", features = ["derive"] }
serde_json = "1"
serde_yaml = "0.9"
similar = "2"
thiserror = "1"
tokio = { version = "1", features = ["fs", "rt-multi-thread", "sync", "time", "macros"] }
tracing = "0.1"
ulid = { version = "1", features = ["serde"] }
url = "2"
uuid = { version = "1", features = ["v4"] }
walkdir = "2"
xxhash-rust = { version = "0.8", features = ["xxh3"] }
