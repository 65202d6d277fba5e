[package]
name = "v_m_io"
version = "0.1.0"
edition = "2021"
publish = false

[dependencies]
aegis = { version = "=0.9.20", default-features = false, features = ["std", "pure-rust"] }
base64 = "=0.22.1"
bincode-next = { version = "=3.1.1", features = ["serde"] }
clap = { version = "=4.6.7", features = ["derive", "env"] }
futures-util = "=0.3.34"
hex = "=0.4.3"
hkdf = "=0.13.0"
http-body-util = "=0.1.5"
hyper = { version = "=1.12.0", features = ["http1", "http2", "server"] }
hyper-util = { version = "=0.1.21", features = ["server", "server-auto", "tokio", "http1", "http2"] }
lru = "=0.19.0"
mlua = { version = "=0.12.2", features = ["lua54", "vendored"] }
rand = "=0.10.3"
reqwest = { version = "=0.13.5", default-features = false }
rusqlite = { version = "=0.41.1", features = ["bundled-sqlcipher-vendored-openssl"] }
serde = { version = "=1.0.229", features = ["derive"] }
serde_json = "=1.0.154"
sha2 = "=0.11.1"
tempfile = "=3.27.0"
tokio = { version = "=1.54.1", features = ["full"] }
tokio-stream = { version = "=0.1.19", features = ["net"] }
tracing = "=0.1.44"
tracing-subscriber = { version = "=0.3.23", features = ["env-filter"] }
zeroize = "=1.9.1"
