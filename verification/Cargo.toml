[package]
name = "cardbe"
version = "0.1.0"
edition = "2021"
publish = false

[dependencies]
base64 = "=0.22.1"
chrono = { version = "=0.4.45", default-features = false, features = ["std", "clock"] }
loro = "=1.17.1"
qrcode = { version = "=0.14.1", default-features = false, features = ["svg"] }
serde = { version = "=1.0.229", features = ["derive"] }
serde_json = "=1.0.154"
sha2 = "=0.10.9"
url = "=2.5.8"
axum = { version = "0.8", default-features = false, features = ["http1", "tokio", "query"] }
futures-util = { version = "0.3", default-features = false, features = ["std", "sink"] }
local-ip-address = "0.6"
log = "0.4"
reqwest = { version = "0.12", default-features = false, features = ["json", "rustls-tls"] }
rusqlite = { version = "0.41", features = ["bundled"] }
tokio = { version = "1", features = ["rt-multi-thread", "macros", "net", "time", "sync", "io-util"] }
tokio-tungstenite = { version = "0.28", default-features = false, features = ["connect"] }
zip = { version = "8", default-features = false, features = ["deflate"] }
