[package]
name = "framenote"
version = "0.1.0"
edition = "2021"
publish = false

[dependencies]
base64 = "0.22"
keyring = "3"
mdns-sd = "0.13"
reqwest = { version = "0.12", default-features = false, features = ["blocking", "json", "rustls-tls"] }
rfd = { version = "0.15", default-features = false, features = ["xdg-portal", "async-std"] }
serde = { version = "1", features = ["derive"] }
serde_json = "1"
tempfile = "3"
tiny_http = "0.12"
tokio = { version = "1", features = ["macros", "process", "rt", "time"] }
tokio-util = "0.7"
tungstenite = { version = "0.26", features = ["rustls-tls-webpki-roots"] }
url = "2"
uuid = { version = "1", features = ["v4"] }
