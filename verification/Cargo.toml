[package]
name = "pickup_lang"
version = "0.2.0"
edition = "2021"
publish = false

[dependencies]
base64 = "0.22"
chrono = "0.4"
clap = { version = "4", features = ["derive"] }
csv = "1"
glob = "0.3"
hmac = "0.12"
md-5 = "0.10"
percent-encoding = "2"
rand = "0.8"
regex = "1"
rustyline = "*"
serde_json = "1"
sha1 = "0.10"
sha2 = "0.10"
ureq = "2"
url = "2"
uuid = { version = "1", features = ["v4"] }
walkdir = "2"
