[package]
name = "stream_clipper"
version = "0.1.0"
edition = "2021"
publish = false

[dependencies]
chrono = "*"
dirs = "*"
hostname = "*"
hound = "*"
rand = "0.9"
rayon = "*"
regex = "*"
serde = { version = "*", features = ["derive"] }
serde_json = "*"
uuid = { version = "*", features = ["v4"] }
webrtc-vad = "*"
whoami = "*"
