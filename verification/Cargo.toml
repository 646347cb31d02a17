[package]
name = "novaenv"
version = "1.0.0"
edition = "2021"
publish = false

[dependencies]
serde = { version = "1", features = ["derive"] }
serde_json = "1"
ureq = "2"
flate2 = "1"
tar = "0.4"
zip = { version = "2", default-features = false, features = ["deflate"] }
libc = "0.2"
chrono = { version = "0.4", default-features = false, features = ["clock"] }
