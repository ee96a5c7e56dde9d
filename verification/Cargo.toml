[package]
name = "blobwar"
version = "0.1.0"
edition = "2021"
publish = false

[dependencies]
rand = "0.8.5"
libc = "*"
rayon = "*"
serde = { version = "*", features = ["derive"] }
serde_derive = "*"
serde_json = "*"
