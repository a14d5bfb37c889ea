[package]
name = "ps4_rs"
version = "0.1.0"
edition = "2021"
publish = false

[dependencies]
edit-distance = "*"
csv = "*"
serde = { version = "*", features = ["derive"] }
serde-pickle = "*"
rayon = "*"
