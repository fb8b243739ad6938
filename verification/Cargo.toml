[package]
name = "keylayout"
version = "0.1.0"
edition = "2021"
publish = false

[dependencies]
hashbrown = "0.14"
rand = "0.8"
fnv_rs = "*"
serde = { version = "1", features = ["derive"] }
serde_json = "1"
csv = "1"
dialoguer = "0.11"
rayon = "1"
thousands = "0.2"
humantime = "2"
rusqlite = { version = "*", features = ["bundled"] }
crossbeam-channel = "0.5"
