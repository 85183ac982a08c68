[package]
name = "thorn"
version = "0.1.0"
edition = "2021"
publish = false

[dependencies]
serde = { version = "1", features = ["derive"] }
bincode = { version = "*", features = ["serde"] }
ctrlc = "*"
dialog = "*"
log = "*"
fern = "*"
