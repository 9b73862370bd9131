[package]
name = "banner_formats"
version = "0.1.0"
edition = "2021"
publish = false

[dependencies]
byteorder = "1"
png = "0.17"
serde = { version = "1", features = ["derive"] }
serde_json = "1"
log = "0.4"
hidapi = "2"
