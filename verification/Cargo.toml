[package]
name = "docweave"
version = "0.1.0"
edition = "2021"
publish = false

[dependencies]
comrak = { version = "*", default-features = false }
Inflector = { version = "0.11", default-features = false }
json5 = "0.4"
serde = "1"
serde_json = "1"
