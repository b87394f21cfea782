[package]
name = "link_extractor"
version = "0.1.0"
edition = "2021"
publish = false

[dependencies]
regex = "1"
url = "2"
reqwest = { version = "0.11", default-features = false }
log = "0.4"
