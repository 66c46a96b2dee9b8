[package]
name = "northstar"
version = "0.1.0"
edition = "2021"
publish = false

[dependencies]
anyhow = "1"
itertools = "0.9"
uriparse = "0.6"
mime = "0.3"
