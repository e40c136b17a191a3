[package]
name = "just"
version = "0.1.0"
edition = "2021"
publish = false

[dependencies]
semver = { version = "0.9", features = ["serde"] }
serde = "1"
serde_derive = "1"
toml = "0.5"
walkdir = "2"
log = "0.4"
duct = "*"
