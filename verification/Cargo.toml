[package]
name = "ruddy"
version = "0.1.0"
edition = "2021"
publish = false

[dependencies]
unicode-ident = "1"
semver = "1"
twox-hash = "2"
indexmap = "2"
serde = { version = "1", features = ["derive"] }
