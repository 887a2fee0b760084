[package]
name = "mdbook_track"
version = "0.1.0"
edition = "2021"
publish = false

[dependencies]
anyhow = "1"
mdbook-preprocessor = "0.5"
serde = { version = "1", features = ["derive"] }
serde_json = "1"
