[package]
name = "brainwiki"
version = "0.1.0"
edition = "2021"
publish = false

[dependencies]
pulldown-cmark = "=0.13.4"
notify = "=8.2.0"
toml = "=1.1.7"
serde = { version = "=1.0.229", features = ["derive"] }
