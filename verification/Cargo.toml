[package]
name = "gaiety"
version = "0.1.0"
edition = "2021"
publish = false

[dependencies]
anyhow = "1"
clap = { version = "4", features = ["derive", "env"] }
colored = "2"
semver = "1"
serde = { version = "1", features = ["derive"] }
shellexpand = "3"
toml = "0.8"
toml_edit = "0.22"
