[package]
name = "cargo_workspace_deps"
version = "0.1.0"
edition = "2021"
publish = false

[dependencies]
anyhow = "*"
cargo_metadata = "*"
clap = { version = "*", features = ["derive"] }
glob = "*"
semver = "*"
serde = { version = "*", features = ["derive"] }
serde_json = "*"
toml_edit = "*"
