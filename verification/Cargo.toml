[package]
name = "subpub"
version = "0.1.0"
edition = "2021"
publish = false

[dependencies]
anyhow = "*"
cargo_metadata = "*"
clap = { version = "*", features = ["derive"] }
flate2 = "*"
reqwest = { version = "*", default-features = false, features = ["blocking", "json"] }
semver = "*"
serde = { version = "*", features = ["derive"] }
tar = "*"
tempfile = "*"
toml_edit = "*"
tracing = "*"
tracing-subscriber = { version = "*", features = ["env-filter"] }
