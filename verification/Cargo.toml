[package]
name = "music_manager"
version = "0.1.0"
edition = "2021"
publish = false

[dependencies]
anyhow = "*"
blake3 = "*"
clap = { version = "*", features = ["derive"] }
rayon = "*"
serde = { version = "*", features = ["derive"] }
serde_json = "*"
symphonia = "*"
thiserror = "*"
toml = "*"
tracing = "*"
tracing-subscriber = "*"
