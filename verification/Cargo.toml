[package]
name = "i18n-core"
version = "0.1.0"
edition = "2021"
publish = false

[dependencies]
regex = "=1.13.1"
jsonc-parser = "=0.34.0"
saphyr = "=0.3.3"
saphyr-parser = "=0.3.3"
serde = { version = "=1.0.229", features = ["derive"] }
serde_json = { version = "=1.0.154", features = ["preserve_order"] }
walkdir = "=2.5.0"
anyhow = "=1.0.104"
clap = { version = "=4.6.7", features = ["derive"] }
thiserror = "=2.0.21"
url = "2"
