[package]
name = "import_squeeze"
version = "0.1.0"
edition = "2021"
publish = false

[dependencies]
anyhow = "*"
clap = { version = "*", features = ["derive"] }
globset = "*"
rayon = "*"
serde_json = "*"
walkdir = "*"
