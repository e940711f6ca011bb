[package]
name = "patch_conflicts"
version = "0.1.0"
edition = "2021"
publish = false

[dependencies]
anyhow = "1"
chrono = "0.4"
clap = { version = "4", features = ["derive"] }
colored = "2"
dialoguer = "0.11"
directories = "5"
dirs-next = "2"
fs_extra = "1"
futures = "0.3"
nix = { version = "0.27", features = ["user"] }
once_cell = "1"
regex = "1"
reqwest = "0.11"
scraper = "0.18"
serde = { version = "1", features = ["derive"] }
serde_json = "1"
shell-words = "1"
thiserror = "1"
tokio = { version = "1", features = ["full"] }
walkdir = "2"
