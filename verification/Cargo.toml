[package]
name = "rs_clean"
version = "0.1.0"
edition = "2021"
publish = false

[dependencies]
glob = "*"
clap = { version = "*", features = ["derive"] }
colored = "*"
futures = "*"
indicatif = "*"
serde = { version = "*", features = ["derive"] }
thiserror = "*"
tokio = { version = "*", features = ["full"] }
toml = "*"
walkdir = "*"
which = "*"
