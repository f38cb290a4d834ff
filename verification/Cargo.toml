[package]
name = "crosser"
version = "0.1.0"
edition = "2021"
publish = false

[dependencies]
anyhow = "*"
clap = { version = "*", features = ["derive"] }
crossterm = "*"
dkregistry = "*"
flate2 = "*"
fs_extra = "*"
futures = "*"
getrandom = "*"
glob = "*"
hex = "*"
ignore = "*"
log = "*"
reqwest = { version = "0.11", default-features = false, features = ["json"] }
ron = "*"
serde = { version = "*", features = ["derive"] }
serde_json = "*"
serde_yaml = "*"
tar = "*"
tempfile = "*"
tokio = { version = "*", features = ["macros", "rt-multi-thread"] }
