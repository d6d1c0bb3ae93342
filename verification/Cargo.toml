[package]
name = "colorhoster"
version = "0.1.0"
edition = "2021"
publish = false

[dependencies]
anyhow = "*"
async-hid = "*"
clap = { version = "*", features = ["derive"] }
ctrlc = "*"
evalexpr = "*"
futures = "*"
itertools = "*"
palette = "*"
serde = { version = "*", features = ["derive"] }
serde_json = "*"
tokio = { version = "*", features = ["full"] }
tokio-util = "*"
toml = "*"
