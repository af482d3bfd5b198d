[package]
name = "temper"
version = "0.1.0"
edition = "2021"
publish = false

[dependencies]
regex = "*"
strfmt = "*"
toml = { version = "0.8", features = ["preserve_order"] }
crossbeam-deque = "*"
crossbeam-channel = "*"
serde = { version = "*", features = ["derive"] }
serde_json = "*"
clap = "*"
glob = "*"
