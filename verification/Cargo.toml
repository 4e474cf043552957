[package]
name = "lcmds"
version = "0.1.0"
edition = "2021"
publish = false

[dependencies]
clap = { version = "=4.6.7", features = ["derive"] }
console = "=0.16.6"

[dev-dependencies]
toml = "*"
