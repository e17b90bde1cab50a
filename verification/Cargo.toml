[package]
name = "dslop"
version = "0.1.0"
edition = "2021"
publish = false

[dependencies]
regex-lite = "0.1"
clap = { version = "4", features = ["derive"] }
ignore = "0.4"
serde = { version = "1", features = ["derive"] }
termcolor = "1"
toml = "0.8"
