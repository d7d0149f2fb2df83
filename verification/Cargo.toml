[package]
name = "code2prompt"
version = "0.1.0"
edition = "2021"
publish = false

[dependencies]
dirs = "*"
glob = "*"
ignore = "*"
rustyline = "*"
serde = { version = "1", features = ["derive"] }
toml = "*"
