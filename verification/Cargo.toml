[package]
name = "truthful"
version = "0.1.0"
edition = "2021"
publish = false

[dependencies]
permutator = "*"
cli-table = "0.4"
dirs = "*"
rustyline = "10"
serde = { version = "1", features = ["derive"] }
toml-base-config = "*"
