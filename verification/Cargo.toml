[package]
name = "powermenu"
version = "0.1.0"
edition = "2021"
publish = false

[dependencies]
gtk = "*"

[dev-dependencies]
toml = "*"
