[package]
name = "jset_desk"
version = "0.3.0"
edition = "2021"
publish = false

[dependencies]
num_cpus = "*"
png = "*"
serde = "*"
serde_derive = "*"
toml = "*"
